use jbsync::xml::dom::{parse, serialize, Element};
use jbsync::xml::project::{project, prune_empty, remove_leaf, set_leaf, sugar};

fn document() -> Element {
    parse(
        r#"<application>
             <component name="GeneralSettings">
               <option name="reopenLastProject" value="false" />
             </component>
             <component name="Registry">
               <entry key="ide.experimental.ui" value="true" source="SYSTEM" />
             </component>
           </application>"#,
    )
    .unwrap()
}

#[test]
fn projects_each_setting_to_one_address() {
    let flattened = project(&document());
    assert_eq!(
        flattened
            .get("component[name=GeneralSettings]/option[name=reopenLastProject]/@value")
            .map(String::as_str),
        Some("false")
    );
    assert_eq!(
        flattened
            .get("component[name=Registry]/entry[key=ide.experimental.ui]/@source")
            .map(String::as_str),
        Some("SYSTEM")
    );
}

#[test]
fn key_attribute_is_not_repeated_as_a_leaf() {
    let flattened = project(&document());
    assert!(!flattened
        .keys_vec()
        .iter()
        .any(|path| path.ends_with("@name") || path.ends_with("@key")));
}

#[test]
fn sugar_reads_like_the_settings_ui() {
    assert_eq!(
        sugar("component[name=GeneralSettings]/option[name=reopenLastProject]/@value"),
        "GeneralSettings/reopenLastProject"
    );
    assert_eq!(
        sugar("component[name=Editor]/option[name=fonts]/map#0/entry[key=size]/@value"),
        "Editor/fonts/size"
    );
    assert_eq!(
        sugar("component[name=Registry]/entry[key=ide.ui]/@source"),
        "Registry/ide.ui/@source"
    );
}

#[test]
fn positional_addresses_disambiguate_keyless_siblings() {
    let parsed = parse(r#"<root><laf themeId="a" /><laf themeId="b" /></root>"#).unwrap();
    let flattened = project(&parsed);
    assert_eq!(flattened.get("laf#0/@themeId").map(String::as_str), Some("a"));
    assert_eq!(flattened.get("laf#1/@themeId").map(String::as_str), Some("b"));
}

#[test]
fn set_leaf_creates_missing_ancestors_from_the_donor() {
    let donor = document();
    let mut target = parse("<application />").unwrap();
    let path = "component[name=GeneralSettings]/option[name=reopenLastProject]/@value";
    assert!(set_leaf(&mut target, &donor, path, "true"));
    assert_eq!(project(&target).get(path).map(String::as_str), Some("true"));
    assert_eq!(target.children.len(), 1);
}

#[test]
fn set_leaf_refuses_paths_the_donor_lacks() {
    let donor = parse("<application />").unwrap();
    let mut target = parse("<application />").unwrap();
    assert!(!set_leaf(&mut target, &donor, "component[name=Nope]/@value", "x"));
    assert!(target.children.is_empty());
}

#[test]
fn remove_leaf_prunes_elements_it_empties() {
    let mut target = document();
    remove_leaf(
        &mut target,
        "component[name=GeneralSettings]/option[name=reopenLastProject]/@value",
    );
    let flattened = project(&target);
    let keys = flattened.keys_vec();
    assert!(!keys.iter().any(|path| path.contains("GeneralSettings")));
    assert!(keys.iter().any(|path| path.contains("Registry")));
}

#[test]
fn projection_survives_a_serialization_round_trip() {
    let original = document();
    let reparsed = parse(&serialize(&original)).unwrap();
    assert_eq!(project(&original), project(&reparsed));
}

#[test]
fn a_leaf_written_reads_back_from_the_projection() {
    let donor = document();
    let mut target = document();
    let path = "component[name=Registry]/entry[key=ide.experimental.ui]/@value";
    assert!(set_leaf(&mut target, &donor, path, "false"));
    assert_eq!(project(&target).get(path).map(String::as_str), Some("false"));
}

#[test]
fn pruning_keeps_an_element_that_holds_a_value() {
    let mut target = parse(r#"<application><option name="outer"><map /></option><component name="B" x="1" /></application>"#).unwrap();
    prune_empty(&mut target);
    assert_eq!(target.children.len(), 1);
    assert_eq!(target.children[0].attributes.get("name").map(String::as_str), Some("B"));
}

#[test]
fn text_leaves_are_addressed_with_hash_text() {
    let parsed = parse("<root><place>Java</place></root>").unwrap();
    assert_eq!(project(&parsed).get("place#0/#text").map(String::as_str), Some("Java"));
}

#[test]
fn grafted_ancestors_bring_no_settings_of_their_own() {
    let donor = parse(
        r#"<application>
             <component name="Editor" version="3">
               <option name="tabs" value="2" />
             </component>
           </application>"#,
    )
    .unwrap();
    let mut target = parse("<application />").unwrap();
    assert!(set_leaf(&mut target, &donor, "component[name=Editor]/option[name=tabs]/@value", "2"));
    let flattened = project(&target);
    assert_eq!(flattened.len(), 1, "only the written setting appears");
    assert_eq!(
        flattened.get("component[name=Editor]/option[name=tabs]/@value").map(String::as_str),
        Some("2")
    );
}

#[test]
fn a_refused_write_leaves_no_half_built_ancestors() {
    let donor = parse(r#"<application><component name="Editor" /></application>"#).unwrap();
    let mut target = parse("<application />").unwrap();
    assert!(!set_leaf(&mut target, &donor, "component[name=Editor]/option[name=tabs]/@value", "2"));
    assert!(target.children.is_empty());
    assert!(!set_leaf(&mut target, &donor, "component[name=Editor]/value", "2"));
    assert!(target.children.is_empty());
}

#[test]
fn a_parsed_document_holds_what_its_text_says() {
    let root = parse(r#"<application><component name="Editor">  on  </component></application>"#).unwrap();
    assert_eq!(root.name, "application");
    assert_eq!(root.children.len(), 1);
    let component = &root.children[0];
    assert_eq!(component.attributes.get("name").map(String::as_str), Some("Editor"));
    assert_eq!(component.text.as_deref(), Some("on"));
}
