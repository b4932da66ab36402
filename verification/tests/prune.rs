use jbsync::config::XmlOmitRule;
use jbsync::settings::defaults::ProductDefaults;
use jbsync::settings::prune::{prune_document, PruneOutcome};
use jbsync::xml::dom::{parse, Element};
use jbsync::xml::project::{project, set_leaf, sugar};

fn prune(relative: &str, source: &str) -> (Element, PruneOutcome) {
    let mut root = parse(source).unwrap();
    let outcome = prune_document(relative, &mut root, &[], true, None);
    (root, outcome)
}

#[test]
fn keeps_user_registry_keys_and_drops_ide_owned_ones() {
    let (root, outcome) = prune(
        "options/ide.general.xml",
        r#"<application>
             <component name="Registry">
               <entry key="ide.experimental.ui" value="true" source="SYSTEM" />
               <entry key="trace.url" value="https://x" source="MANAGER" />
               <entry key="my.tweak" value="true" source="USER" />
               <entry key="older.style" value="true" />
             </component>
           </application>"#,
    );
    let kept: Vec<&str> = root.children[0]
        .children
        .iter()
        .filter_map(|entry| entry.attributes.get("key").map(String::as_str))
        .collect();
    assert_eq!(kept, vec!["my.tweak", "older.style"]);
    assert_eq!(outcome.removed.len(), 2);
}

#[test]
fn a_value_matching_the_products_default_is_not_a_choice() {
    let mut root = parse(
        "<application>\n  <component name=\"Editor\">\n    <option name=\"tabs\" value=\"4\" />\n    <option name=\"wrap\" value=\"true\" />\n  </component>\n</application>",
    )
    .unwrap();
    let mut defaults = ProductDefaults::new("WebStorm", "262.1");
    defaults.record("options/editor.xml", project(&root));

    let mut untouched = root.copy();
    let outcome = prune_document("options/editor.xml", &mut untouched, &[], true, Some(&defaults));
    assert!(
        outcome.is_empty,
        "an untouched file has no opinion, and leaves no empty shells"
    );

    let donor = root.copy();
    set_leaf(
        &mut root,
        &donor,
        "component[name=Editor]/option[name=tabs]/@value",
        "8",
    );
    let outcome = prune_document("options/editor.xml", &mut root, &[], true, Some(&defaults));
    assert!(!outcome.is_empty);
    let kept: Vec<String> = project(&root)
        .keys_vec()
        .iter()
        .map(|address| sugar(address))
        .collect();
    assert_eq!(kept, vec!["Editor/tabs".to_string()]);
}

#[test]
fn drops_untouched_tutorial_progress_entirely() {
    let (_, outcome) = prune(
        "options/ide-features-trainer.xml",
        r#"<application>
             <component name="LessonStateBase">
               <option name="map">
                 <map>
                   <entry key="actions" value="NOT_PASSED" />
                   <entry key="collapse" value="NOT_PASSED" />
                 </map>
               </option>
             </component>
           </application>"#,
    );
    assert!(
        outcome.is_empty,
        "a file of untouched defaults should not reach the store"
    );
}

#[test]
fn keeps_tutorials_the_user_completed() {
    let (root, _) = prune(
        "options/ide-features-trainer.xml",
        r#"<application>
             <component name="LessonStateBase">
               <option name="map">
                 <map>
                   <entry key="actions" value="NOT_PASSED" />
                   <entry key="collapse" value="PASSED" />
                 </map>
               </option>
             </component>
           </application>"#,
    );
    let flattened = project(&root);
    assert_eq!(flattened.len(), 1);
    assert!(flattened.key_at(0).contains("collapse"));
}

#[test]
fn drops_version_only_components_but_keeps_real_settings() {
    let (root, _) = prune(
        "options/databaseDrivers.xml",
        r#"<application>
             <component name="LocalDatabaseDriverManager" version="201" />
             <component name="LafManager" autodetect="true" />
           </application>"#,
    );
    assert_eq!(root.children.len(), 1);
    assert_eq!(
        root.children[0].attributes.get("name").map(String::as_str),
        Some("LafManager")
    );
}

#[test]
fn drops_one_shot_migration_flags() {
    let (_, outcome) = prune(
        "options/diff.xml",
        r#"<application>
             <component name="ExternalDiffSettings">
               <option name="MIGRATE_OLD_SETTINGS" value="true" />
             </component>
           </application>"#,
    );
    assert!(outcome.is_empty);
}

#[test]
fn user_rules_apply_on_top_of_builtins() {
    let mut root = parse(
        r#"<application>
             <component name="EditorSettings">
               <option name="SHOW_INTENTION_BULB" value="false" />
               <option name="IS_CARET_BLINKING" value="true" />
             </component>
           </application>"#,
    )
    .unwrap();
    let rules = vec![XmlOmitRule {
        file: "options/editor.xml".to_string(),
        component: Some("EditorSettings".to_string()),
        element: "option".to_string(),
        option: Some("SHOW_INTENTION_BULB".to_string()),
        attribute: None,
        equals: String::new(),
    }];
    let outcome = prune_document("options/editor.xml", &mut root, &rules, true, None);
    assert_eq!(outcome.removed.len(), 1);
    assert_eq!(root.children[0].children.len(), 1);
}

#[test]
fn rules_scoped_to_other_files_do_not_fire() {
    let mut root = parse(
        r#"<application><component name="Registry">
             <entry key="a" value="1" source="SYSTEM" />
           </component></application>"#,
    )
    .unwrap();
    let outcome = prune_document("options/editor.xml", &mut root, &[], true, None);
    assert!(outcome.removed.is_empty());
}

#[test]
fn removals_name_the_setting_and_the_reason() {
    let (_, outcome) = prune(
        "options/ide.general.xml",
        r#"<application><component name="Registry">
             <entry key="ide.experimental.ui" value="true" source="SYSTEM" />
             <entry key="kept" value="1" />
           </component></application>"#,
    );
    assert_eq!(outcome.removed.len(), 1);
    assert_eq!(outcome.removed[0].path, "Registry/ide.experimental.ui");
    assert_eq!(outcome.removed[0].reason, "registry key set by the IDE, not the user");
}

#[test]
fn builtins_can_be_switched_off() {
    let mut root = parse(
        r#"<application><component name="Registry">
             <entry key="a" value="1" source="SYSTEM" />
           </component></application>"#,
    )
    .unwrap();
    let outcome = prune_document("options/ide.general.xml", &mut root, &[], false, None);
    assert!(outcome.removed.is_empty());
    assert!(!outcome.is_empty);
}

#[test]
fn a_user_rule_reports_its_file_as_the_reason() {
    let mut root = parse(
        r#"<application><component name="C"><option name="x" value="1" /><option name="y" value="2" /></component></application>"#,
    )
    .unwrap();
    let rules = vec![XmlOmitRule {
        file: "options/*.xml".to_string(),
        component: None,
        element: "option".to_string(),
        option: None,
        attribute: Some("value".to_string()),
        equals: "1".to_string(),
    }];
    let outcome = prune_document("options/c.xml", &mut root, &rules, true, None);
    assert_eq!(outcome.removed.len(), 1);
    assert_eq!(outcome.removed[0].reason, "excluded by options/*.xml");
    assert_eq!(outcome.removed[0].path, "C/x");
}
