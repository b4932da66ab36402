use jbsync::sync::merge::{flag_key, merge_file, ConflictPolicy, FileMerge, Side};
use jbsync::xml::dom;
use jbsync::xml::project;

const BASE: &str = r#"<application>
  <component name="Editor">
    <option name="tabs" value="4" />
    <option name="wrap" value="false" />
  </component>
</application>"#;

fn merge(base: &str, local: &str, remote: &str) -> FileMerge {
    merge_file(
        Some(base.as_bytes()),
        Some(local.as_bytes()),
        Some(remote.as_bytes()),
        ConflictPolicy::PreferLocal,
    )
}

fn value_of(merge: &FileMerge, setting: &str) -> Option<String> {
    let text = String::from_utf8(merge.content.clone()?).ok()?;
    let document = dom::parse(&text).ok()?;
    let flattened = project::project(&document);
    (0..flattened.len())
        .find(|&index| project::sugar(flattened.key_at(index)) == setting)
        .map(|index| flattened.value_at(index).clone())
}

#[test]
fn disjoint_edits_in_one_file_both_survive() {
    let local = BASE.replace(r#"name="tabs" value="4""#, r#"name="tabs" value="2""#);
    let remote = BASE.replace(r#"name="wrap" value="false""#, r#"name="wrap" value="true""#);
    let merged = merge(BASE, &local, &remote);

    assert!(merged.conflicts.is_empty(), "different settings never clash");
    assert_eq!(value_of(&merged, "Editor/tabs").as_deref(), Some("2"));
    assert_eq!(value_of(&merged, "Editor/wrap").as_deref(), Some("true"));
    assert_eq!(merged.incoming.len(), 1);
    assert_eq!(merged.outgoing.len(), 1);
}

#[test]
fn the_same_setting_changed_twice_is_a_conflict() {
    let local = BASE.replace(r#"name="tabs" value="4""#, r#"name="tabs" value="2""#);
    let remote = BASE.replace(r#"name="tabs" value="4""#, r#"name="tabs" value="8""#);
    let merged = merge(BASE, &local, &remote);

    assert_eq!(merged.conflicts.len(), 1);
    let conflict = &merged.conflicts[0];
    assert_eq!(conflict.setting, "Editor/tabs");
    assert_eq!(conflict.local.as_deref(), Some("2"));
    assert_eq!(conflict.remote.as_deref(), Some("8"));
    assert_eq!(value_of(&merged, "Editor/tabs").as_deref(), Some("2"));
}

#[test]
fn conflict_policy_can_prefer_the_remote_value() {
    let local = BASE.replace(r#"name="tabs" value="4""#, r#"name="tabs" value="2""#);
    let remote = BASE.replace(r#"name="tabs" value="4""#, r#"name="tabs" value="8""#);
    let merged = merge_file(
        Some(BASE.as_bytes()),
        Some(local.as_bytes()),
        Some(remote.as_bytes()),
        ConflictPolicy::PreferRemote,
    );
    assert_eq!(value_of(&merged, "Editor/tabs").as_deref(), Some("8"));
}

#[test]
fn a_setting_added_remotely_arrives() {
    let remote = BASE.replace(
        "</component>",
        r#"  <option name="fontSize" value="14" />
  </component>"#,
    );
    let merged = merge(BASE, BASE, &remote);
    assert_eq!(value_of(&merged, "Editor/fontSize").as_deref(), Some("14"));
    assert_eq!(merged.incoming.len(), 1);
}

#[test]
fn reverting_a_setting_to_its_default_propagates_as_a_removal() {
    let remote = BASE.replace(
        r#"    <option name="wrap" value="false" />
"#,
        "",
    );
    let merged = merge(BASE, BASE, &remote);
    assert_eq!(value_of(&merged, "Editor/wrap"), None);
    assert_eq!(merged.incoming.len(), 1);
    assert_eq!(merged.incoming[0].to, None);
}

#[test]
fn identical_edits_on_both_sides_are_not_a_conflict() {
    let changed = BASE.replace(r#"value="4""#, r#"value="2""#);
    let merged = merge(BASE, &changed, &changed);
    assert!(merged.conflicts.is_empty());
    assert!(merged.is_noop());
}

#[test]
fn a_tombstone_is_treated_as_an_absent_file() {
    let merged = merge_file(
        Some(BASE.as_bytes()),
        Some(b"DELETED"),
        Some(BASE.as_bytes()),
        ConflictPolicy::PreferLocal,
    );
    assert_eq!(merged.content, None, "local deletion wins over an idle remote");
}

#[test]
fn merged_output_is_always_parseable() {
    let local = BASE.replace(r#"name="tabs" value="4""#, r#"name="tabs" value="2""#);
    let remote = BASE.replace(r#"name="wrap" value="false""#, r#"name="wrap" value="true""#);
    let merged = merge(BASE, &local, &remote);
    let text = String::from_utf8(merged.content.unwrap()).unwrap();
    assert!(dom::parse(&text).is_ok());
}

#[test]
fn vmoptions_additions_from_both_machines_are_kept() {
    let merged = merge_file(
        Some(b"-Xmx4g\n"),
        Some(b"-Xmx4g\n-XX:+UseZGC\n"),
        Some(b"-Xmx4g\n-Dfile.encoding=UTF-8\n"),
        ConflictPolicy::PreferLocal,
    );
    let text = String::from_utf8(merged.content.unwrap()).unwrap();
    assert!(text.contains("-XX:+UseZGC"));
    assert!(text.contains("-Dfile.encoding=UTF-8"));
    assert!(text.contains("-Xmx4g"));
    assert!(merged.conflicts.is_empty());
}

#[test]
fn the_same_jvm_flag_with_two_values_conflicts() {
    let merged = merge_file(
        Some(b"-Xms512m\n"),
        Some(b"-Xms512m\n-Xmx4g\n"),
        Some(b"-Xms512m\n-Xmx16g\n"),
        ConflictPolicy::PreferLocal,
    );
    assert_eq!(merged.conflicts.len(), 1);
    assert_eq!(merged.conflicts[0].setting, "-Xmx");
    let text = String::from_utf8(merged.content.unwrap()).unwrap();
    assert!(text.contains("-Xmx4g"), "local preference applied");
    assert!(!text.contains("-Xmx16g"));
}

#[test]
fn flag_key_groups_values_of_the_same_option() {
    assert_eq!(flag_key("-Xmx4g"), flag_key("-Xmx16g"));
    assert_eq!(flag_key("-Dfile.encoding=UTF-8"), "-Dfile.encoding");
    assert_ne!(flag_key("-Xmx4g"), flag_key("-Xms4g"));
}

#[test]
fn fail_policy_reports_the_conflict_without_choosing() {
    let local = BASE.replace(r#"value="4""#, r#"value="2""#);
    let remote = BASE.replace(r#"value="4""#, r#"value="8""#);
    let merged = merge_file(
        Some(BASE.as_bytes()),
        Some(local.as_bytes()),
        Some(remote.as_bytes()),
        ConflictPolicy::Fail,
    );
    assert_eq!(merged.conflicts.len(), 1);
    assert_eq!(merged.conflicts[0].resolved_to, None);
}

#[test]
fn a_whole_file_added_remotely_is_taken() {
    let merged = merge_file(None, None, Some(BASE.as_bytes()), ConflictPolicy::PreferLocal);
    assert_eq!(merged.content.as_deref(), Some(BASE.as_bytes()));
    assert_eq!(merged.incoming.len(), 1);
    assert_eq!(merged.incoming[0].setting, "(file added)");
    assert_eq!(merged.incoming[0].to.as_deref(), Some("updated remotely"));
}

#[test]
fn two_different_binary_files_are_one_whole_file_conflict() {
    let merged = merge_file(
        Some(&[0xff, 0x01]),
        Some(&[0xff, 0x02]),
        Some(&[0xff, 0x03]),
        ConflictPolicy::PreferRemote,
    );
    assert_eq!(merged.conflicts.len(), 1);
    assert_eq!(merged.conflicts[0].setting, "(whole file)");
    assert_eq!(merged.conflicts[0].resolved_to, Some(Side::Remote));
    assert_eq!(merged.content.as_deref(), Some(&[0xff, 0x03][..]));
}

#[test]
fn a_flag_removed_on_one_side_stays_removed() {
    let merged = merge_file(
        Some(b"-Xms512m\n-ea\n"),
        Some(b"-Xms512m\n"),
        Some(b"-Xms512m\n-ea\n-XX:+UseZGC\n"),
        ConflictPolicy::PreferRemote,
    );
    let text = String::from_utf8(merged.content.unwrap()).unwrap();
    assert_eq!(text, "-Xms512m\n-XX:+UseZGC\n");
    assert!(merged.conflicts.is_empty());
    assert_eq!(merged.outgoing.len(), 1);
    assert_eq!(merged.incoming.len(), 1);
}

#[test]
fn each_setting_is_reported_in_the_direction_it_travels() {
    let local = BASE.replace(r#"name="tabs" value="4""#, r#"name="tabs" value="2""#);
    let remote = BASE.replace(r#"name="wrap" value="false""#, r#"name="wrap" value="true""#);
    let merged = merge(BASE, &local, &remote);

    let incoming = &merged.incoming[0];
    assert_eq!(incoming.path, "component[name=Editor]/option[name=wrap]/@value");
    assert_eq!(incoming.setting, "Editor/wrap");
    assert_eq!(incoming.from.as_deref(), Some("false"));
    assert_eq!(incoming.to.as_deref(), Some("true"));
    let outgoing = &merged.outgoing[0];
    assert_eq!(outgoing.path, "component[name=Editor]/option[name=tabs]/@value");
    assert_eq!(outgoing.from.as_deref(), Some("4"));
    assert_eq!(outgoing.to.as_deref(), Some("2"));
}
