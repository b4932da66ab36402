use jbsync::ide::{Ide, ProductMetadata};
use jbsync::sync::engine::{
    incoming_paths, incoming_step, reconcile_file_step, selected_ides, skipped_report,
    sorted_union, store_view, switch_line, switched_off, written_back, ide_report, pass_progressed,
};
use jbsync::sync::fold::absorb;
use jbsync::sync::merge::{merge_file, Change, ConflictPolicy};
use jbsync::sync::report::{FileReport, IdeReport};
use jbsync::xml::{dom, project};

const EDITOR: &str = r#"<application>
  <component name="Editor">
    <option name="tabs" value="4" />
  </component>
</application>"#;

fn strings(items: &[&str]) -> Vec<String> {
    items.iter().map(|item| (*item).to_string()).collect()
}

fn value_at(text: &[u8], address: &str) -> Option<String> {
    let document = dom::parse(std::str::from_utf8(text).ok()?).ok()?;
    project::project(&document).get(address).cloned()
}

fn ide(directory: &str, product: &str, name: Option<&str>) -> Ide {
    Ide {
        product: product.to_string(),
        path: format!("/config/{directory}"),
        directory: directory.to_string(),
        pattern_index: 0,
        metadata: name.map(|name| ProductMetadata {
            name: name.to_string(),
            ..ProductMetadata::default()
        }),
        files: Vec::new(),
        settings_sync: Vec::new(),
        plugin_descriptors: Vec::new(),
        bundled_plugins_txt: None,
    }
}

fn file_report(path: &str, incoming: usize) -> FileReport {
    FileReport {
        path: path.to_string(),
        incoming: (0..incoming)
            .map(|index| Change {
                path: format!("a/@v{index}"),
                setting: format!("a/v{index}"),
                from: None,
                to: Some("1".to_string()),
            })
            .collect(),
        outgoing: Vec::new(),
        conflicts: Vec::new(),
        pruned: Vec::new(),
    }
}

#[test]
fn a_file_pruned_to_nothing_is_no_opinion() {
    let raw = br#"<application>
  <component name="ProjectJdksEditor" version="1" />
</application>"#;
    let step = reconcile_file_step(
        "options/jdk.table.xml",
        Some(raw),
        None,
        Some(EDITOR.as_bytes()),
        &[],
        true,
        None,
        ConflictPolicy::PreferLocal,
        false,
        true,
    );
    assert!(step.base.is_none());
    assert!(step.store.is_none());
    assert!(step.ide.is_none());
    assert!(step.report.is_none());
}

#[test]
fn a_new_ide_adopts_the_store_and_records_the_agreement() {
    let step = reconcile_file_step(
        "options/editor.xml",
        None,
        None,
        Some(EDITOR.as_bytes()),
        &[],
        true,
        None,
        ConflictPolicy::PreferLocal,
        false,
        true,
    );
    let recorded = step.base.expect("the snapshot is written").expect("with content");
    assert_eq!(value_at(&recorded, "component[name=Editor]/option[name=tabs]/@value").as_deref(), Some("4"));
    let written = step.ide.expect("the IDE receives the file");
    assert_eq!(written, recorded);
    assert!(step.backup.is_none(), "nothing was there to back up");
    let report = step.report.expect("reported");
    assert_eq!(report.path, "options/editor.xml");
    assert_eq!(report.incoming.len(), 1);
}

#[test]
fn agreement_is_recorded_even_when_nothing_changes() {
    let step = reconcile_file_step(
        "options/editor.xml",
        Some(EDITOR.as_bytes()),
        None,
        Some(EDITOR.as_bytes()),
        &[],
        true,
        None,
        ConflictPolicy::PreferLocal,
        false,
        true,
    );
    assert!(step.base.is_some(), "the snapshot is recorded");
    assert!(step.store.is_none());
    assert!(step.ide.is_none());
    assert!(step.report.is_none());
}

#[test]
fn collecting_only_never_writes_the_ide() {
    let local = EDITOR.replace(r#"value="4""#, r#"value="2""#);
    let remote = format!(
        "{}\n",
        EDITOR.replace(
            "  </component>",
            "    <option name=\"wrap\" value=\"true\" />\n  </component>"
        )
    );
    let step = reconcile_file_step(
        "options/editor.xml",
        Some(local.as_bytes()),
        Some(EDITOR.as_bytes()),
        Some(remote.as_bytes()),
        &[],
        true,
        None,
        ConflictPolicy::PreferLocal,
        true,
        true,
    );
    assert!(step.ide.is_none());
    assert!(step.backup.is_none());
    let stored = step.store.expect("the store takes the merge").expect("with content");
    assert_eq!(value_at(&stored, "component[name=Editor]/option[name=tabs]/@value").as_deref(), Some("2"));
    assert_eq!(value_at(&stored, "component[name=Editor]/option[name=wrap]/@value").as_deref(), Some("true"));
}

#[test]
fn writing_back_keeps_what_the_ide_alone_holds() {
    let raw = r#"<application>
  <component name="Editor">
    <option name="tabs" value="4" />
  </component>
  <component name="Registry">
    <entry key="ide.x" value="1" source="SYSTEM" />
  </component>
</application>"#;
    let store = EDITOR.replace(r#"value="4""#, r#"value="8""#);
    let step = reconcile_file_step(
        "options/editor.xml",
        Some(raw.as_bytes()),
        Some(EDITOR.as_bytes()),
        Some(store.as_bytes()),
        &[],
        true,
        None,
        ConflictPolicy::PreferLocal,
        false,
        true,
    );
    let written = step.ide.expect("the IDE receives the new value");
    assert_eq!(value_at(&written, "component[name=Editor]/option[name=tabs]/@value").as_deref(), Some("8"));
    assert_eq!(
        value_at(&written, "component[name=Registry]/entry[key=ide.x]/@source").as_deref(),
        Some("SYSTEM"),
        "settings the IDE owns survive"
    );
    assert_eq!(step.backup.as_deref(), Some(raw.as_bytes()));
}

#[test]
fn written_back_leaves_the_file_alone_without_arrivals() {
    let merged = merge_file(Some(EDITOR.as_bytes()), Some(EDITOR.as_bytes()), Some(EDITOR.as_bytes()), ConflictPolicy::PreferLocal);
    assert!(written_back(Some(EDITOR.as_bytes()), &merged).is_none());
}

#[test]
fn written_back_takes_non_xml_content_as_it_is() {
    let merged = merge_file(Some(b"-Xmx2g\n"), Some(b"-Xmx2g\n"), Some(b"-Xmx4g\n"), ConflictPolicy::PreferLocal);
    assert_eq!(written_back(Some(b"-Xmx2g\n"), &merged).as_deref(), Some(b"-Xmx4g\n".as_slice()));
}

#[test]
fn store_view_passes_binary_through_and_drops_tombstones() {
    let binary = [0xffu8, 0xfe, 0x00];
    let (view, removed) = store_view("keymaps/x.bin", &binary, &[], true, None);
    assert_eq!(view.as_deref(), Some(binary.as_slice()));
    assert!(removed.is_empty());
    let (view, _) = store_view("options/laf.xml", b"  DELETED\n", &[], true, None);
    assert!(view.is_none());
}

#[test]
fn store_view_prunes_system_registry_keys() {
    let raw = r#"<application>
  <component name="Registry">
    <entry key="ide.x" value="1" source="SYSTEM" />
    <entry key="ide.y" value="2" />
  </component>
</application>"#;
    let (view, removed) = store_view("options/ide.general.xml", raw.as_bytes(), &[], true, None);
    let view = view.expect("a user choice is left");
    assert!(value_at(&view, "component[name=Registry]/entry[key=ide.x]/@value").is_none());
    assert_eq!(value_at(&view, "component[name=Registry]/entry[key=ide.y]/@value").as_deref(), Some("2"));
    assert_eq!(removed.len(), 1);
}

#[test]
fn incoming_settings_merge_and_bookkeeping_is_skipped() {
    assert!(incoming_step(".gitattributes", None, Some(b"a"), Some(b"b"), ConflictPolicy::PreferLocal).is_none());
    assert!(incoming_step(".git/HEAD", None, Some(b"a"), Some(b"b"), ConflictPolicy::PreferLocal).is_none());

    let remote = EDITOR.replace(r#"value="4""#, r#"value="2""#);
    let (content, report) = incoming_step(
        "shared/options/editor.xml",
        Some(EDITOR.as_bytes()),
        Some(EDITOR.as_bytes()),
        Some(remote.as_bytes()),
        ConflictPolicy::PreferLocal,
    )
    .expect("a change arrives");
    assert_eq!(report.path, "options/editor.xml");
    assert_eq!(report.incoming.len(), 1);
    assert_eq!(
        value_at(&content.unwrap(), "component[name=Editor]/option[name=tabs]/@value").as_deref(),
        Some("2")
    );
}

#[test]
fn incoming_configuration_merges_as_whole_files() {
    let (content, report) = incoming_step(
        "sync.toml",
        Some(b"a = 1\n"),
        Some(b"a = 1\n"),
        Some(b"a = 2\n"),
        ConflictPolicy::PreferLocal,
    )
    .expect("the remote change arrives");
    assert_eq!(content.as_deref(), Some(b"a = 2\n".as_slice()));
    assert_eq!(report.path, "sync.toml");
    assert_eq!(report.incoming.len(), 1);
    assert!(incoming_step("sync.toml", None, Some(b"x"), Some(b"x"), ConflictPolicy::PreferLocal).is_none());
}

#[test]
fn incoming_paths_are_the_ordered_union_without_bookkeeping() {
    let paths = incoming_paths(
        &strings(&["shared/b.xml", ".gitattributes"]),
        &strings(&["shared/a.xml", "sync.toml"]),
        &strings(&["shared/b.xml", ".git/config", "plugins.json"]),
    );
    assert_eq!(paths, strings(&["plugins.json", "shared/a.xml", "shared/b.xml", "sync.toml"]));
    assert_eq!(sorted_union(&strings(&["b", "a"]), &strings(&["a", "c"])), strings(&["a", "b", "c"]));
}

#[test]
fn switching_off_builtin_sync_writes_false_once() {
    let text = switched_off(None, "SettingsSyncSettings", "syncEnabled").expect("a missing file is written");
    let document = dom::parse(&text).unwrap();
    assert_eq!(document.name, "application");
    assert_eq!(
        project::project(&document)
            .get("component[name=SettingsSyncSettings]/option[name=syncEnabled]/@value")
            .map(String::as_str),
        Some("false")
    );
    assert!(switched_off(Some(&text), "SettingsSyncSettings", "syncEnabled").is_none(), "already off");

    let on = r#"<application>
  <component name="SettingsSyncSettings">
    <option name="syncEnabled" value="true" />
    <option name="other" value="x" />
  </component>
</application>"#;
    let text = switched_off(Some(on), "SettingsSyncSettings", "syncEnabled").unwrap();
    let flat = project::project(&dom::parse(&text).unwrap());
    assert_eq!(
        flat.get("component[name=SettingsSyncSettings]/option[name=syncEnabled]/@value").map(String::as_str),
        Some("false")
    );
    assert_eq!(
        flat.get("component[name=SettingsSyncSettings]/option[name=other]/@value").map(String::as_str),
        Some("x")
    );
    assert_eq!(
        switch_line("PyCharm2026.2", "syncEnabled"),
        "PyCharm2026.2: disable JetBrains Backup and Sync (syncEnabled)"
    );
}

#[test]
fn never_launched_ides_are_reported_with_their_name() {
    let report = skipped_report(&ide("WebStorm2026.2", "WebStorm", Some("WebStorm")));
    assert_eq!(report.directory, "WebStorm2026.2");
    assert_eq!(report.display_name, "WebStorm");
    assert!(report.files.is_empty());
    assert_eq!(
        report.skipped.as_deref(),
        Some("never launched - recorded its factory defaults; start it once for it to take part")
    );
    let plain = ide_report(&ide("CLion2026.2", "CLion", None), vec![file_report("options/a.xml", 1)]);
    assert_eq!(plain.display_name, "");
    assert!(plain.skipped.is_none());
    assert_eq!(plain.files.len(), 1);
}

#[test]
fn a_pass_progressed_when_any_file_changed() {
    let quiet = vec![ide_report(&ide("A", "A", None), vec![file_report("x.xml", 0)])];
    assert!(!pass_progressed(&quiet));
    let busy = vec![
        ide_report(&ide("A", "A", None), vec![]),
        ide_report(&ide("B", "B", None), vec![file_report("x.xml", 1)]),
    ];
    assert!(pass_progressed(&busy));
}

#[test]
fn selection_keeps_every_ide_without_selectors() {
    let ides = vec![
        ide("IntelliJIdea2026.2", "IntelliJIdea", None),
        ide("PyCharm2026.2", "PyCharm", Some("PyCharm")),
        ide("CLion2026.2", "CLion", None),
    ];
    assert_eq!(selected_ides(&ides, &[], &[]), vec![0, 1, 2]);
    assert_eq!(selected_ides(&ides, &strings(&["PyCharm*", "CLion"]), &[None, None]), vec![1, 2]);
    assert_eq!(selected_ides(&ides, &strings(&["Nope"]), &[None]), Vec::<usize>::new());
}

#[test]
fn a_path_selector_picks_the_directory_it_resolves_to() {
    let ides = vec![
        ide("IntelliJIdea2026.2", "IntelliJIdea", None),
        ide("PyCharm2026.2", "PyCharm", Some("PyCharm")),
        ide("CLion2026.2", "CLion", None),
    ];
    let selectors = strings(&["/jb/CLion2026.2", "IntelliJ*"]);
    let resolved = vec![Some(vec![false, false, true]), None];
    assert_eq!(selected_ides(&ides, &selectors, &resolved), vec![0, 2]);
    let unresolved = vec![Some(vec![false, false, false]), None];
    assert_eq!(selected_ides(&ides, &selectors, &unresolved), vec![0]);
}

#[test]
fn later_passes_fold_into_one_listing_per_ide_and_file() {
    let mut report = vec![IdeReport {
        directory: "A".to_string(),
        display_name: String::new(),
        files: vec![file_report("z.xml", 1), file_report("m.xml", 1)],
        skipped: None,
    }];
    absorb(
        &mut report,
        vec![
            IdeReport {
                directory: "A".to_string(),
                display_name: String::new(),
                files: vec![file_report("m.xml", 2), file_report("b.xml", 1)],
                skipped: None,
            },
            IdeReport {
                directory: "B".to_string(),
                display_name: String::new(),
                files: vec![file_report("y.xml", 1)],
                skipped: None,
            },
        ],
    );
    assert_eq!(report.len(), 2);
    let paths: Vec<&str> = report[0].files.iter().map(|file| file.path.as_str()).collect();
    assert_eq!(paths, vec!["b.xml", "m.xml", "z.xml"]);
    assert_eq!(report[0].files[1].incoming.len(), 3, "changes accumulate");
    assert_eq!(report[1].directory, "B");
}

#[test]
fn preferring_neither_side_reports_and_changes_nothing() {
    let base = EDITOR;
    let local = EDITOR.replace(r#"value="4""#, r#"value="2""#);
    let store = EDITOR.replace(r#"value="4""#, r#"value="8""#);
    let step = reconcile_file_step(
        "options/editor.xml",
        Some(local.as_bytes()),
        Some(base.as_bytes()),
        Some(store.as_bytes()),
        &[],
        true,
        None,
        ConflictPolicy::Fail,
        false,
        true,
    );
    assert!(step.base.is_none() && step.store.is_none() && step.ide.is_none() && step.backup.is_none());
    assert_eq!(step.report.expect("reported").conflicts.len(), 1);

    let (content, report) = incoming_step(
        "shared/options/editor.xml",
        Some(base.as_bytes()),
        Some(local.as_bytes()),
        Some(store.as_bytes()),
        ConflictPolicy::Fail,
    )
    .expect("the conflict is reported");
    assert_eq!(content.as_deref(), Some(local.as_bytes()), "the store keeps its copy");
    assert_eq!(report.conflicts.len(), 1);
}

#[test]
fn passes_repeat_until_nothing_moves_at_most_four_times() {
    assert!(jbsync::sync::engine::another_pass(1, true));
    assert!(!jbsync::sync::engine::another_pass(1, false));
    assert!(!jbsync::sync::engine::another_pass(jbsync::sync::engine::MAX_PASSES, true));
    let mut options = jbsync::sync::engine::SyncOptions::default();
    options.policy = ConflictPolicy::Fail;
    assert!(jbsync::sync::engine::needs_rehearsal(&options));
    options.dry_run = true;
    assert!(!jbsync::sync::engine::needs_rehearsal(&options));
}
