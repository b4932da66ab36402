use jbsync::config::SyncConfig;
use jbsync::ide::{Ide, ProductMetadata};
use jbsync::settings::defaults::{relative_path, ProductDefaults};
use jbsync::settings::manifest::StoredManifest;
use jbsync::settings::roamable::{
    canonical_relative_path, discover, is_tombstone, learned_manifest, observed_manifest,
    settings_sync_manifest, target_relative_path, vm_options_name,
};
use jbsync::strmap::StrMap;

fn values(pairs: &[(&str, &str)]) -> StrMap {
    let mut map = StrMap::new();
    for (key, value) in pairs {
        map.insert((*key).to_string(), (*value).to_string());
    }
    map
}

fn ide_at(directory: &str, product: &str, vm_options: &str, files: &[&str]) -> Ide {
    Ide {
        product: product.to_string(),
        path: format!("/tmp/{directory}"),
        directory: directory.to_string(),
        pattern_index: 0,
        metadata: Some(ProductMetadata {
            vm_options_file: vm_options.to_string(),
            ..ProductMetadata::default()
        }),
        files: files.iter().map(|file| (*file).to_string()).collect(),
        settings_sync: Vec::new(),
        plugin_descriptors: Vec::new(),
        bundled_plugins_txt: None,
    }
}

#[test]
fn recording_is_idempotent() {
    let mut defaults = ProductDefaults::new("WebStorm", "262.1");
    assert!(defaults.record("options/editor.xml", values(&[("a", "1")])));
    assert!(!defaults.record("options/editor.xml", values(&[("a", "1")])));
    assert!(defaults.record("options/editor.xml", values(&[("a", "2")])));
}

#[test]
fn an_empty_capture_records_nothing() {
    let mut defaults = ProductDefaults::new("WebStorm", "262.1");
    assert!(!defaults.record("options/editor.xml", StrMap::new()));
    assert!(defaults.is_empty());
}

#[test]
fn looks_up_only_its_own_file() {
    let mut defaults = ProductDefaults::new("WebStorm", "262.1");
    defaults.record("options/editor.xml", values(&[("tabs", "4")]));
    assert_eq!(
        defaults.value("options/editor.xml", "tabs").map(String::as_str),
        Some("4")
    );
    assert_eq!(defaults.value("options/laf.xml", "tabs"), None);
    assert_eq!(defaults.value("options/editor.xml", "wrap"), None);
}

#[test]
fn product_names_stay_filename_safe() {
    assert_eq!(relative_path("IntelliJIdea"), "defaults/IntelliJIdea.toml");
    for hostile in ["../etc", "a/b", "..", "", "/"] {
        let path = relative_path(hostile);
        let tail = path.strip_prefix("defaults/").expect("stays in defaults/");
        assert!(!tail.contains('/'), "{hostile:?} produced {path:?}");
        assert!(
            !std::path::Path::new(tail)
                .components()
                .any(|part| part == std::path::Component::ParentDir),
            "{hostile:?} produced {path:?}"
        );
    }
}

#[test]
fn a_second_capture_of_another_file_keeps_the_first() {
    let mut defaults = ProductDefaults::new("WebStorm", "262.1");
    defaults.record("options/editor.xml", values(&[("tabs", "4")]));
    defaults.record("options/laf.xml", values(&[("theme", "Dark")]));
    assert_eq!(defaults.value("options/editor.xml", "tabs").map(String::as_str), Some("4"));
    assert_eq!(defaults.value("options/laf.xml", "theme").map(String::as_str), Some("Dark"));
    assert_eq!(defaults.files.len(), 2);
}

#[test]
fn absorbing_is_a_growing_union() {
    let mut manifest = StoredManifest::default();
    assert!(manifest.absorb(&["options/editor.xml".to_string()]));
    assert!(manifest.absorb(&["options/laf.xml".to_string()]));
    assert!(!manifest.absorb(&["options/editor.xml".to_string()]));
    assert_eq!(manifest.roamable, ["options/editor.xml", "options/laf.xml"]);
}

#[test]
fn an_ide_disappearing_does_not_shrink_the_record() {
    let mut manifest = StoredManifest::default();
    manifest.absorb(&["options/editor.xml".to_string()]);
    assert!(!manifest.absorb(&[]));
    assert_eq!(manifest.roamable, ["options/editor.xml"]);
}

#[test]
fn absorbing_sorts_and_removes_repeats() {
    let mut manifest = StoredManifest::default();
    manifest.absorb(&[
        "options/laf.xml".to_string(),
        "codestyles/**".to_string(),
        "options/laf.xml".to_string(),
    ]);
    assert_eq!(manifest.roamable, ["codestyles/**", "options/laf.xml"]);
    assert_eq!(manifest.version, 1);
}

#[test]
fn detects_tombstones() {
    assert!(is_tombstone("DELETED"));
    assert!(is_tombstone("DELETED\n"));
    assert!(!is_tombstone("<application />"));
}

#[test]
fn vm_options_are_stored_under_one_shared_name() {
    let ide = ide_at("PyCharm2026.2", "PyCharm", "pycharm.vmoptions", &[]);
    let config = SyncConfig::default();
    assert_eq!(
        canonical_relative_path("pycharm.vmoptions", &ide, &config),
        "idea.vmoptions"
    );
    assert_eq!(
        target_relative_path("idea.vmoptions", &ide, &config),
        "pycharm.vmoptions"
    );
}

#[test]
fn a_configured_vm_options_name_wins() {
    let ide = ide_at("PyCharm2026.2", "PyCharm", "pycharm.vmoptions", &[]);
    let mut config = SyncConfig::default();
    config
        .jetbrains
        .vmoptions_names
        .insert("PyCharm".to_string(), "custom.vmoptions".to_string());
    assert_eq!(vm_options_name(&ide, &config), "custom.vmoptions");
    let mut bare = ide_at("X2026.1", "X", "", &[]);
    bare.metadata = None;
    assert_eq!(vm_options_name(&bare, &SyncConfig::default()), "idea.vmoptions");
}

#[test]
fn discovery_applies_manifest_and_excludes() {
    let ide = ide_at(
        "IntelliJIdea2026.2",
        "IntelliJIdea",
        "idea.vmoptions",
        &[
            "options/editor.xml",
            "options/window.state.xml",
            "plugins/some-plugin/a.jar",
            "idea.key",
        ],
    );
    let found = discover(&ide, &SyncConfig::default(), &[]).unwrap();
    assert!(found.contains_key("options/editor.xml"));
    assert!(!found.contains_key("options/window.state.xml"), "machine-local");
    assert!(!found.keys_vec().iter().any(|key| key.starts_with("plugins/")));
    assert!(!found.contains_key("idea.key"), "credentials never sync");
}

#[test]
fn settings_for_new_projects_are_in_the_builtin_floor() {
    let ide = ide_at(
        "WebStorm2026.2",
        "WebStorm",
        "webstorm.vmoptions",
        &["options/project.default.xml"],
    );
    let manifest = learned_manifest(&[&ide], &["options/laf.xml".to_string()]);
    assert!(discover(&ide, &SyncConfig::default(), &manifest)
        .unwrap()
        .contains_key("options/project.default.xml"));
}

#[test]
fn explicit_include_overrides_the_manifest() {
    let ide = ide_at("IntelliJIdea2026.2", "IntelliJIdea", "idea.vmoptions", &["idea.vmoptions"]);
    let mut config = SyncConfig::default();
    assert!(
        !discover(&ide, &config, &[]).unwrap().contains_key("idea.vmoptions"),
        "not in the built-in manifest"
    );
    config.jetbrains.explicit_include = vec!["*.vmoptions".to_string()];
    assert!(discover(&ide, &config, &[]).unwrap().contains_key("idea.vmoptions"));
}

#[test]
fn the_manifest_is_pooled_across_ides() {
    let mut first = ide_at("IntelliJIdea2026.2", "IntelliJIdea", "idea.vmoptions", &[]);
    first.settings_sync = settings_sync_manifest(&[(
        "options/laf.xml".to_string(),
        Some("<application />".to_string()),
    )]);
    let second = ide_at(
        "WebStorm2026.2",
        "WebStorm",
        "webstorm.vmoptions",
        &["options/laf.xml", "options/other.xml"],
    );
    let manifest = learned_manifest(&[&first, &second], &[]);
    assert!(manifest.contains(&"options/laf.xml".to_string()));
    assert_eq!(
        observed_manifest(&[&first, &second]),
        vec!["options/laf.xml".to_string()],
        "only what an IDE proved is published back to the store"
    );
    let found = discover(&second, &SyncConfig::default(), &manifest).unwrap();
    assert!(found.contains_key("options/laf.xml"));
    assert!(!found.contains_key("options/other.xml"));
}

#[test]
fn without_any_learned_tree_the_builtin_list_applies() {
    let ide = ide_at("WebStorm2026.2", "WebStorm", "webstorm.vmoptions", &[]);
    let manifest = learned_manifest(&[&ide], &[]);
    assert!(manifest.contains(&"options/editor.xml".to_string()));
    assert!(
        !manifest.iter().any(|entry| entry == "options/other.xml"),
        "per-machine UI state must never be in the fallback list"
    );
}

#[test]
fn a_remembered_entry_widens_the_manifest() {
    let ide = ide_at("WebStorm2026.2", "WebStorm", "webstorm.vmoptions", &[]);
    let remembered = vec!["options/unusual.xml".to_string()];
    let manifest = learned_manifest(&[&ide], &remembered);
    assert!(manifest.contains(&"options/unusual.xml".to_string()));
    assert!(manifest.contains(&"options/editor.xml".to_string()));
    assert!(
        observed_manifest(&[&ide]).is_empty(),
        "this machine observed nothing, so it publishes nothing"
    );
}

#[test]
fn settings_sync_tombstones_are_not_adopted() {
    let manifest = settings_sync_manifest(&[
        ("options/terminal.xml".to_string(), Some("DELETED".to_string())),
        ("options/laf.xml".to_string(), Some("<application />".to_string())),
    ]);
    assert!(manifest.contains(&"options/laf.xml".to_string()));
    assert!(!manifest.contains(&"options/terminal.xml".to_string()));
}

#[test]
fn dot_prefixed_parts_of_a_settings_sync_tree_are_not_settings() {
    let manifest = settings_sync_manifest(&[
        (".metainfo/info.json".to_string(), None),
        ("options/.DS_Store".to_string(), None),
        ("keymaps/mine.xml".to_string(), None),
    ]);
    assert_eq!(manifest, vec!["keymaps/mine.xml".to_string()]);
}

#[test]
fn an_invalid_pattern_is_a_configuration_error() {
    let ide = ide_at("IntelliJIdea2026.2", "IntelliJIdea", "idea.vmoptions", &["a.xml"]);
    let mut config = SyncConfig::default();
    config.jetbrains.exclude = vec!["[".to_string()];
    assert!(matches!(
        discover(&ide, &config, &[]),
        Err(jbsync::error::JbsyncError::Configuration(_))
    ));
}

#[test]
fn a_stored_vm_options_file_lands_under_the_ides_own_name() {
    let ide = ide_at(
        "PyCharm2026.2",
        "PyCharm",
        "pycharm.vmoptions",
        &["pycharm.vmoptions"],
    );
    let mut config = SyncConfig::default();
    config.jetbrains.explicit_include = vec!["*.vmoptions".to_string()];
    let found = discover(&ide, &config, &[]).unwrap();
    assert_eq!(
        found.get("idea.vmoptions").map(String::as_str),
        Some("pycharm.vmoptions")
    );
}
