use jbsync::error::JbsyncError;
use jbsync::ide::{
    discover_ides, newest_metadata, resolve_product_metadata, select_ide, select_launch, Ide,
    LaunchEntry, ProductInfo, ProductMetadata,
};
use jbsync::config::PluginsConfig;
use jbsync::plugins::{install_args, launcher_for};

fn entries(names: &[&str]) -> Vec<(String, String)> {
    names
        .iter()
        .map(|name| (format!("/jb/{name}"), (*name).to_string()))
        .collect()
}

fn strings(items: &[&str]) -> Vec<String> {
    items.iter().map(|item| (*item).to_string()).collect()
}

fn metadata(directory: &str, build: &str, name: &str) -> ProductMetadata {
    ProductMetadata {
        data_directory_name: directory.to_string(),
        build_number: build.to_string(),
        name: name.to_string(),
        ..ProductMetadata::default()
    }
}

fn directories(ides: &[Ide]) -> Vec<&str> {
    ides.iter().map(|ide| ide.directory.as_str()).collect()
}

#[test]
fn discovery_orders_by_pattern_then_newest_first() {
    let found = discover_ides(
        &entries(&["PyCharm2025.3", "IntelliJIdea2025.3", "IntelliJIdea2026.1", "PyCharm2026.1", "notes"]),
        &strings(&["IntelliJIdea*", "*20??.*"]),
        &[metadata("PyCharm2026.1", "261.1", "PyCharm")],
    )
    .unwrap();
    assert_eq!(
        directories(&found),
        vec!["IntelliJIdea2026.1", "IntelliJIdea2025.3", "PyCharm2026.1", "PyCharm2025.3"]
    );
    assert_eq!(found[0].pattern_index, 0);
    assert_eq!(found[2].pattern_index, 1, "taken by the first pattern that matches");
    assert_eq!(found[0].product, "IntelliJIdea");
    assert_eq!(found[0].path, "/jb/IntelliJIdea2026.1");
    assert_eq!(found[2].metadata.as_ref().map(|m| m.name.as_str()), Some("PyCharm"));
    assert!(found[0].metadata.is_none());
    assert!(found[0].files.is_empty());
}

#[test]
fn an_invalid_ide_pattern_is_a_configuration_error() {
    let result = discover_ides(&entries(&["CLion2026.1"]), &strings(&["CLion[", "*"]), &[]);
    assert!(matches!(result, Err(JbsyncError::Configuration(_))));
}

#[test]
fn the_newest_build_of_a_product_wins() {
    let kept = newest_metadata(vec![
        metadata("IntelliJIdea2026.1", "261.10", "old"),
        metadata("PyCharm2026.1", "261.1", "py"),
        metadata("IntelliJIdea2026.1", "261.22", "new"),
        metadata("IntelliJIdea2026.1", "261.22", "same build"),
    ]);
    assert_eq!(kept.len(), 2);
    assert_eq!(kept[0].name, "new");
    assert_eq!(kept[1].name, "py");
}

#[test]
fn the_launch_entry_for_this_system_is_preferred() {
    let launch = vec![
        LaunchEntry { os: Some("Windows".to_string()), launcher_path: Some("bin/idea64.exe".to_string()), vm_options_file_path: Some("bin/idea64.exe.vmoptions".to_string()) },
        LaunchEntry { os: Some("Linux".to_string()), launcher_path: Some("bin/idea".to_string()), vm_options_file_path: Some("bin/idea64.vmoptions".to_string()) },
    ];
    assert_eq!(select_launch(&launch, "Linux"), Some(1));
    assert_eq!(select_launch(&launch, "macOS"), Some(0), "else the first");
    assert_eq!(select_launch(&[], "Linux"), None);
}

#[test]
fn product_info_resolves_to_metadata() {
    let info = ProductInfo {
        name: None,
        product_code: Some("IU".to_string()),
        data_directory_name: Some("IntelliJIdea2026.1".to_string()),
        build_number: Some("261.22".to_string()),
        version: None,
        bundled_plugins: vec!["org.toml.lang".to_string()],
        modules: Vec::new(),
        launch: vec![LaunchEntry {
            os: None,
            launcher_path: Some("bin/idea".to_string()),
            vm_options_file_path: Some("bin/idea64.vmoptions".to_string()),
        }],
    };
    let resolved = resolve_product_metadata(info, "/opt/idea", "Linux", "/opt/idea".to_string(), "/opt/idea/product-info.json".to_string()).unwrap();
    assert_eq!(resolved.name, "IntelliJIdea2026.1", "the data directory name stands in for a missing name");
    assert_eq!(resolved.product_code, "IU");
    assert_eq!(resolved.version, "");
    assert_eq!(resolved.vm_options_file, "idea64.vmoptions");
    assert_eq!(resolved.launcher, "/opt/idea/bin/idea");
    assert_eq!(resolved.bundled_plugins, vec!["org.toml.lang".to_string()]);

    let missing = ProductInfo {
        name: Some("X".to_string()),
        product_code: None,
        data_directory_name: None,
        build_number: None,
        version: None,
        bundled_plugins: Vec::new(),
        modules: Vec::new(),
        launch: Vec::new(),
    };
    assert!(resolve_product_metadata(missing, "/", "Linux", String::new(), String::new()).is_none());
}

#[test]
fn selecting_an_ide_names_the_available_ones_when_nothing_matches() {
    let found = discover_ides(&entries(&["CLion2026.1", "GoLand2026.1"]), &strings(&["*"]), &[]).unwrap();
    assert_eq!(select_ide(&found, "GoLand*", "source").unwrap().directory, "GoLand2026.1");
    match select_ide(&found, "Rider*", "target") {
        Err(JbsyncError::NoMatchingIde { role, selector, available }) => {
            assert_eq!(role, "target");
            assert_eq!(selector, "Rider*");
            assert_eq!(available, "CLion2026.1, GoLand2026.1");
        }
        other => panic!("unexpected {other:?}"),
    }
}

#[test]
fn a_launcher_is_configured_or_taken_from_the_installation() {
    let mut found = discover_ides(&entries(&["PyCharm2026.1"]), &strings(&["*"]), &[]).unwrap();
    let mut config = PluginsConfig::default();
    match launcher_for(&found[0], &config) {
        Err(JbsyncError::Configuration(message)) => assert_eq!(
            message,
            "no launcher known for PyCharm; set plugins.launchers.PyCharm in sync.toml"
        ),
        other => panic!("unexpected {other:?}"),
    }
    found[0].metadata = Some(ProductMetadata { launcher: "/opt/pycharm/bin/pycharm".to_string(), ..ProductMetadata::default() });
    assert_eq!(launcher_for(&found[0], &config).unwrap(), "/opt/pycharm/bin/pycharm");
    config.launchers.insert("PyCharm".to_string(), "pycharm".to_string());
    assert_eq!(launcher_for(&found[0], &config).unwrap(), "pycharm");
    assert_eq!(install_args("org.rust.lang"), vec!["installPlugins".to_string(), "org.rust.lang".to_string()]);
}
