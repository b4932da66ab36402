use jbsync::config::{PluginCapability, PluginRule, PluginsConfig, SyncConfig};
use jbsync::ide::{Ide, ProductMetadata};
use jbsync::plugins::{
    build_is_compatible, bundled_ids, capabilities, collect, compatibility, diagnose, installed,
    parse_descriptor, plan_installs, Manifest, Plugin,
};
use jbsync::strset::StrSet;

const MODERN: &str = r#"<idea-plugin>
  <id>com.example.tool</id>
  <name>Example Tool</name>
  <version>1.2.3</version>
  <idea-version since-build="243.0" until-build="252.*" />
  <depends>com.intellij.modules.python</depends>
  <depends optional="true">com.intellij.modules.json</depends>
  <incompatible-with>com.example.rival</incompatible-with>
  <content><module name="com.example.tool.extra" /></content>
</idea-plugin>"#;

fn ide_with(build: &str, product: &str, modules: &[&str]) -> Ide {
    Ide {
        product: product.to_string(),
        path: format!("/tmp/{product}2026.2"),
        directory: format!("{product}2026.2"),
        pattern_index: 0,
        metadata: Some(ProductMetadata {
            build_number: build.to_string(),
            modules: modules.iter().map(|value| (*value).to_string()).collect(),
            ..ProductMetadata::default()
        }),
        files: Vec::new(),
        settings_sync: Vec::new(),
        plugin_descriptors: Vec::new(),
        bundled_plugins_txt: None,
    }
}

fn rule(id: &str, ide: &str, action: &str) -> PluginRule {
    PluginRule {
        id: id.to_string(),
        ide: ide.to_string(),
        action: action.to_string(),
    }
}

fn verdict_for(plugin: &Plugin, ide: &Ide, config: &PluginsConfig) -> jbsync::plugins::Verdict {
    let capable = capabilities(ide, &[], config);
    compatibility(plugin, ide, &capable, &StrSet::new(), config)
}

#[test]
fn parses_a_modern_descriptor() {
    let plugin = parse_descriptor(MODERN, "fallback").unwrap();
    assert_eq!(plugin.id, "com.example.tool");
    assert_eq!(plugin.version, "1.2.3");
    assert_eq!(plugin.since_build, "243.0");
    assert_eq!(
        plugin.required_dependencies,
        vec!["com.intellij.modules.python"],
        "optional dependencies must not gate installation"
    );
    assert_eq!(plugin.incompatible_with, vec!["com.example.rival"]);
    assert_eq!(plugin.provided_modules, vec!["com.example.tool.extra"]);
    assert!(plugin.modular);
}

#[test]
fn falls_back_to_the_directory_name_without_an_id() {
    let plugin = parse_descriptor("<idea-plugin></idea-plugin>", "some-dir").unwrap();
    assert_eq!(plugin.id, "some-dir");
}

#[test]
fn build_ranges_are_respected_including_wildcards() {
    assert!(build_is_compatible("252.1", "243.0", "252.*").is_ok());
    assert!(build_is_compatible("242.0", "243.0", "").is_err());
    assert!(build_is_compatible("253.1", "243.0", "252.*").is_err());
    assert!(build_is_compatible("252.9999", "", "252.*").is_ok());
}

#[test]
fn a_python_plugin_is_refused_by_a_c_ide() {
    let plugin = parse_descriptor(MODERN, "x").unwrap();
    let clion = ide_with("252.1", "CLion", &["com.intellij.modules.clion"]);
    let verdict = verdict_for(&plugin, &clion, &PluginsConfig::default());
    assert!(!verdict.compatible);
    assert!(verdict.reason.contains("missing required"));
}

#[test]
fn the_same_plugin_is_accepted_by_pycharm() {
    let plugin = parse_descriptor(MODERN, "x").unwrap();
    let pycharm = ide_with("252.1", "PyCharm", &["com.intellij.modules.python"]);
    let verdict = verdict_for(&plugin, &pycharm, &PluginsConfig::default());
    assert!(verdict.compatible, "{}", verdict.reason);
}

#[test]
fn a_manual_rule_overrides_the_computed_verdict() {
    let plugin = parse_descriptor(MODERN, "x").unwrap();
    let clion = ide_with("252.1", "CLion", &[]);
    let config = PluginsConfig {
        rule: vec![rule("com.example.*", "CLion*", "allow")],
        ..PluginsConfig::default()
    };
    let verdict = verdict_for(&plugin, &clion, &config);
    assert!(verdict.compatible);
    assert_eq!(verdict.reason, "manual allow rule");
}

#[test]
fn an_only_rule_confines_a_plugin_to_one_product() {
    let plugin = parse_descriptor(MODERN, "x").unwrap();
    let config = PluginsConfig {
        rule: vec![rule("com.example.tool", "CLion*", "only")],
        ..PluginsConfig::default()
    };
    let clion = ide_with("252.1", "CLion", &["com.intellij.modules.python"]);
    let named = verdict_for(&plugin, &clion, &config);
    assert!(named.compatible, "{}", named.reason);
    let pycharm = ide_with("252.1", "PyCharm", &["com.intellij.modules.python"]);
    let other = verdict_for(&plugin, &pycharm, &config);
    assert!(!other.compatible);
    assert_eq!(other.reason, "only for CLion*");
}

#[test]
fn an_only_rule_beats_the_compatibility_check() {
    let plugin = parse_descriptor(MODERN, "x").unwrap();
    let clion = ide_with("252.1", "CLion", &["com.intellij.modules.clion"]);
    let config = PluginsConfig {
        rule: vec![rule("com.example.*", "CLion*", "only")],
        ..PluginsConfig::default()
    };
    let verdict = verdict_for(&plugin, &clion, &config);
    assert!(verdict.compatible, "{}", verdict.reason);
}

#[test]
fn an_only_rule_ignores_plugins_it_does_not_name() {
    let plugin = parse_descriptor(MODERN, "x").unwrap();
    let pycharm = ide_with("252.1", "PyCharm", &["com.intellij.modules.python"]);
    let config = PluginsConfig {
        rule: vec![rule("com.other.plugin", "CLion*", "only")],
        ..PluginsConfig::default()
    };
    let verdict = verdict_for(&plugin, &pycharm, &config);
    assert!(
        verdict.compatible,
        "a rule about another plugin must not deny this one: {}",
        verdict.reason
    );
}

#[test]
fn an_incompatible_declaration_blocks_installation() {
    let plugin = parse_descriptor(MODERN, "x").unwrap();
    let ide = ide_with(
        "252.1",
        "PyCharm",
        &["com.intellij.modules.python", "com.example.rival"],
    );
    let verdict = verdict_for(&plugin, &ide, &PluginsConfig::default());
    assert!(!verdict.compatible);
    assert!(verdict.reason.contains("incompatibility"));
}

#[test]
fn a_bundled_plugin_is_never_planned_for_installation() {
    let mut pycharm = ide_with("252.1", "PyCharm", &["com.intellij.modules.python"]);
    pycharm.metadata.as_mut().unwrap().bundled_plugins = vec!["com.example.tool".to_string()];
    let manifest = Manifest {
        version: 1,
        plugins: vec![parse_descriptor(MODERN, "x").unwrap()],
    };
    let actions = plan_installs(&[&pycharm], &manifest, &SyncConfig::default());
    assert!(actions.is_empty(), "bundled plugin should need no install: {actions:?}");
}

#[test]
fn a_capability_alone_does_not_suppress_an_install() {
    let pycharm = ide_with("252.1", "PyCharm", &["com.intellij.modules.python"]);
    let mut config = SyncConfig::default();
    config.plugins.capability = vec![PluginCapability {
        ide: "*".to_string(),
        add: vec!["com.example.tool".to_string()],
        remove: Vec::new(),
    }];
    let manifest = Manifest {
        version: 1,
        plugins: vec![parse_descriptor(MODERN, "x").unwrap()],
    };
    let actions = plan_installs(&[&pycharm], &manifest, &config);
    assert_eq!(actions.len(), 1, "{actions:?}");
    assert!(actions[0].install, "{}", actions[0].reason);
}

#[test]
fn removing_a_bundled_capability_forces_the_install_back() {
    let mut pycharm = ide_with("252.1", "PyCharm", &["com.intellij.modules.python"]);
    pycharm.metadata.as_mut().unwrap().bundled_plugins = vec!["com.example.tool".to_string()];
    let mut config = SyncConfig::default();
    config.plugins.capability = vec![PluginCapability {
        ide: "PyCharm*".to_string(),
        add: Vec::new(),
        remove: vec!["com.example.tool".to_string()],
    }];
    let manifest = Manifest {
        version: 1,
        plugins: vec![parse_descriptor(MODERN, "x").unwrap()],
    };
    let actions = plan_installs(&[&pycharm], &manifest, &config);
    assert_eq!(actions.len(), 1, "an explicit removal overrides bundling");
    assert_eq!(actions[0].plugin, "com.example.tool");
}

#[test]
fn a_genuinely_absent_plugin_is_still_planned() {
    let pycharm = ide_with("252.1", "PyCharm", &["com.intellij.modules.python"]);
    let manifest = Manifest {
        version: 1,
        plugins: vec![parse_descriptor(MODERN, "x").unwrap()],
    };
    let actions = plan_installs(&[&pycharm], &manifest, &SyncConfig::default());
    assert_eq!(actions.len(), 1);
    assert_eq!(actions[0].plugin, "com.example.tool");
    assert!(actions[0].install, "{}", actions[0].reason);
}

#[test]
fn an_installed_plugin_is_not_planned_again() {
    let mut pycharm = ide_with("252.1", "PyCharm", &["com.intellij.modules.python"]);
    pycharm.plugin_descriptors = vec![("tool".to_string(), MODERN.to_string())];
    let manifest = Manifest {
        version: 1,
        plugins: vec![parse_descriptor(MODERN, "x").unwrap()],
    };
    assert!(plan_installs(&[&pycharm], &manifest, &SyncConfig::default()).is_empty());
}

#[test]
fn plugin_sync_switched_off_plans_nothing() {
    let pycharm = ide_with("252.1", "PyCharm", &["com.intellij.modules.python"]);
    let manifest = Manifest {
        version: 1,
        plugins: vec![parse_descriptor(MODERN, "x").unwrap()],
    };
    let mut config = SyncConfig::default();
    config.plugins.enabled = false;
    assert!(plan_installs(&[&pycharm], &manifest, &config).is_empty());
}

#[test]
fn bundled_plugins_text_lists_one_id_per_line() {
    let mut ide = ide_with("252.1", "PyCharm", &[]);
    ide.bundled_plugins_txt = Some("com.a|1.0\n\n  com.b  \r\n".to_string());
    let ids = bundled_ids(&ide);
    assert!(ids.contains("com.a"));
    assert!(ids.contains("com.b"));
    assert_eq!(ids.len(), 2);
}

#[test]
fn collecting_records_every_product_a_plugin_was_seen_in() {
    let mut pycharm = ide_with("252.1", "PyCharm", &[]);
    pycharm.plugin_descriptors = vec![("tool".to_string(), MODERN.to_string())];
    let mut clion = ide_with("252.1", "CLion", &[]);
    clion.plugin_descriptors = vec![("tool".to_string(), MODERN.to_string())];
    let manifest = collect(&[&pycharm, &clion], &SyncConfig::default());
    assert_eq!(manifest.plugins.len(), 1);
    assert_eq!(manifest.plugins[0].source_products, vec!["PyCharm", "CLion"]);
}

#[test]
fn an_installed_plugin_missing_a_dependency_is_diagnosed() {
    let mut clion = ide_with("252.1", "CLion", &["com.intellij.modules.clion"]);
    clion.plugin_descriptors = vec![(
        "tool".to_string(),
        "<idea-plugin><id>t</id><depends>com.intellij.modules.python</depends><depends>org.other</depends></idea-plugin>"
            .to_string(),
    )];
    let broken = diagnose(&[&clion], &SyncConfig::default());
    assert_eq!(broken.len(), 1);
    assert_eq!(broken[0].plugin, "t");
    assert_eq!(broken[0].missing, vec!["com.intellij.modules.python", "org.other"]);
    assert_eq!(broken[0].installable, vec!["org.other"]);
    assert_eq!(installed(&clion, false).len(), 1);
}

#[test]
fn text_that_is_not_a_descriptor_yields_no_plugin() {
    assert!(parse_descriptor("<idea-plugin>", "x").is_none());
}
