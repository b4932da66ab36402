use jbsync::config::{rule_already_present, with_rule_appended, PluginRule, RepoConfig};
use jbsync::paths::data_dir;

fn rule(id: &str, ide: &str, action: &str) -> PluginRule {
    PluginRule { id: id.to_string(), ide: ide.to_string(), action: action.to_string() }
}

/// The `[[plugins.rule]]` tables of a `sync.toml` text, as the library's rules.
fn parsed_rules(text: &str) -> Vec<PluginRule> {
    let table: toml::Table = text.parse().unwrap();
    let Some(plugins) = table.get("plugins").and_then(|value| value.as_table()) else {
        return Vec::new();
    };
    let Some(rules) = plugins.get("rule").and_then(|value| value.as_array()) else {
        return Vec::new();
    };
    rules
        .iter()
        .map(|entry| {
            let field = |key: &str| entry.get(key).and_then(|value| value.as_str()).unwrap_or_default().to_string();
            PluginRule { id: field("id"), ide: field("ide"), action: field("action") }
        })
        .collect()
}

#[test]
fn appending_a_rule_keeps_the_comments_around_it() {
    let rule = rule("com.falsepattern.zigbrains", "CLion*", "only");
    let text = with_rule_appended("# hand written\n[jetbrains]\nbackups = false\n", &rule);
    assert!(text.contains("# hand written"), "{text}");
    let table: toml::Table = text.parse().unwrap();
    assert_eq!(table["jetbrains"]["backups"].as_bool(), Some(false), "existing settings must survive");
    let rules = parsed_rules(&text);
    assert_eq!(rules.len(), 1);
    assert_eq!(rules[0].action, "only");
    assert_eq!(rules[0].ide, "CLion*");
}

#[test]
fn appending_the_same_rule_twice_changes_nothing() {
    let rule = rule("com.example.tool", "*", "deny");
    let once = with_rule_appended("", &rule);
    assert!(rule_already_present(&parsed_rules(&once), &rule));
}

#[test]
fn a_rule_written_into_a_missing_file_still_parses() {
    let rule = rule("com.example.tool", "RustRover*", "only");
    let rules = parsed_rules(&with_rule_appended("", &rule));
    assert_eq!(rules.len(), 1);
    assert_eq!(rules[0].id, "com.example.tool");
}

#[test]
fn data_dir_defaults_under_app_root() {
    let root = "/var/tmp/jbsync-home";
    let repo = RepoConfig::default();
    assert_eq!(data_dir(root, &repo), std::path::Path::new(root).join("data").to_string_lossy());
}

#[test]
fn data_dir_honors_explicit_override() {
    let repo = RepoConfig { path: Some("/custom/data".to_string()), ..RepoConfig::default() };
    assert_eq!(data_dir("/var/tmp/jbsync-home", &repo), "/custom/data");
}
