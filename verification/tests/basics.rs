use jbsync::config::{sanitize_machine_id, SyncConfig};
use jbsync::ide::{digit_runs, product_name};
use jbsync::progress::Progress;
use jbsync::style::Style;
use jbsync::sync::engine::{display_path, short, timestamp_at, Prefer};
use jbsync::sync::merge::ConflictPolicy;
use jbsync::config::RepoConfig;
use jbsync::config::machine_id_from;
use jbsync::config::{rule_already_present, with_rule_appended, PluginRule};
use jbsync::error::JbsyncError;
use jbsync::paths::{data_dir, expired_backups, is_backup_run_name, machine_config_relative, StateFile};
use jbsync::settings::defaults::ProductDefaults;

#[test]
fn sanitizes_unsafe_characters() {
    assert_eq!(sanitize_machine_id("My Laptop!"), "My-Laptop");
    assert_eq!(sanitize_machine_id(""), "machine");
    assert_eq!(sanitize_machine_id("---"), "machine");
}

#[test]
fn default_sync_config_matches_engine_defaults() {
    let config = SyncConfig::default();
    assert_eq!(config.jetbrains.ides, vec!["*20??.*"]);
    assert!(config.jetbrains.backups);
    assert!(config.jetbrains.use_default_excludes);
    assert!(config.plugins.enabled);
}

#[test]
fn digit_runs_extracts_tuple() {
    assert_eq!(digit_runs("2024.3.1"), vec![2024, 3, 1]);
    assert_eq!(digit_runs("no-digits"), vec![0]);
}

#[test]
fn product_name_strips_trailing_digits() {
    assert_eq!(product_name("IntelliJIdea2024.3"), "IntelliJIdea");
    assert_eq!(product_name("PyCharm2023.1"), "PyCharm");
}

#[test]
fn digit_runs_orders_newer_versions_first() {
    let mut versions = vec![
        "IntelliJIdea2023.1",
        "IntelliJIdea2024.3",
        "IntelliJIdea2024.1",
    ];
    versions.sort_by_key(|name| std::cmp::Reverse(digit_runs(name)));
    assert_eq!(
        versions,
        vec!["IntelliJIdea2024.3", "IntelliJIdea2024.1", "IntelliJIdea2023.1"]
    );
}

#[test]
fn a_name_without_letters_is_its_own_product() {
    assert_eq!(product_name("2024.1"), "2024.1");
    assert_eq!(digit_runs("99999999999999999999.1"), vec![0, 1]);
}

#[test]
fn plain_styling_adds_nothing() {
    let style = Style::plain();
    assert_eq!(style.bold("hi"), "hi");
    assert_eq!(style.dim("hi"), "hi");
    assert_eq!(style.cyan("hi"), "hi");
}

#[test]
fn enabled_styling_wraps_and_resets() {
    let style = Style::new(true);
    assert_eq!(style.bold("hi"), "\u{1b}[1mhi\u{1b}[0m");
    assert_eq!(style.green("hi"), "\u{1b}[32mhi\u{1b}[0m");
}

#[test]
fn a_shorter_message_erases_the_longer_one_before_it() {
    let mut progress = Progress::silent();
    assert_eq!(progress.frame("hello"), "\rhello");
    assert_eq!(progress.width(), 5);
    assert_eq!(progress.frame("hi"), "\rhi   ");
    assert_eq!(progress.width(), 2);
}

#[test]
fn a_silent_progress_never_reports_itself_as_writing() {
    let progress = Progress::silent();
    assert!(!progress.is_enabled());
    assert_eq!(progress.width(), 0);
}

#[test]
fn timestamps_are_sortable_and_well_formed() {
    let seconds = std::time::SystemTime::now()
        .duration_since(std::time::UNIX_EPOCH)
        .map(|elapsed| elapsed.as_secs())
        .unwrap_or_default();
    let stamp = timestamp_at(seconds);
    assert_eq!(stamp.len(), 15, "YYYYMMDD-HHMMSS");
    assert_eq!(stamp.as_bytes()[8], b'-');
    assert!(stamp.starts_with("20"));
    assert!(
        stamp[..8].chars().all(|c| c.is_ascii_digit()),
        "date part is numeric"
    );
}

#[test]
fn known_instants_have_known_stamps() {
    assert_eq!(timestamp_at(0), "19700101-000000");
    assert_eq!(timestamp_at(951_782_400), "20000229-000000");
    assert_eq!(timestamp_at(1_700_000_000), "20231114-221320");
}

#[test]
fn display_path_hides_the_store_prefix() {
    assert_eq!(display_path("shared/options/laf.xml"), "options/laf.xml");
    assert_eq!(display_path("sync.toml"), "sync.toml");
}

#[test]
fn a_cursor_is_shortened_to_eight_characters() {
    assert_eq!(short("0123456789abcdef"), "01234567");
    assert_eq!(short("abc"), "abc");
}

#[test]
fn prefer_maps_onto_the_merge_policy() {
    assert_eq!(ConflictPolicy::from(Prefer::Local), ConflictPolicy::PreferLocal);
    assert_eq!(ConflictPolicy::from(Prefer::Remote), ConflictPolicy::PreferRemote);
    assert_eq!(ConflictPolicy::from(Prefer::Neither), ConflictPolicy::Fail);
}

#[test]
fn machine_ids_come_from_config_environment_or_host() {
    assert_eq!(machine_id_from(Some("My Laptop"), Some("env"), Some("host")), "My-Laptop");
    assert_eq!(machine_id_from(None, Some("ci runner"), Some("host")), "ci-runner");
    assert_eq!(machine_id_from(None, None, Some("mac.local.lan")), "mac");
    assert_eq!(machine_id_from(None, None, None), "machine");
}

#[test]
fn appended_rules_keep_what_was_written() {
    let rule = PluginRule { id: "org.\"x\"".to_string(), ide: "*".to_string(), action: "deny".to_string() };
    assert_eq!(
        with_rule_appended("# mine\n[jetbrains]\nbackups = true", &rule),
        "# mine\n[jetbrains]\nbackups = true\n\n[[plugins.rule]]\nid = \"org.\\\"x\\\"\"\nide = \"*\"\naction = \"deny\"\n"
    );
    assert_eq!(
        with_rule_appended("", &rule),
        "[[plugins.rule]]\nid = \"org.\\\"x\\\"\"\nide = \"*\"\naction = \"deny\"\n"
    );
    assert!(rule_already_present(&[rule.clone()], &rule));
    let other = PluginRule { action: "allow".to_string(), ..rule.clone() };
    assert!(!rule_already_present(&[other], &rule));
}

#[test]
fn errors_read_as_sentences() {
    assert_eq!(JbsyncError::Git("push failed".to_string()).message(), "git error: push failed");
    assert_eq!(
        JbsyncError::NoMatchingIde {
            role: "source".to_string(),
            selector: "X*".to_string(),
            available: "A, B".to_string()
        }
        .message(),
        "no source matches \"X*\". Available IDEs: A, B"
    );
    assert_eq!(JbsyncError::Other("plain".to_string()).message(), "plain");
}

#[test]
fn the_store_lives_where_configured() {
    let custom = RepoConfig { path: Some("/custom/data".to_string()), ..RepoConfig::default() };
    assert_eq!(data_dir("/home/me/.jbsync", &custom), "/custom/data");
    assert_eq!(data_dir("/home/me/.jbsync", &RepoConfig::default()), "/home/me/.jbsync/data");
    assert_eq!(machine_config_relative("mac"), "machines/mac.toml");
    let state = StateFile::default();
    assert_eq!(state.version, 1);
    assert!(state.files.is_empty());
}

#[test]
fn never_launched_installs_teach_their_defaults() {
    let mut defaults = ProductDefaults::new("WebStorm", "253.1");
    let shipped = r#"<application>
  <component name="Editor">
    <option name="tabs" value="4" />
  </component>
</application>"#;
    assert!(defaults.capture("options/editor.xml", shipped));
    assert!(!defaults.capture("options/editor.xml", shipped), "recording twice changes nothing");
    assert_eq!(
        defaults
            .value("options/editor.xml", "component[name=Editor]/option[name=tabs]/@value")
            .map(String::as_str),
        Some("4")
    );
    assert!(!defaults.capture("options/broken.xml", "<not xml"));
}

#[test]
fn only_the_ten_most_recent_backup_runs_are_kept() {
    let mut names: Vec<String> = (1..=12).map(|day| format!("202601{day:02}-120000")).collect();
    names.push("notes".to_string());
    names.push("20260101-12000".to_string());
    assert_eq!(expired_backups(&names), vec!["20260101-120000".to_string(), "20260102-120000".to_string()]);
    assert!(expired_backups(&names[..10]).is_empty());
    assert!(is_backup_run_name("20260729-084512"));
    assert!(!is_backup_run_name("2026072908-4512"));
}

#[test]
fn a_pattern_too_deeply_nested_to_compile_matches_nothing() {
    let pattern = format!("{}a{}", "{".repeat(300), "}".repeat(300));
    assert!(!jbsync::glob::matches_any(&[pattern], "a"));
    assert!(jbsync::glob::matches_any(&["*.xml".to_string()], "editor.xml"));
}
