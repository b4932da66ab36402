use jbsync::settings::prune::Removal;
use jbsync::style::Style;
use jbsync::sync::merge::{Change, Conflict, Side};
use jbsync::sync::report::{render, render_with, FileReport, IdeReport, SyncReport};

fn change(setting: &str, from: Option<&str>, to: Option<&str>) -> Change {
    Change {
        path: setting.to_string(),
        setting: setting.to_string(),
        from: from.map(str::to_string),
        to: to.map(str::to_string),
    }
}

#[test]
fn an_idle_sync_says_so_plainly() {
    let report = SyncReport {
        machine: "mac".to_string(),
        backend: "git (local only)".to_string(),
        ..SyncReport::default()
    };
    let rendered = render(&report, false);
    assert!(rendered.contains("Everything is already in sync."));
}

#[test]
fn settings_are_named_per_ide_with_direction() {
    let report = SyncReport {
        machine: "mac".to_string(),
        backend: "git".to_string(),
        ides: vec![IdeReport {
            directory: "IntelliJIdea2026.2".to_string(),
            display_name: "IntelliJ IDEA".to_string(),
            skipped: None,
            files: vec![FileReport {
                path: "options/editor.xml".to_string(),
                incoming: vec![change("Editor/fontSize", None, Some("14"))],
                outgoing: vec![change("Editor/tabs", Some("4"), Some("2"))],
                ..FileReport::default()
            }],
        }],
        ..SyncReport::default()
    };
    let rendered = render(&report, false);
    assert!(rendered.contains("IntelliJIdea2026.2"));
    assert!(rendered.contains("options/editor.xml"));
    assert!(rendered.contains("to IDE    Editor/fontSize"));
    assert!(rendered.contains("to store  Editor/tabs"));
    assert!(rendered.contains("4 -> 2"));
    assert!(rendered.contains("1 setting into IDEs"));
    assert!(rendered.contains("1 setting into the store"));
}

#[test]
fn conflicts_state_both_values_and_the_resolution() {
    let report = SyncReport {
        ides: vec![IdeReport {
            directory: "CLion2026.2".to_string(),
            files: vec![FileReport {
                path: "options/editor.xml".to_string(),
                conflicts: vec![Conflict {
                    setting: "Editor/tabs".to_string(),
                    local: Some("2".to_string()),
                    remote: Some("8".to_string()),
                    resolved_to: Some(Side::Local),
                }],
                ..FileReport::default()
            }],
            ..IdeReport::default()
        }],
        ..SyncReport::default()
    };
    let rendered = render(&report, false);
    assert!(rendered.contains("conflict  Editor/tabs"));
    assert!(rendered.contains("this machine   2"));
    assert!(rendered.contains("other machine  8"));
    assert!(rendered.contains("<- kept"));
    assert!(rendered.contains("1 conflict resolved in favour of this machine"));
    assert!(rendered.contains("--prefer remote"));
}

#[test]
fn pruned_settings_appear_only_when_verbose() {
    let report = SyncReport {
        ides: vec![IdeReport {
            directory: "PyCharm2026.2".to_string(),
            files: vec![FileReport {
                path: "options/ide.general.xml".to_string(),
                pruned: vec![Removal {
                    path: "Registry/ide.experimental.ui".to_string(),
                    reason: "registry key set by the IDE, not the user".to_string(),
                }],
                ..FileReport::default()
            }],
            ..IdeReport::default()
        }],
        ..SyncReport::default()
    };
    assert!(!render(&report, false).contains("ide.experimental.ui"));
    let verbose = render(&report, true);
    assert!(verbose.contains("dropped   Registry/ide.experimental.ui"));
    assert!(verbose.contains("registry key set by the IDE"));
}

#[test]
fn bulk_file_additions_are_counted_not_listed() {
    let whole = |to: Option<&str>| Change {
        path: String::new(),
        setting: "(file added)".to_string(),
        from: None,
        to: to.map(str::to_string),
    };
    let bulk: Vec<FileReport> = (0..12)
        .map(|index| FileReport {
            path: format!("options/file{index}.xml"),
            outgoing: vec![whole(Some("updated locally"))],
            ..FileReport::default()
        })
        .collect();
    let report = SyncReport {
        ides: vec![IdeReport {
            directory: "PyCharm2026.2".to_string(),
            files: bulk,
            ..IdeReport::default()
        }],
        ..SyncReport::default()
    };
    let rendered = render(&report, false);
    assert!(rendered.contains("12 files published from this IDE"));
    assert!(
        !rendered.contains("options/file3.xml"),
        "individual paths are noise at this volume: {rendered}"
    );
    assert!(rendered.contains("12 files into the store"));
    assert!(!rendered.contains("setting"));
    assert!(render(&report, true).contains("options/file3.xml"));
}

#[test]
fn a_whole_file_change_is_described_not_tabulated() {
    let report = SyncReport {
        ides: vec![IdeReport {
            directory: "CLion2026.2".to_string(),
            files: vec![FileReport {
                path: "options/laf.xml".to_string(),
                incoming: vec![change("LafManager/themeId", Some("Light"), Some("Dark"))],
                outgoing: vec![Change {
                    path: String::new(),
                    setting: "(file added)".to_string(),
                    from: None,
                    to: Some("updated locally".to_string()),
                }],
                ..FileReport::default()
            }],
            ..IdeReport::default()
        }],
        ..SyncReport::default()
    };
    let rendered = render(&report, false);
    assert!(rendered.contains("the whole file, new here"), "{rendered}");
    assert!(!rendered.contains("(file added)"), "{rendered}");
    assert!(!rendered.contains("updated locally"), "{rendered}");
    assert!(rendered.contains("to IDE    LafManager/themeId"));
}

#[test]
fn a_dry_run_promises_nothing_was_written() {
    let report = SyncReport {
        dry_run: true,
        ides: vec![IdeReport {
            directory: "CLion2026.2".to_string(),
            files: vec![FileReport {
                path: "options/laf.xml".to_string(),
                incoming: vec![change("LafManager/theme", None, Some("Dark"))],
                ..FileReport::default()
            }],
            ..IdeReport::default()
        }],
        ..SyncReport::default()
    };
    let rendered = render(&report, false);
    assert!(rendered.contains("dry run"));
    assert!(rendered.contains("Nothing was written."));
}

#[test]
fn the_idle_report_is_exactly_three_lines() {
    let report = SyncReport {
        machine: "mac".to_string(),
        backend: "local".to_string(),
        ..SyncReport::default()
    };
    assert_eq!(
        render(&report, false),
        "mac  ·  local\n\nEverything is already in sync.\n"
    );
}

#[test]
fn a_skipped_ide_is_news_with_its_reason() {
    let report = SyncReport {
        ides: vec![IdeReport {
            directory: "WebStorm2026.2".to_string(),
            skipped: Some("never launched".to_string()),
            ..IdeReport::default()
        }],
        ..SyncReport::default()
    };
    assert!(!report.is_empty());
    assert!(render(&report, false).contains("  skipped: never launched"));
}

#[test]
fn a_committed_run_says_what_it_committed() {
    let report = SyncReport {
        published: Some("3 file(s) at abcdef12".to_string()),
        plugins: vec!["+ com.example (1.0)".to_string()],
        ..SyncReport::default()
    };
    let rendered = render(&report, false);
    assert!(rendered.contains("\nPlugins\n  + com.example (1.0)\n"));
    assert!(rendered.ends_with("Committed: 3 file(s) at abcdef12\n"));
}

#[test]
fn colour_wraps_the_header_when_enabled() {
    let report = SyncReport {
        machine: "m".to_string(),
        backend: "b".to_string(),
        ..SyncReport::default()
    };
    assert!(render_with(&report, false, Style::new(true)).starts_with("\u{1b}[2mm  ·  b\u{1b}[0m\n"));
}

#[test]
fn conflicts_are_counted_across_every_ide() {
    let conflict = || Conflict {
        setting: "x".to_string(),
        local: None,
        remote: Some("1".to_string()),
        resolved_to: None,
    };
    let file = || FileReport {
        path: "a.xml".to_string(),
        conflicts: vec![conflict()],
        ..FileReport::default()
    };
    let report = SyncReport {
        from_remote: vec![file()],
        ides: vec![
            IdeReport { files: vec![file(), file()], ..IdeReport::default() },
            IdeReport { files: vec![file()], ..IdeReport::default() },
        ],
        ..SyncReport::default()
    };
    assert_eq!(report.conflicts(), 4);
    assert!(render(&report, false).contains("unresolved"));
}

#[test]
fn every_report_of_ordinary_size_can_be_rendered() {
    let report = jbsync::sync::report::SyncReport::default();
    assert!(jbsync::sync::report::fits_in_usize(&report));
}

#[test]
fn the_closing_line_names_the_side_that_won() {
    let conflict = |side: Option<Side>| Conflict {
        setting: "LafManager/laf/themeId".to_string(),
        local: Some("Islands Dark".to_string()),
        remote: Some("Light".to_string()),
        resolved_to: side,
    };
    let report_with = |sides: Vec<Option<Side>>| SyncReport {
        machine: "mac".to_string(),
        backend: "git".to_string(),
        from_remote: vec![FileReport {
            path: "options/laf.xml".to_string(),
            conflicts: sides.into_iter().map(conflict).collect(),
            ..FileReport::default()
        }],
        ..SyncReport::default()
    };

    let remote = render(&report_with(vec![Some(Side::Remote), Some(Side::Remote)]), false);
    assert!(remote.contains("2 conflicts resolved in favour of the other machine. Re-run with --prefer local to flip the choice."));
    assert!(!remote.contains("in favour of this machine"));

    let open = render(&report_with(vec![None]), false);
    assert!(open.contains("1 conflict left unresolved"));
    assert!(!open.contains("in favour of"));

    let mixed = render(&report_with(vec![Some(Side::Local), None]), false);
    assert!(mixed.contains("1 conflict resolved in favour of this machine."));
    assert!(mixed.contains("1 conflict left unresolved"));
}
