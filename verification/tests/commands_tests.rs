use lrgex_restore::commands::{
    add_linked, autorestore_targets, context_menu_command, fmt_dur_secs, folder_display_name, leaf_of, on_off,
    parse_args, plan_restore, precheck_failure, restore_all_prompt, restore_report, restore_selection,
    update_rc_label, RestorePlan,
};
use lrgex_restore::config::{Config, Junction};
use lrgex_restore::pathutil::PathRoots;

fn roots() -> PathRoots {
    let known: Vec<Option<String>> = vec![
        Some(r"C:\Users\lrg4you\Saved Games".to_string()),
        Some(r"C:\Users\lrg4you\Documents".to_string()),
        Some(r"C:\Users\lrg4you\Desktop".to_string()),
        Some(r"C:\Users\lrg4you\Downloads".to_string()),
        Some(r"C:\Users\lrg4you\Pictures".to_string()),
        Some(r"C:\Users\lrg4you\Music".to_string()),
        Some(r"C:\Users\lrg4you\Videos".to_string()),
    ];
    let env: Vec<Option<String>> = vec![
        Some(r"C:\Users\lrg4you\AppData\Local".to_string()),
        Some(r"C:\Users\lrg4you\AppData\Roaming".to_string()),
        Some(r"C:\Users\lrg4you".to_string()),
        Some(r"C:\Program Files (x86)".to_string()),
        Some(r"C:\Program Files".to_string()),
        Some(r"C:\ProgramData".to_string()),
        Some(r"C:\Users\Public".to_string()),
    ];
    PathRoots::new(&known, &env)
}

fn junction(path: &str, auto: bool) -> Junction {
    Junction {
        source_path: path.to_string(),
        auto_restore: auto,
        created: "2026-01-01".to_string(),
        is_game: true,
        volume_id: Some("{abc}".to_string()),
    }
}

fn config(js: Vec<Junction>) -> Config {
    Config { junctions: js, sync_interval_minutes: 60, excluded_names: vec!["node_modules".to_string()], max_versions: 3 }
}

fn args(a: &[&str]) -> Vec<String> {
    a.iter().map(|s| s.to_string()).collect()
}

#[test]
fn parse_args_reads_each_flag() {
    let m = parse_args(&args(&["app.exe", "-sync"]));
    assert!(m.sync && !m.auto_restore && m.link_path.is_empty());
    let m = parse_args(&args(&["app.exe", "-autorestore", "-link", r"D:\Saves"]));
    assert!(!m.sync && m.auto_restore);
    assert_eq!(m.link_path, r"D:\Saves");
}

#[test]
fn parse_args_ignores_program_name_and_unknown_flags() {
    let m = parse_args(&args(&["-sync", "-x", "extra"]));
    assert!(!m.sync && !m.auto_restore && m.link_path.is_empty());
}

#[test]
fn parse_args_trailing_link_without_path_is_ignored() {
    let m = parse_args(&args(&["app.exe", "-link"]));
    assert!(m.link_path.is_empty());
    let m = parse_args(&args(&["app.exe", "-link", "A", "-link", "B"]));
    assert_eq!(m.link_path, "B");
    let m = parse_args(&args(&["app.exe", "-link", "-sync"]));
    assert_eq!(m.link_path, "-sync");
    assert!(!m.sync);
}

#[test]
fn add_linked_replaces_same_folder_and_appends() {
    let r = roots();
    let cfg = config(vec![
        junction(r"C:\Users\lrg4you\Documents\Game", false),
        junction(r"D:\Other", false),
    ]);
    let out = add_linked(&cfg, r"c:\users\LRG4YOU\documents\game\", "now", &r);
    assert_eq!(out.junctions.len(), 2);
    assert_eq!(out.junctions[0].source_path, r"D:\Other");
    assert_eq!(out.junctions[1].source_path, r"c:\users\LRG4YOU\documents\game\");
    assert!(out.junctions[1].auto_restore);
    assert!(!out.junctions[1].is_game);
    assert_eq!(out.junctions[1].created, "now");
    assert!(out.junctions[1].volume_id.is_none());
    assert_eq!(out.sync_interval_minutes, 60);
    assert_eq!(out.max_versions, 3);
    assert_eq!(out.excluded_names, vec!["node_modules".to_string()]);
}

#[test]
fn add_linked_new_folder_is_appended() {
    let r = roots();
    let cfg = config(vec![junction(r"D:\A", true)]);
    let out = add_linked(&cfg, r"D:\B", "t", &r);
    assert_eq!(out.junctions.len(), 2);
    assert_eq!(out.junctions[0].source_path, r"D:\A");
    assert!(out.junctions[0].auto_restore);
    assert_eq!(out.junctions[1].source_path, r"D:\B");
}

#[test]
fn autorestore_picks_missing_auto_folders() {
    let cfg = config(vec![junction("A", true), junction("B", false), junction("C", true), junction("D", true)]);
    let t = autorestore_targets(&cfg, &vec![true, true, false, true]);
    assert_eq!(t, vec![0, 3]);
}

#[test]
fn leaf_and_display_names() {
    assert_eq!(leaf_of(r"C:\Games\Hermes"), "Hermes");
    assert_eq!(leaf_of(r"C:\"), "");
    assert_eq!(folder_display_name(r"D:\Saves\Slot1"), "Slot1");
    assert_eq!(folder_display_name(r"D:\"), r"D:\");
}

#[test]
fn restore_selection_by_index() {
    let cfg = config(vec![junction("A", true), junction("B", false)]);
    assert_eq!(restore_selection(1, &cfg), Some("B".to_string()));
    assert_eq!(restore_selection(-1, &cfg), None);
    assert_eq!(restore_selection(2, &cfg), None);
    assert_eq!(restore_all_prompt(2), "No folder selected.\n\nRestore ALL 2 folders?");
}

#[test]
fn plan_restore_without_failures_restores_all() {
    let paths = vec![r"C:\A".to_string(), r"C:\B".to_string()];
    match plan_restore(&paths, &vec![]) {
        RestorePlan::Go { paths: p, skipped } => {
            assert_eq!(p, paths);
            assert!(skipped.is_empty());
        }
        RestorePlan::AllFailed(_) => panic!("expected a restore"),
    }
}

#[test]
fn plan_restore_all_failed_aborts() {
    let paths = vec![r"C:\A".to_string()];
    let failures = vec![("A".to_string(), "backup missing".to_string())];
    match plan_restore(&paths, &failures) {
        RestorePlan::AllFailed(m) => {
            assert_eq!(m, "RESTORE ABORTED — all 1 folder(s) failed pre-check:\n\n  A: backup missing")
        }
        RestorePlan::Go { .. } => panic!("expected an abort"),
    }
}

#[test]
fn plan_restore_partial_skips_failed_leaves() {
    let paths = vec![r"C:\A".to_string(), r"C:\B".to_string(), r"D:\C".to_string()];
    let failures = vec![("B".to_string(), "backup missing".to_string())];
    match plan_restore(&paths, &failures) {
        RestorePlan::Go { paths: p, skipped } => {
            assert_eq!(p, vec![r"C:\A".to_string(), r"D:\C".to_string()]);
            assert_eq!(skipped, "B: backup missing");
        }
        RestorePlan::AllFailed(_) => panic!("expected a partial restore"),
    }
}

#[test]
fn restore_report_forms() {
    assert_eq!(restore_report(2, 2, "", &vec![]), ("Restored 2 folder(s).".to_string(), false));
    assert_eq!(
        restore_report(1, 2, "B: backup missing", &vec![]),
        ("Restored 1 of 2.\n\nSkipped:\nB: backup missing".to_string(), false)
    );
    assert_eq!(
        restore_report(1, 3, "", &vec!["X".to_string(), "Y".to_string()]),
        ("Restored 1 of 3.\n\nFailed: X, Y".to_string(), true)
    );
}

#[test]
fn precheck_failure_reasons() {
    assert_eq!(precheck_failure(false, false, false), Some("backup missing".to_string()));
    assert_eq!(precheck_failure(true, true, false), Some("backup archive is corrupt or incomplete".to_string()));
    assert_eq!(precheck_failure(true, true, true), None);
    assert_eq!(precheck_failure(true, false, false), None);
}

#[test]
fn window_labels() {
    assert_eq!(update_rc_label(true), "Right-Click Sync: ON   (click to disable)");
    assert_eq!(update_rc_label(false), "Right-Click Sync: OFF   (click to enable)");
    assert_eq!(context_menu_command(r"C:\App\x.exe"), r#""C:\App\x.exe" -link "%V""#);
    assert_eq!(fmt_dur_secs(125), "2m 5s");
    assert_eq!(fmt_dur_secs(59), "59s");
    assert_eq!(fmt_dur_secs(60), "1m 0s");
    assert_eq!(on_off(true), "ON");
    assert_eq!(on_off(false), "OFF");
}
