use lrgex_restore::config::{Config, Junction};
use lrgex_restore::pathutil::PathRoots;
use lrgex_restore::window::{
    add_folder, add_new_folder, age_text, cleanup_script, close_warning, confirms_unlink, exclusions_text,
    export_config, health_entry_tail, health_report, input_error_text, interval_prompt, interval_result,
    log_display, max_versions_result, no_backup_line, parse_count_input, parse_exclusions, percent_done,
    remove_folder, rightclick_message, snapshot_label, sync_died, sync_stale, toggle_auto_restore,
    toggle_status_text, versions_prompt, InputError,
};

fn win_roots() -> PathRoots {
    let known: Vec<Option<String>> = vec![
        Some(r"C:\Users\lrg4you\Saved Games".to_string()),
        Some(r"C:\Users\lrg4you\Documents".to_string()),
        Some(r"C:\Users\lrg4you\Desktop".to_string()),
        Some(r"C:\Users\lrg4you\Downloads".to_string()),
        Some(r"C:\Users\lrg4you\Pictures".to_string()),
        Some(r"C:\Users\lrg4you\Music".to_string()),
        Some(r"C:\Users\lrg4you\Videos".to_string()),
    ];
    let env: Vec<Option<String>> = vec![
        Some(r"C:\Users\lrg4you\AppData\Local".to_string()),
        Some(r"C:\Users\lrg4you\AppData\Roaming".to_string()),
        Some(r"C:\Users\lrg4you".to_string()),
        Some(r"C:\Program Files (x86)".to_string()),
        Some(r"C:\Program Files".to_string()),
        Some(r"C:\ProgramData".to_string()),
        Some(r"C:\Users\Public".to_string()),
    ];
    PathRoots::new(&known, &env)
}

fn junction(path: &str, auto: bool) -> Junction {
    Junction {
        source_path: path.to_string(),
        auto_restore: auto,
        created: "2026-01-01".to_string(),
        is_game: false,
        volume_id: None,
    }
}

fn sample_config() -> Config {
    Config {
        junctions: vec![junction(r"D:\Games\Saves", true), junction(r"C:\Users\lrg4you\Documents\Notes", false)],
        sync_interval_minutes: 60,
        excluded_names: vec!["node_modules".to_string()],
        max_versions: 5,
    }
}

#[test]
fn count_input_accepts_trimmed_positive_numbers() {
    assert_eq!(parse_count_input(" 15 "), Ok(15));
    assert_eq!(parse_count_input("1"), Ok(1));
}

#[test]
fn count_input_refuses_zero_negative_and_text() {
    assert_eq!(parse_count_input("0"), Err(InputError::TooSmall));
    assert_eq!(parse_count_input("-5"), Err(InputError::TooSmall));
    assert_eq!(parse_count_input("x"), Err(InputError::NotNumber));
    assert_eq!(parse_count_input(""), Err(InputError::NotNumber));
    assert_eq!(parse_count_input("99999999999"), Err(InputError::NotNumber));
}

#[test]
fn input_error_texts() {
    assert_eq!(input_error_text(InputError::NotNumber), "Enter a whole number.");
    assert_eq!(input_error_text(InputError::TooSmall), "Enter 1 or more.");
}

#[test]
fn prompts_and_results() {
    assert_eq!(interval_prompt(60), "Current: 60 min. Enter new interval (1+):");
    assert_eq!(versions_prompt(5), "Current: 5. Enter new limit (1+):");
    assert_eq!(interval_result(30, true, true), "Set to 30 minute(s).");
    assert_eq!(
        interval_result(30, true, false),
        "Config could not be saved (disk full or OneDrive lock?) — interval NOT changed."
    );
    assert_eq!(interval_result(30, false, true), "Failed to register the scheduled task — interval NOT applied.");
    assert_eq!(max_versions_result(3), "Will keep last 3 version(s).");
}

#[test]
fn exclusions_are_trimmed_and_empty_ones_dropped() {
    assert_eq!(parse_exclusions("a, ,b"), vec!["a".to_string(), "b".to_string()]);
    assert_eq!(parse_exclusions("  node_modules ,  .git  "), vec!["node_modules".to_string(), ".git".to_string()]);
    assert!(parse_exclusions("   ").is_empty());
    assert!(parse_exclusions(" , , ").is_empty());
}

#[test]
fn exclusions_confirmation() {
    assert_eq!(exclusions_text(&vec![]), "Exclusions: (none)");
    assert_eq!(exclusions_text(&vec!["a".to_string(), "b".to_string()]), "Exclusions: a, b");
}

#[test]
fn remove_folder_drops_the_same_folder_in_any_case() {
    let roots = win_roots();
    let cfg = sample_config();
    let r = remove_folder(&cfg, r"d:\games\saves", &roots).unwrap();
    assert_eq!(r.junctions.len(), 1);
    assert_eq!(r.junctions[0].source_path, r"C:\Users\lrg4you\Documents\Notes");
    assert_eq!(r.sync_interval_minutes, 60);
    assert_eq!(r.max_versions, 5);
    assert_eq!(r.excluded_names, vec!["node_modules".to_string()]);
    assert!(remove_folder(&cfg, r"E:\Other", &roots).is_none());
}

#[test]
fn toggle_auto_restore_switches_one_entry() {
    let cfg = sample_config();
    let r = toggle_auto_restore(&cfg, 1).unwrap();
    assert!(r.junctions[0].auto_restore);
    assert!(r.junctions[1].auto_restore);
    let r2 = toggle_auto_restore(&cfg, 0).unwrap();
    assert!(!r2.junctions[0].auto_restore);
    assert!(toggle_auto_restore(&cfg, 2).is_none());
    assert_eq!(toggle_status_text(true), "Auto-restore ON.");
    assert_eq!(toggle_status_text(false), "Auto-restore OFF.");
}

#[test]
fn add_folder_replaces_the_same_path_text() {
    let cfg = sample_config();
    let r = add_folder(&cfg, r"D:\Games\Saves", false, "2026-02-02");
    assert_eq!(r.junctions.len(), 2);
    assert_eq!(r.junctions[0].source_path, r"C:\Users\lrg4you\Documents\Notes");
    assert_eq!(r.junctions[1].source_path, r"D:\Games\Saves");
    assert!(!r.junctions[1].auto_restore);
    assert_eq!(r.junctions[1].created, "2026-02-02");
    let r2 = add_folder(&cfg, r"E:\New", true, "2026-02-02");
    assert_eq!(r2.junctions.len(), 3);
    assert_eq!(r2.junctions[2].source_path, r"E:\New");
}

#[test]
fn add_new_folder_refuses_a_listed_folder() {
    let roots = win_roots();
    let cfg = sample_config();
    assert!(add_new_folder(&cfg, r"D:\GAMES\saves", true, "x", &roots).is_none());
    let r = add_new_folder(&cfg, r"E:\New", true, "2026-03-03", &roots).unwrap();
    assert_eq!(r.junctions.len(), 3);
    assert_eq!(r.junctions[2].source_path, r"E:\New");
    assert!(r.junctions[2].auto_restore);
    assert!(!r.junctions[2].is_game);
}

#[test]
fn export_writes_portable_paths() {
    let roots = win_roots();
    let cfg = sample_config();
    let r = export_config(&cfg, &roots);
    assert_eq!(r.junctions.len(), 2);
    assert_eq!(r.junctions[0].source_path, r"D:\Games\Saves");
    assert_eq!(r.junctions[1].source_path, r"%KNOWNFOLDER:Documents%\Notes");
    assert_eq!(r.max_versions, 5);
}

#[test]
fn health_texts() {
    assert_eq!(age_text(5), "5h ago");
    assert_eq!(age_text(24), "1d ago");
    assert_eq!(age_text(71), "2d ago");
    assert_eq!(health_entry_tail("5h ago", true, false), ", 5h ago, source OK");
    assert_eq!(health_entry_tail("3d ago", false, true), ", 3d ago, source MISSING \u{26a0} STALE");
    assert_eq!(no_backup_line("Saves"), "\n  Saves \u{2014} NO BACKUP");
    assert_eq!(health_report(0, 0, ""), "No folders configured yet.");
    assert_eq!(health_report(1, 2, "\n  x"), "1 of 2 folders backed up:\n  x");
}

#[test]
fn stale_after_two_intervals() {
    assert!(!sync_stale(2, 60));
    assert!(sync_stale(3, 60));
    assert!(sync_stale(1, 59));
    assert!(!sync_stale(0, 59));
    assert!(sync_stale(1, -61));
}

#[test]
fn snapshot_labels() {
    assert_eq!(snapshot_label("20260101_120000"), Some("2026-01-01 12:00:00".to_string()));
    assert_eq!(snapshot_label("20251231_235959"), Some("2025-12-31 23:59:59".to_string()));
    assert_eq!(snapshot_label("2026010_1200000"), None);
    assert_eq!(snapshot_label("latest"), None);
}

#[test]
fn unlink_confirmation_and_script() {
    assert!(confirms_unlink(" YES "));
    assert!(confirms_unlink("yes"));
    assert!(!confirms_unlink("y"));
    assert!(!confirms_unlink("yess"));
    let s = cleanup_script();
    assert!(s.starts_with("@echo off\r\n"));
    assert!(s.contains("schtasks /Delete /TN \"LRGEX-Restore-Rust\" /F"));
    assert!(s.ends_with("del \"%~f0\"\r\n"));
}

#[test]
fn other_window_texts() {
    assert_eq!(rightclick_message(true, true), "Right-click sync ENABLED. Right-click any folder to sync it.");
    assert_eq!(rightclick_message(false, true), "FAILED to enable. Try running as Administrator.");
    assert_eq!(rightclick_message(false, false), "Right-click sync removed.");
    assert_eq!(
        close_warning(true),
        "A restore is still running.\n\nClosing now will ABORT it.\n\nClose anyway?"
    );
    assert!(close_warning(false).starts_with("A backup is"));
    assert_eq!(log_display(""), "No log entries yet.");
    assert_eq!(log_display("line"), "line");
}

#[test]
fn sync_death_and_progress() {
    assert!(sync_died(100, 80, false));
    assert!(!sync_died(100, 80, true));
    assert!(!sync_died(100, 90, false));
    assert!(!sync_died(50, 80, false));
    assert_eq!(percent_done(50, 200), 25);
    assert_eq!(percent_done(5, 0), 0);
}
