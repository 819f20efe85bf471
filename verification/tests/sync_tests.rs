use lrgex_restore::config::{fnv1a64_offset, fnv1a64_update};
use lrgex_restore::sync::{
    change_check, chunk_by_bytes, classify_save_state, content_changed, copy_succeeded, detect_change,
    empty_source_guard, exclude_home_members, has_real_migration, has_zstd_magic, header_mtime,
    interval_xml, is_archive_name, is_numeric_name, is_snapshot_name, lock_busy_message, lock_was_busy,
    manifest_key, mark_skipped, migration_message, pair_action, parse_sidecar, plan_migration,
    refuse_empty_message, restore_dir_owner_pid, save_suffix_name, should_skip, should_sweep,
    sidecar_text, snapshots_to_delete, specific_save_name, stored_stats, task_xml, temp_owner_pid,
    xml_escape, ChangeCheck, CycleEnd, CycleTally, EmptyGuard, FileEnt, FileMeta, IdFolder,
    MigrationPlan, PairAction, SaveState, SidecarForm, BATCH, BATCH_BYTES,
};
use lrgex_restore::sync::{
    bak_name, copy_fallback_verdict, is_bak_of, is_stale_bak, read_percent, save_dir_name_list, skip_note,
    staging_dir_name, temp_archive_name,
};
use lrgex_restore::sync::{is_game_folder, FsAnswer, GameFolderSearch, GameStep};
use lrgex_restore::sync::{walk_entry, walk_warning, WalkEntry};

fn content_hash(bytes: &[u8]) -> u64 {
    fnv1a64_update(fnv1a64_offset(), bytes)
}

fn meta(p: &str, content: &[u8]) -> FileMeta {
    FileMeta { p: p.to_string(), s: content.len() as u64, h: content_hash(content) }
}

fn ent(rel: &str, size: u64) -> FileEnt {
    FileEnt { path: format!(r"C:\src\{}", rel), rel: rel.to_string(), size, mtime: 0 }
}

#[test]
fn test_interval_xml() {
    assert_eq!(interval_xml(1), "PT1M");
    assert_eq!(interval_xml(30), "PT30M");
    assert_eq!(interval_xml(60), "PT1H");
    assert_eq!(interval_xml(90), "PT1H30M");
    assert_eq!(interval_xml(1440), "P1D");
    assert_eq!(interval_xml(1500), "P1DT1H");
    assert_eq!(interval_xml(2880), "P2D");
    assert_eq!(interval_xml(1441), "P1DT1M");
    assert_eq!(interval_xml(4321), "P3DT1M");
    assert_eq!(interval_xml(0), "PT1M");
    assert_eq!(interval_xml(-5), "PT1M");
}

#[test]
fn test_detect_change_same_size_different_content() {
    let stored = vec![meta("config.json", b"AAAAAA")];
    let current = vec![meta("config.json", b"BBBBBB")];
    assert!(detect_change(&stored, &current), "Same-size content edit MUST be detected");
}

#[test]
fn test_detect_change_identical_content() {
    let stored = vec![meta("save.dat", b"game save v1")];
    let current = vec![meta("save.dat", b"game save v1")];
    assert!(!detect_change(&stored, &current), "Identical content must NOT trigger a backup");
}

#[test]
fn test_detect_change_file_added() {
    let stored = vec![meta("a.txt", b"one")];
    let current = vec![meta("a.txt", b"one"), meta("b.txt", b"two")];
    assert!(detect_change(&stored, &current), "Added file must be detected");
}

#[test]
fn test_detect_change_locked_file_size_only() {
    let mut stored = vec![meta("locked.db", b"0123456789")];
    stored[0].h = 0;
    let current = vec![meta("locked.db", b"0123456789")];
    assert!(detect_change(&stored, &current), "stored-unknown + readable-now must HEAL (re-backup)");
    let stored2 = vec![meta("locked.db", b"0123456789")];
    let mut locked_now = vec![meta("locked.db", b"0123456789")];
    locked_now[0].h = 0;
    assert!(!detect_change(&stored2, &locked_now), "currently-locked file (same size) must NOT loop re-backups");
}

#[test]
fn test_detect_change_order_and_duplicates() {
    let stored = vec![meta("a", b"1"), meta("b", b"2")];
    let current = vec![meta("b", b"2"), meta("a", b"1")];
    assert!(!detect_change(&stored, &current), "order does not matter");
    // A later stored entry with the same key replaces the earlier one.
    let dup = vec![meta("a", b"old"), meta("a", b"new")];
    let now = vec![meta("a", b"new"), meta("a", b"new")];
    assert!(!detect_change(&dup, &now));
    let renamed = vec![meta("c", b"1"), meta("b", b"2")];
    assert!(detect_change(&stored, &renamed));
    assert!(content_changed(None, &current));
    assert!(!content_changed(Some(&stored), &current));
}

#[test]
fn test_old_sidecar_migration() {
    match parse_sidecar("12345,42") {
        SidecarForm::Stats(size, count) => {
            assert_eq!(size, 12345);
            assert_eq!(count, 42);
        }
        _ => panic!("old format must read as statistics"),
    }
    assert!(!matches!(parse_sidecar("12345,42"), SidecarForm::Manifest(_)),
        "Old format must NOT parse as a manifest — it must trigger migration re-backup");
}

#[test]
fn test_sidecar_forms() {
    match parse_sidecar("  manifest:[{\"p\":\"a\",\"s\":1,\"h\":2}]\r\n") {
        SidecarForm::Manifest(j) => assert_eq!(j, "[{\"p\":\"a\",\"s\":1,\"h\":2}]"),
        _ => panic!("manifest expected"),
    }
    assert!(matches!(parse_sidecar("1,2,3"), SidecarForm::Unreadable));
    assert!(matches!(parse_sidecar("x,2"), SidecarForm::Unreadable));
    assert!(matches!(parse_sidecar(""), SidecarForm::Unreadable));
    assert!(matches!(parse_sidecar("+7,8"), SidecarForm::Stats(7, 8)));
    let m = vec![meta("sub/file1.txt", b"x"), FileMeta { p: "locked.db".into(), s: 9999, h: 0 }];
    let form = SidecarForm::Manifest(String::new());
    assert_eq!(stored_stats(&form, Some(&m)), (1 + 9999, 2));
    assert_eq!(stored_stats(&form, None), (u64::MAX, usize::MAX));
    assert_eq!(stored_stats(&SidecarForm::Stats(5, 6), None), (5, 6));
    assert_eq!(stored_stats(&SidecarForm::Unreadable, None), (u64::MAX, usize::MAX));
    assert_eq!(sidecar_text("[]"), "manifest:[]");
}

#[test]
fn test_chunk_by_bytes_limits() {
    let files: Vec<FileEnt> = vec![ent("a", 30), ent("b", 30), ent("c", 50), ent("d", 10), ent("e", 200)];
    let b = chunk_by_bytes(&files, 64, 3);
    assert_eq!(b, vec![(0, 2), (2, 4), (4, 5)]);
    let c = chunk_by_bytes(&files, 1000, 2);
    assert_eq!(c, vec![(0, 2), (2, 4), (4, 5)]);
    assert!(chunk_by_bytes(&Vec::new(), BATCH_BYTES, BATCH).is_empty());
    // Big files count at most 8 MiB towards a batch.
    let big = vec![ent("x", u64::MAX), ent("y", u64::MAX)];
    assert_eq!(chunk_by_bytes(&big, 16 * 1024 * 1024, 10), vec![(0, 2)]);
}

#[test]
fn test_snapshot_retention_keeps_newest() {
    assert!(is_snapshot_name("20260101_120000"));
    assert!(!is_snapshot_name("20260101-120000"));
    assert!(!is_snapshot_name("2026010112000"));
    assert!(!is_snapshot_name("2026010é_12000"));
    let names: Vec<String> = vec![
        "20260103_000000".into(),
        "notes".into(),
        "20260101_000000".into(),
        "20260104_000000".into(),
        "20260102_000000".into(),
    ];
    assert_eq!(snapshots_to_delete(&names, 2), vec![2, 4]);
    assert_eq!(snapshots_to_delete(&names, 0), vec![0, 2, 3, 4]);
    assert!(snapshots_to_delete(&names, 10).is_empty());
}

#[test]
fn test_manifest_key_and_marking() {
    assert_eq!(manifest_key(r"sub\file1.txt"), "sub/file1.txt");
    let m = vec![meta("sub/locked.db", b"abc"), meta("ok.txt", b"xyz")];
    let out = mark_skipped(&m, &vec![r"sub\locked.db".to_string()]);
    assert_eq!(out[0].h, 0);
    assert_eq!(out[0].s, 3);
    assert_eq!(out[1].h, m[1].h);
}

#[test]
fn test_task_definition() {
    assert_eq!(xml_escape(r#"C:\A&B <x> "y""#), r#"C:\A&amp;B &lt;x&gt; &quot;y&quot;"#);
    let xml = task_xml(90, r"C:\Apps & Tools\LRGEXRestore.exe");
    assert!(xml.starts_with("<?xml version=\"1.0\"?>\n<Task version=\"1.2\""));
    assert!(xml.contains("<Interval>PT1H30M</Interval>"));
    assert!(xml.contains("<Command>C:\\Apps &amp; Tools\\LRGEXRestore.exe</Command>"));
    assert!(xml.contains("<StartWhenAvailable>true</StartWhenAvailable>"));
    assert!(xml.ends_with("</Task>"));
}

#[test]
fn test_backup_guards() {
    assert_eq!(empty_source_guard(0, 3, true, 10, false), EmptyGuard::HomeOnly);
    assert_eq!(empty_source_guard(0, 0, true, 10, true), EmptyGuard::ForcedEmpty);
    assert_eq!(empty_source_guard(0, 0, true, 10, false), EmptyGuard::Refuse);
    assert_eq!(empty_source_guard(0, 0, false, 10, false), EmptyGuard::Proceed);
    assert_eq!(empty_source_guard(5, 5, true, 10, false), EmptyGuard::Proceed);
    assert_eq!(
        refuse_empty_message(42),
        "folder is empty but the backup holds 42 files — if you emptied it on purpose, remove the folder from the list and add it back"
    );
    assert_eq!(change_check(false, true, 10, 2, 10, 2), ChangeCheck::CompareContent);
    assert_eq!(change_check(false, true, 10, 2, 11, 2), ChangeCheck::Changed);
    assert_eq!(change_check(true, true, 10, 2, 10, 2), ChangeCheck::Changed);
    assert_eq!(change_check(false, false, 10, 2, 10, 2), ChangeCheck::Changed);
}

#[test]
fn test_home_members_excluded() {
    let files = vec![
        FileEnt { path: r"D:\Cloud\LRGEX\backup\x.tar.zst".into(), rel: "a".into(), size: 5, mtime: 0 },
        FileEnt { path: r"D:\Cloud\Other\y".into(), rel: "b".into(), size: 7, mtime: 0 },
        FileEnt { path: r"D:\Cloud\LRGEXX\z".into(), rel: "c".into(), size: 11, mtime: 0 },
    ];
    let (kept, total, count) = exclude_home_members(&files, 23, 3, r"d:\cloud\lrgex\");
    assert_eq!(kept.len(), 2);
    assert_eq!(kept[0].rel, "b");
    assert_eq!((total, count), (18, 2));
    let (kept2, total2, count2) = exclude_home_members(&files, 999, 3, r"E:\Elsewhere");
    assert_eq!(kept2.len(), 3);
    assert_eq!((total2, count2), (999, 3));
}

#[test]
fn test_sync_cycle_tally() {
    assert_eq!(pair_action(false, true, true), PairAction::Skip);
    assert_eq!(pair_action(true, true, true), PairAction::Restore);
    assert_eq!(pair_action(true, true, false), PairAction::Sync);
    let busy = lock_busy_message();
    assert!(lock_was_busy(&busy));
    assert!(!lock_was_busy("compression failed"));
    let mut t = CycleTally::new();
    t.record_sync(false, &busy);
    assert_eq!(t.outcome(), CycleEnd::KeepStatus);
    t.record_restore("Saves", true, "");
    t.record_sync(true, "");
    t.record_sync(false, "rename failed");
    assert_eq!((t.ok, t.fail, t.restored, t.lock_skipped), (1, 1, 1, 1));
    assert_eq!(t.restored_names, vec!["Saves".to_string()]);
    assert_eq!(t.outcome(), CycleEnd::Report { stamp: true });
    assert_eq!(CycleTally::new().outcome(), CycleEnd::Report { stamp: false });
}

#[test]
fn test_housekeeping_names() {
    assert_eq!(temp_owner_pid("lrgex_1234_Saves.tar.zst.tmp"), Some(1234));
    assert_eq!(temp_owner_pid("lrgex_1234_migrate_Saves.tar.zst.tmp"), Some(1234));
    assert_eq!(temp_owner_pid("lrgex_x_Saves.tar.zst.tmp"), None);
    assert_eq!(temp_owner_pid("lrgex_1234_Saves.tar.zst"), None);
    assert_eq!(restore_dir_owner_pid(".lrgex_restore_77_3"), Some(77));
    assert_eq!(restore_dir_owner_pid(".lrgex_restore_77"), Some(77));
    assert_eq!(restore_dir_owner_pid(".lrgex_restore_"), None);
    assert!(should_sweep(5, 6, false));
    assert!(!should_sweep(6, 6, false));
    assert!(!should_sweep(5, 6, true));
    assert_eq!(header_mtime(0), 315532800);
    assert_eq!(header_mtime(1700000000), 1700000000);
    assert!(copy_succeeded(Some(1)));
    assert!(!copy_succeeded(Some(8)));
    assert!(!copy_succeeded(None));
    assert!(has_zstd_magic(&[0x28, 0xb5, 0x2f, 0xfd, 0]));
    assert!(!has_zstd_magic(&[0x28, 0xb5, 0x2f]));
    assert!(is_archive_name("Saves_1.tar.zst"));
    assert!(!is_archive_name("Saves.tar"));
    assert!(should_skip("Node_Modules"));
    assert!(!should_skip("saves"));
}

fn folder(name: &str, state: SaveState, files: usize, bytes: u64, secs: u64) -> IdFolder {
    IdFolder { name: name.to_string(), state, files, bytes, mtime_secs: secs, mtime_nanos: 0 }
}

#[test]
fn test_save_id_migration_plan() {
    assert_eq!(classify_save_state(true, false, false, false, 0), SaveState::HasSaveData);
    assert_eq!(classify_save_state(false, false, true, true, 0), SaveState::Unknown);
    assert_eq!(classify_save_state(false, false, false, false, 3), SaveState::FreshInstall);
    assert_eq!(classify_save_state(false, false, false, false, 6), SaveState::Unknown);
    let fs = vec![
        folder("111", SaveState::HasSaveData, 5, 100, 1),
        folder("222", SaveState::FreshInstall, 0, 0, 0),
        folder("333", SaveState::HasSaveData, 5, 100, 1),
        folder("444", SaveState::FreshInstall, 0, 0, 0),
    ];
    match plan_migration(&fs) {
        MigrationPlan::Copy { source, targets } => {
            assert_eq!(source, 2, "a tie goes to the later folder");
            assert_eq!(targets, vec![1, 3]);
        }
        _ => panic!("copy expected"),
    }
    let refused = vec![folder("1", SaveState::Unknown, 0, 0, 0), folder("2", SaveState::Unknown, 0, 0, 0)];
    match plan_migration(&refused) {
        MigrationPlan::Refused(m) => assert_eq!(m, "REFUSED — ambiguous folder(s): 1, 2"),
        _ => panic!("refusal expected"),
    }
    let none = vec![folder("1", SaveState::FreshInstall, 0, 0, 0)];
    assert!(matches!(plan_migration(&none), MigrationPlan::Nothing));
    assert_eq!(migration_message("userdata", "111", "222"), "userdata: 111 → 222");
    assert!(has_real_migration(&vec!["REFUSED — x".to_string(), "a: 1 → 2".to_string()]));
    assert!(!has_real_migration(&vec!["REFUSED — x".to_string()]));
    assert!(is_numeric_name("208650"));
    assert!(!is_numeric_name("v2"));
    assert!(specific_save_name("AutoSave_3.dat"));
    assert!(save_suffix_name("SLOT1.SAVE"));
    assert!(!save_suffix_name("slot1.txt"));
}

#[test]
fn temp_archive_names_carry_their_owner() {
    let a = temp_archive_name(4242, "Hermes", false);
    assert_eq!(a, "lrgex_4242_Hermes.tar.zst.tmp");
    assert_eq!(temp_owner_pid(&a), Some(4242));
    let b = temp_archive_name(7, "my_game", true);
    assert_eq!(b, "lrgex_7_migrate_my_game.tar.zst.tmp");
    assert_eq!(temp_owner_pid(&b), Some(7));
}

#[test]
fn staging_names_carry_their_owner() {
    let s = staging_dir_name(31337, 5);
    assert_eq!(s, ".lrgex_restore_31337_5");
    assert_eq!(restore_dir_owner_pid(&s), Some(31337));
}

#[test]
fn parked_copies_and_staleness() {
    let own = bak_name("Saves", 100);
    assert_eq!(own, "Saves.lrgex_bak.100");
    assert!(is_bak_of(&own, "Saves"));
    assert!(!is_stale_bak(&own, "Saves", 100));
    assert!(is_stale_bak("Saves.lrgex_bak.99", "Saves", 100));
    assert!(is_stale_bak("Saves.lrgex_bak.1100", "Saves", 100));
    assert!(!is_bak_of("Other.lrgex_bak.99", "Saves"));
    assert!(!is_stale_bak("Savesx", "Saves", 100));
}

#[test]
fn skip_note_and_copy_verdict() {
    assert_eq!(skip_note(0), "");
    assert_eq!(skip_note(3), " 3 file(s) skipped (locked). Archive may be incomplete.");
    assert_eq!(copy_fallback_verdict(10, 10, true, false), Ok(()));
    assert_eq!(
        copy_fallback_verdict(10, 9, true, true),
        Err("archive damaged during copy — restore from Versions".to_string())
    );
    assert_eq!(
        copy_fallback_verdict(10, 10, false, false),
        Err("archive damaged during copy and no version snapshot exists — the SOURCE files are still intact; re-add the folder to rebuild".to_string())
    );
}

#[test]
fn read_percent_is_capped() {
    assert_eq!(read_percent(50, 200), 25);
    assert_eq!(read_percent(300, 200), 100);
    assert_eq!(read_percent(5, 0), 0);
}

#[test]
fn save_dir_names_in_order() {
    let l = save_dir_name_list();
    assert_eq!(l.len(), 12);
    assert_eq!(l[0], "savedata");
    assert_eq!(l[3], "SaveGames");
    assert_eq!(l[11], "saved");
}

/// Runs the game-folder scan over a tree of listings; folders named in
/// `filled` are there and hold something.
fn scan_game(tree: &[(&str, &[(&str, bool)])], filled: &[&str], root: &str) -> bool {
    let (mut s, mut step) = GameFolderSearch::start(root);
    loop {
        let answer = match step {
            GameStep::Done(b) => return b,
            GameStep::Continue => FsAnswer::Nothing,
            GameStep::List(p) => FsAnswer::Listing(
                tree.iter().find(|(d, _)| *d == p).map(|(_, es)| es.iter().map(|(n, d)| (n.to_string(), *d)).collect()),
            ),
            GameStep::Probe(p) => FsAnswer::Exists(filled.contains(&p.as_str())),
        };
        step = s.step(answer);
    }
}

#[test]
fn game_scan_finds_store_under_numbered_folder() {
    let tree: &[(&str, &[(&str, bool)])] = &[
        (r"D:\Game", &[("Profiles", true)]),
        (r"D:\Game\Profiles", &[("76561198", true)]),
        (r"D:\Game\Profiles\76561198", &[]),
    ];
    assert!(scan_game(tree, &[r"D:\Game\Profiles\76561198\SaveGames"], r"D:\Game"));
    assert!(!scan_game(tree, &[], r"D:\Game"));
}

#[test]
fn game_scan_finds_remote_under_numbered_subfolder() {
    let tree: &[(&str, &[(&str, bool)])] = &[
        (r"D:\userdata", &[("1234", true), ("file.txt", false)]),
        (r"D:\userdata\1234", &[("730", true)]),
    ];
    assert!(scan_game(tree, &[r"D:\userdata\1234\730\remote"], r"D:\userdata"));
}

#[test]
fn game_scan_stops_below_depth_bound() {
    let tree: &[(&str, &[(&str, bool)])] = &[
        (r"D:\a", &[("b", true)]),
        (r"D:\a\b", &[("c", true)]),
        (r"D:\a\b\c", &[("d", true)]),
        (r"D:\a\b\c\d", &[("e", true)]),
        (r"D:\a\b\c\d\e", &[("f", true)]),
        (r"D:\a\b\c\d\e\f", &[("7", true)]),
    ];
    assert!(!scan_game(tree, &[r"D:\a\b\c\d\e\f\7\save"], r"D:\a"));
    assert!(scan_game(tree, &[r"D:\a\b\c\d\e\7\save"], r"D:\a") == false);
    let shallow: &[(&str, &[(&str, bool)])] = &[
        (r"D:\a", &[("b", true)]),
        (r"D:\a\b", &[("c", true)]),
        (r"D:\a\b\c", &[("d", true)]),
        (r"D:\a\b\c\d", &[("e", true)]),
        (r"D:\a\b\c\d\e", &[("7", true)]),
    ];
    assert!(scan_game(shallow, &[r"D:\a\b\c\d\e\7\save"], r"D:\a"));
}

#[test]
fn walk_entries_are_classified() {
    let ex = vec!["node_modules".to_string(), "Temp".to_string()];
    assert_eq!(walk_entry("node_modules", false, true, &ex), WalkEntry::Skip);
    assert_eq!(walk_entry("temp", false, true, &ex), WalkEntry::Descend);
    assert_eq!(walk_entry("link", true, true, &ex), WalkEntry::Skip);
    assert_eq!(walk_entry("a.sav", false, false, &ex), WalkEntry::File);
}

#[test]
fn walk_warning_lists_twenty_then_counts() {
    assert_eq!(
        walk_warning(&vec![r"C:\a".to_string(), r"C:\b".to_string()]),
        "[WALK-WARN] unreadable subfolders EXCLUDED from backup:\n  C:\\a\n  C:\\b"
    );
    let many: Vec<String> = (0..23).map(|i| format!("d{}", i)).collect();
    let w = walk_warning(&many);
    assert!(w.ends_with("\n  d19\n  ... and 3 more"));
    assert!(!w.contains("d20"));
}

#[test]
fn sidecar_written_reads_back() {
    let json = r#"[{"p":"a/b.sav","s":3,"h":7}]"#;
    match parse_sidecar(&sidecar_text(json)) {
        SidecarForm::Manifest(j) => assert_eq!(j, json),
        _ => panic!("expected a manifest"),
    }
    match parse_sidecar(&sidecar_text("")) {
        SidecarForm::Manifest(j) => assert_eq!(j, ""),
        _ => panic!("expected a manifest"),
    }
}

#[test]
fn unchanged_manifest_reads_unchanged() {
    let mut m = vec![meta("a.sav", b"one"), meta("dir/b.sav", b"two"), meta("c.cfg", b"")];
    m[1].h = 0;
    let copy: Vec<FileMeta> = m.iter().map(|x| FileMeta { p: x.p.clone(), s: x.s, h: x.h }).collect();
    assert!(!detect_change(&m, &copy));
}

/// The library's game-folder scan over a tree of listings; folders named in
/// `filled` are there and hold something.
fn game_folder_in(tree: &[(&str, &[(&str, bool)])], filled: &[&str], root: &str) -> bool {
    let list = |p: &str| -> Option<Vec<(String, bool)>> {
        tree.iter().find(|(d, _)| *d == p).map(|(_, es)| es.iter().map(|(n, d)| (n.to_string(), *d)).collect())
    };
    is_game_folder(root, list, |p: &str| filled.contains(&p))
}

#[test]
fn is_game_folder_finds_a_filled_store() {
    let tree: &[(&str, &[(&str, bool)])] = &[
        (r"D:\Game", &[("Profiles", true)]),
        (r"D:\Game\Profiles", &[("76561198", true)]),
        (r"D:\Game\Profiles\76561198", &[]),
    ];
    assert!(game_folder_in(tree, &[r"D:\Game\Profiles\76561198\SaveGames"], r"D:\Game"));
    assert!(!game_folder_in(tree, &[], r"D:\Game"));
    let steam: &[(&str, &[(&str, bool)])] = &[
        (r"D:\userdata", &[("1234", true), ("file.txt", false)]),
        (r"D:\userdata\1234", &[("730", true)]),
    ];
    assert!(game_folder_in(steam, &[r"D:\userdata\1234\730\remote"], r"D:\userdata"));
}

#[test]
fn is_game_folder_stops_below_the_depth_bound() {
    let tree: &[(&str, &[(&str, bool)])] = &[
        (r"D:\a", &[("b", true)]),
        (r"D:\a\b", &[("c", true)]),
        (r"D:\a\b\c", &[("d", true)]),
        (r"D:\a\b\c\d", &[("e", true)]),
        (r"D:\a\b\c\d\e", &[("f", true)]),
        (r"D:\a\b\c\d\e\f", &[("7", true)]),
    ];
    assert!(!game_folder_in(tree, &[r"D:\a\b\c\d\e\f\7\save"], r"D:\a"));
    assert!(!is_game_folder(r"D:\none", |_p: &str| None, |_p: &str| true));
}
