use lrgex_restore::config::{
    completed_recently, drive_candidate, drive_letter, find_guid_letter, fnv1a_hex, guid_in_volume_name,
    heal_drive_letter, is_home, leaf_is_unique, leaf_migration, legacy_raw_folder, letter_of, marker_text,
    pair_key, rekey_backup, safe_filename, same_path, volume_root, backup_dir_for, backup_file_for,
    sidecar_for, trash_path_for, config_path, data_dir, last_sync_marker_path, trash_base, pair_cloud_path,
    needs_portable_save, portable_junction, junction_drive, Config, DriveProbe, Junction, default_interval,
    default_max_versions, is_hidden_system, heal_user_profile, heal_user_profile_checked, volume_guid,
};
use lrgex_restore::pathutil::PathRoots;

/// The folders of a machine whose user is `lrg4you`.
fn roots() -> PathRoots {
    let known: Vec<Option<String>> = vec![
        Some(r"C:\Users\lrg4you\Saved Games".to_string()),
        Some(r"C:\Users\lrg4you\Documents".to_string()),
        Some(r"C:\Users\lrg4you\Desktop".to_string()),
        Some(r"C:\Users\lrg4you\Downloads".to_string()),
        Some(r"C:\Users\lrg4you\Pictures".to_string()),
        Some(r"C:\Users\lrg4you\Music".to_string()),
        Some(r"C:\Users\lrg4you\Videos".to_string()),
    ];
    let env: Vec<Option<String>> = vec![
        Some(r"C:\Users\lrg4you\AppData\Local".to_string()),
        Some(r"C:\Users\lrg4you\AppData\Roaming".to_string()),
        Some(r"C:\Users\lrg4you".to_string()),
        Some(r"C:\Program Files (x86)".to_string()),
        Some(r"C:\Program Files".to_string()),
        Some(r"C:\ProgramData".to_string()),
        Some(r"C:\Users\Public".to_string()),
    ];
    PathRoots::new(&known, &env)
}

fn junction(path: &str) -> Junction {
    Junction {
        source_path: path.to_string(),
        auto_restore: false,
        created: "test".to_string(),
        is_game: false,
        volume_id: None,
    }
}

#[test]
fn test_pair_key_known_folder_root_no_illegal_chars() {
    let key = pair_key(r"C:\Users\lrg4you\Saved Games", &roots());
    assert!(key.starts_with("Saved Games_"), "leaf must be the real folder name: {}", key);
    assert!(!key.contains(':'), "colon must never appear in a key: {}", key);
    assert!(!key.contains('\\') && !key.contains('/'), "no separators: {}", key);
}

#[test]
fn test_pair_key_always_legal_filename() {
    let r = roots();
    for src in [
        r"C:\Users\x\Saved Games",
        r"C:\Users\x\hermes",
        r"D:\Games\weird?name<>",
        r"E:\a|b*c",
        "%KNOWNFOLDER:SavedGames%",
        "%LOCALAPPDATA%\\app dir",
        r"C:\",
    ] {
        let key = pair_key(src, &r);
        assert!(!key.is_empty());
        for c in key.chars() {
            assert!(
                !matches!(c, '<' | '>' | ':' | '"' | '/' | '\\' | '|' | '?' | '*'),
                "illegal char {:?} in key {} for source {}", c, key, src
            );
            assert!((c as u32) >= 0x20, "control char in key {} for {}", key, src);
        }
        assert!(!key.ends_with('.') && !key.ends_with(' '), "trailing dot/space: {} for {}", key, src);
    }
}

#[test]
fn test_safe_filename_matrix() {
    assert_eq!(safe_filename("%KNOWNFOLDER:SavedGames%"), "%KNOWNFOLDER_SavedGames%");
    assert_eq!(safe_filename("a/b\\c"), "a_b_c");
    assert_eq!(safe_filename("trailing.. "), "trailing");
    assert_eq!(safe_filename("CON"), "CON_lrgex");
    assert_eq!(safe_filename("com1.txt"), "com1.txt_lrgex");
    assert!(safe_filename("").starts_with("pair"));
    assert_eq!(safe_filename("lpt9"), "lpt9_lrgex");
    assert_eq!(safe_filename("lpt10"), "lpt10");
}

#[test]
fn test_pair_key_deterministic() {
    let r = roots();
    let a = pair_key(r"E:\Games\MySaves", &r);
    let b = pair_key(r"E:\Games\MySaves", &r);
    let c = pair_key(r"E:\Games\OtherSaves", &r);
    assert_eq!(a, b, "same source must produce the same key");
    assert_ne!(a, c, "different sources must not collide");
}

#[test]
fn test_drive_letter_parse() {
    assert_eq!(drive_letter(r"E:\Steam\KSP"), Some("E:".into()));
    assert_eq!(drive_letter(r"C:\"), Some("C:".into()));
    assert_eq!(drive_letter(r"E:"), Some("E:".into()));
    assert_eq!(drive_letter(r"\\\\?\\Volume{X}\\path"), None);
    assert_eq!(drive_letter("relative/path"), None);
}

#[test]
fn test_find_guid_letter_scan() {
    let lookup = |l: &str| if l == "D:" { Some("{ABCD}".to_string()) } else { None };
    assert_eq!(find_guid_letter("{ABCD}", &lookup), Some("D:".to_string()));
    assert_eq!(find_guid_letter("{MISSING}", &lookup), None);
}

#[test]
fn test_find_guid_letter_first_match_wins() {
    let lookup = |l: &str| if l == "F:" || l == "K:" { Some("{G}".to_string()) } else { None };
    assert_eq!(find_guid_letter("{G}", &lookup), Some("F:".to_string()));
}

#[test]
fn test_letter_of() {
    assert_eq!(letter_of(r"e:\x"), "e:");
    assert_eq!(letter_of(r"\\server\share"), "");
}

fn probe(current: Option<&str>, exists: bool) -> DriveProbe {
    DriveProbe {
        current: current.map(|s| s.to_string()),
        source_exists: exists,
        volumes: vec![None; 26],
        candidate_dirs: vec![false; 26],
    }
}

#[test]
fn test_heal_drive_by_volume_id() {
    let mut p = probe(None, false);
    p.volumes[3] = Some("{H}".to_string()); // D:
    p.volumes[7] = Some("{H}".to_string()); // H: (later, not chosen)
    let healed = heal_drive_letter(r"X:\LRGEX-HealTest\Saves", Some("{H}"), &p);
    assert_eq!(healed, Some(r"D:\LRGEX-HealTest\Saves".to_string()));
}

#[test]
fn test_heal_drive_healthy_when_volume_matches() {
    let mut p = probe(Some("{H}"), true);
    p.volumes[7] = Some("{H}".to_string());
    assert_eq!(heal_drive_letter(r"H:\Saves", Some("{H}"), &p), None);
}

#[test]
fn test_heal_drive_volume_gone() {
    let p = probe(None, false);
    assert_eq!(heal_drive_letter(r"X:\Saves", Some("{H}"), &p), None);
}

#[test]
fn test_heal_drive_legacy_unique_match() {
    let mut p = probe(None, false);
    p.volumes[7] = Some("{H}".to_string());
    p.candidate_dirs[7] = true;
    p.volumes[2] = Some("{C}".to_string());
    assert_eq!(
        heal_drive_letter(r"X:\LRGEX-HealTest\Saves", None, &p),
        Some(r"H:\LRGEX-HealTest\Saves".to_string())
    );
}

#[test]
fn test_heal_drive_legacy_ambiguous_and_own_letter() {
    let mut p = probe(None, false);
    p.volumes[7] = Some("{H}".to_string());
    p.candidate_dirs[7] = true;
    p.volumes[8] = Some("{I}".to_string());
    p.candidate_dirs[8] = true;
    assert_eq!(heal_drive_letter(r"X:\Saves", None, &p), None);
    // The source's own drive (any case) never counts as a match.
    let mut q = probe(None, false);
    q.volumes[23] = Some("{X}".to_string());
    q.candidate_dirs[23] = true;
    assert_eq!(heal_drive_letter(r"x:\Saves", None, &q), None);
    // An existing path without a stored identity stays.
    let r = probe(None, true);
    assert_eq!(heal_drive_letter(r"X:\Saves", None, &r), None);
    // Not a drive path, or nothing after the drive.
    assert_eq!(heal_drive_letter(r"\\nas\share\x", None, &p), None);
    assert_eq!(heal_drive_letter(r"X:\", None, &p), None);
}

#[test]
fn test_drive_candidate_keeps_relative_path() {
    assert_eq!(drive_candidate(4, r"X:\Games\Saves"), r"E:\Games\Saves");
}

#[test]
fn test_same_path_contracted_and_expanded() {
    let r = roots();
    assert!(same_path(r"%APPDATA%\Foo", r"C:\Users\lrg4you\AppData\Roaming\Foo\", &r));
    assert!(same_path(r"D:\Games/", r"d:\games", &r));
    assert!(!same_path(r"D:\Games", r"D:\Games2", &r));
}

#[test]
fn test_fnv1a_hex_value() {
    // FNV-1a 64 of the empty input is the offset basis; its low 32 bits.
    assert_eq!(fnv1a_hex(""), "84222325");
    assert_eq!(fnv1a_hex("A"), fnv1a_hex("a"));
    assert_eq!(fnv1a_hex("a").len(), 8);
}

#[test]
fn test_layout_paths() {
    let home = r"D:\Cloud\LRGEX";
    assert_eq!(data_dir(home), r"D:\Cloud\LRGEX\.lrgex");
    assert_eq!(config_path(home), r"D:\Cloud\LRGEX\.lrgex\junction-config.json");
    assert_eq!(last_sync_marker_path(home), r"D:\Cloud\LRGEX\.lrgex\last-sync-complete");
    assert_eq!(trash_base(home), r"D:\Cloud\LRGEX\_versions");
    assert_eq!(pair_cloud_path(home, r"E:\Games\MySaves"), r"D:\Cloud\LRGEX\MySaves");
    let r = roots();
    let key = pair_key(r"E:\Games\MySaves", &r);
    assert_eq!(backup_dir_for(home, r"E:\Games\MySaves", &r), format!(r"D:\Cloud\LRGEX\backup\{}", key));
    assert_eq!(backup_file_for(home, r"E:\Games\MySaves", &r), format!(r"D:\Cloud\LRGEX\backup\{}\{}.tar.zst", key, key));
    assert_eq!(sidecar_for(home, r"E:\Games\MySaves", &r), format!(r"D:\Cloud\LRGEX\backup\{}\{}.tar.zst.size", key, key));
    assert_eq!(trash_path_for(home, r"E:\Games\MySaves", &r), format!(r"D:\Cloud\LRGEX\_versions\{}", key));
}

#[test]
fn test_rekey_plan_follows_new_drive() {
    let r = roots();
    let old_key = pair_key(r"E:\Games\TestRekey", &r);
    let new_key = pair_key(r"D:\Games\TestRekey", &r);
    assert_ne!(old_key, new_key);
    let m = rekey_backup(r"C:\H", r"E:\Games\TestRekey", r"D:\Games\TestRekey", &r).expect("keys differ");
    assert_eq!(m.old_dir, format!(r"C:\H\backup\{}", old_key));
    assert_eq!(m.new_dir, format!(r"C:\H\backup\{}", new_key));
    assert_eq!(m.old_archive, format!(r"C:\H\backup\{}\{}.tar.zst", new_key, old_key));
    assert_eq!(m.new_archive, format!(r"C:\H\backup\{}\{}.tar.zst", new_key, new_key));
    assert!(rekey_backup(r"C:\H", r"E:\Games\TestRekey", r"E:\Games\TestRekey", &r).is_none());
}

#[test]
fn test_leaf_uniqueness_and_migration() {
    let r = roots();
    let cfg = Config {
        junctions: vec![junction(r"E:\A\Saves"), junction(r"F:\B\Saves"), junction(r"G:\Other")],
        sync_interval_minutes: 1440,
        excluded_names: vec![],
        max_versions: 2,
    };
    assert!(!leaf_is_unique(&cfg, "Saves"));
    assert!(leaf_is_unique(&cfg, "Other"));
    assert!(leaf_is_unique(&cfg, "Missing"));
    assert!(leaf_migration(r"C:\H", r"E:\A\Saves", &r, &cfg).is_none());
    let m = leaf_migration(r"C:\H", r"G:\Other", &r, &cfg).expect("unique leaf migrates");
    assert_eq!(m.old_dir, r"C:\H\backup\Other");
    assert_eq!(m.stale_archive, r"C:\H\backup\Other\Other.tar.zst");
}

#[test]
fn test_legacy_raw_folder_rules() {
    let only = |dirs: Vec<&'static str>| move |p: &str| dirs.iter().any(|d| *d == p);
    assert_eq!(
        legacy_raw_folder(r"C:\H", r"E:\Games\MySaves", only(vec![r"C:\H\MySaves"])),
        Some(r"C:\H\MySaves".to_string())
    );
    // The application's own names are never legacy folders.
    assert_eq!(legacy_raw_folder(r"C:\H", r"E:\x\Backup", only(vec![r"C:\H\Backup"])), None);
    // A folder holding the application's store is the home itself.
    assert_eq!(
        legacy_raw_folder(r"C:\H", r"E:\x\Inner", only(vec![r"C:\H\Inner", r"C:\H\Inner\.lrgex"])),
        None
    );
    assert_eq!(legacy_raw_folder(r"C:\H", r"E:\x\Gone", only(vec![])), None);
}

#[test]
fn test_is_home_marker() {
    assert!(is_home(r"C:\H", |p: &str| p == r"C:\H\.lrgex\home"));
    assert!(!is_home(r"C:\H", |_p: &str| false));
}

/// The volume names a machine reports for its drive roots (only `C:` is mounted).
fn mounted_volumes(root: &str) -> Option<String> {
    if root == r"C:\" {
        Some(r"\\?\Volume{2f1c5a7e-0000-0000-0000-100000000000}\".to_string())
    } else {
        None
    }
}

#[test]
fn test_volume_guid_c_drive() {
    let g = volume_guid("C:", mounted_volumes);
    assert!(g.is_some(), "C: should have a volume GUID");
    let g = g.unwrap();
    assert!(g.starts_with('{') && g.ends_with('}'));
    assert_eq!(volume_guid("C:", mounted_volumes), Some(g), "GUID must be stable across calls");
}

#[test]
fn volume_guid_of_roots_and_missing_drives() {
    assert_eq!(
        volume_guid(r"C:\\", mounted_volumes),
        Some("{2f1c5a7e-0000-0000-0000-100000000000}".to_string())
    );
    assert_eq!(volume_guid("D:", mounted_volumes), None);
    assert_eq!(volume_guid("C:", |_r: &str| Some("no identity".to_string())), None);
}

#[test]
fn test_volume_name_parsing() {
    assert_eq!(volume_root(r"E:"), r"E:\");
    assert_eq!(volume_root(r"E:\\"), r"E:\");
    assert_eq!(
        guid_in_volume_name("\\\\?\\Volume{1234-AB}\\\0\0"),
        Some("{1234-AB}".to_string())
    );
    assert_eq!(guid_in_volume_name("}{"), None);
    assert_eq!(guid_in_volume_name("none"), None);
}

#[test]
fn test_interval_guard() {
    assert!(completed_recently(Some(" 1000 \n"), Some(1100), 1));
    assert!(!completed_recently(Some("1000"), Some(1120), 1));
    assert!(completed_recently(Some("1000"), Some(900), 1)); // clock behind the stamp
    assert!(!completed_recently(Some("garbage"), Some(1000), 60));
    assert!(!completed_recently(None, Some(1000), 60));
    assert!(completed_recently(Some("0"), Some(119), -5)); // interval clamped to one minute
    assert_eq!(marker_text(1712345678), "1712345678");
}

#[test]
fn test_defaults() {
    let c = Config::default();
    assert_eq!(c.sync_interval_minutes, 1440);
    assert_eq!(c.max_versions, 2);
    assert!(c.junctions.is_empty());
    assert_eq!(default_interval(), 1440);
    assert_eq!(default_max_versions(), 2);
    assert!(is_hidden_system(0x6));
    assert!(!is_hidden_system(0x2));
}

#[test]
fn test_portable_save() {
    let r = roots();
    let mut j = junction(r"C:\Users\lrg4you\AppData\Roaming\GSE Saves");
    j.volume_id = Some("{OLD}".to_string());
    assert_eq!(junction_drive(&j, &r), Some("C:".to_string()));
    let p = portable_junction(&j, &r, None);
    assert_eq!(p.source_path, r"%APPDATA%\GSE Saves");
    assert_eq!(p.volume_id, Some("{OLD}".to_string()));
    let q = portable_junction(&j, &r, Some("{NEW}".to_string()));
    assert_eq!(q.volume_id, Some("{NEW}".to_string()));
    assert!(needs_portable_save(r#"{"SourcePath":"C:\\x"}"#, false));
    assert!(!needs_portable_save(r#"{"SourcePath":"%APPDATA%\\x"}"#, false));
    assert!(needs_portable_save("", true));
}

#[test]
fn profile_heal_moves_old_user_paths() {
    let h = heal_user_profile(r"C:\Users\OldName\Documents\Game", r"C:\Users\lrg4you", "C:");
    assert_eq!(h, Some(r"C:\Users\lrg4you\Documents\Game".to_string()));
    assert_eq!(heal_user_profile(r"C:\Users\LRG4YOU\Documents", r"C:\Users\lrg4you", "C:"), None);
    assert_eq!(heal_user_profile(r"C:\Users\Public\Documents", r"C:\Users\lrg4you", "C:"), None);
    assert_eq!(heal_user_profile(r"D:\Users\Old\x", r"C:\Users\lrg4you", "C:"), None);
    assert_eq!(heal_user_profile(r"C:\Users\Old", r"C:\Users\lrg4you", "C:"), None);
    assert_eq!(heal_user_profile(r"C:\Users\Old\x", "", "C:"), None);
    assert_eq!(
        heal_user_profile(r"d:\users\old\x", r"D:\Users\me", "D:"),
        Some(r"D:\Users\me\x".to_string())
    );
    assert_eq!(
        heal_user_profile_checked(r"C:\Users\OldName\Saves", r"C:\Users\lrg4you", "C:"),
        Some(r"C:\Users\lrg4you\Saves".to_string())
    );
}

#[test]
fn marker_written_reads_back() {
    let stamp = marker_text(1_000_000);
    assert!(completed_recently(Some(&stamp), Some(1_000_000 + 60 * 60 + 59), 60));
    assert!(!completed_recently(Some(&stamp), Some(1_000_000 + 60 * 60 + 60), 60));
    assert!(completed_recently(Some(&stamp), Some(999_000), 1));
    assert!(!completed_recently(None, Some(5), 1440));
}

#[test]
fn same_leaf_in_two_places_gets_two_keys() {
    let r = roots();
    let a = pair_key(r"D:\GameA\Saves", &r);
    let b = pair_key(r"D:\GameB\Saves", &r);
    assert_ne!(a, b);
    assert!(a.starts_with("Saves_") && b.starts_with("Saves_"));
    assert_eq!(a.len(), "Saves_".len() + 8);
    assert_eq!(pair_key(r"d:\gamea\saves", &r)[6..], a[6..]);
}

#[test]
fn sidecar_is_archive_name_plus_size() {
    let r = roots();
    for (home, src) in [(r"D:\Cloud\LRGEX", r"E:\Games\MySaves"), (r"C:\", r"C:\x"), ("rel", r"\\srv\share\d")] {
        let a = backup_file_for(home, src, &r);
        let s = sidecar_for(home, src, &r);
        assert_eq!(s, format!("{}.size", a));
        assert_ne!(s, a);
    }
}
