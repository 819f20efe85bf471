use lrgex_restore::config::{fnv1a_hex, safe_filename};
use lrgex_restore::gamescan::{cap_found_saves, has_save_files, is_game_path, offer_found_save, protection_level, FoundSave};
use lrgex_restore::sync::{should_skip, walk_totals, FileEnt};
use lrgex_restore::synclog::Progress;

#[test]
fn reserved_names_in_any_ascii_case() {
    assert_eq!(safe_filename("CoN"), "CoN_lrgex");
    assert_eq!(safe_filename("Nul.txt"), "Nul.txt_lrgex");
    assert!(is_game_path(r"D:\Games\X\SAVEGAMES"));
    assert!(is_game_path("D:/Games/X/SaveGames"));
}

#[test]
fn ticks_add_files_and_bytes() {
    let mut p = Progress::new("x");
    p.tick(10);
    p.tick(0);
    p.tick(u64::MAX);
    assert_eq!(p.files_done, 3);
    assert_eq!(p.bytes_done, 9);
    assert_eq!(p.label, "x");
}

#[test]
fn walk_totals_count_and_sum() {
    let files = vec![
        FileEnt { path: r"C:\a\1".to_string(), rel: "1".to_string(), size: 5, mtime: 0 },
        FileEnt { path: r"C:\a\2".to_string(), rel: "2".to_string(), size: 7, mtime: 0 },
    ];
    assert_eq!(walk_totals(&files), (12, 2));
    assert_eq!(walk_totals(&Vec::new()), (0, 0));
}

#[test]
fn offers_are_distinct_and_capped() {
    let existing = vec![r"C:\Users\X\Documents\Protected".to_string()];
    let mut out: Vec<FoundSave> = Vec::new();
    offer_found_save(&mut out, &existing, r"D:\Steam\userdata\1\2\remote", "a");
    offer_found_save(&mut out, &existing, r"D:\Steam\userdata\5\6\remote", "b");
    offer_found_save(&mut out, &existing, r"C:\Users\X\Documents\Protected\Game\save", "c");
    assert_eq!(out.len(), 1);
    assert_eq!(out[0].protect, r"D:\Steam\userdata");
    for i in 0..30 {
        offer_found_save(&mut out, &existing, &format!(r"E:\G{}\saves", i), "d");
    }
    cap_found_saves(&mut out);
    assert_eq!(out.len(), 20);
}

#[test]
fn direct_save_file_and_unreadable_folder() {
    let list = |p: &str| -> Option<Vec<(String, bool)>> {
        if p == r"C:\G" {
            Some(vec![("sub".to_string(), true), ("slot.SAV".to_string(), false)])
        } else {
            Some(vec![("x.txt".to_string(), false)])
        }
    };
    assert!(has_save_files(r"C:\G", list));
    assert!(!has_save_files(r"C:\G", |_p: &str| None));
}

#[test]
fn slash_style_does_not_change_game_path_answer() {
    for p in [
        r"C:\Games\Batman - Arkham Knight\BmGame\SaveData",
        r"D:\Steam\userdata\123\208650\remote",
        r"C:\Users\X\Documents\homework",
        r"E:\Games\RPG\www\save",
        r"\\server\share\1234\saves",
    ] {
        assert_eq!(is_game_path(p), is_game_path(&p.replace('\\', "/")));
    }
    assert!(is_game_path(r"X:\a\b\c\d\e\SaveGame"));
}

#[test]
fn protection_level_is_an_ancestor_and_stable() {
    for (p, want) in [
        (r"C:\Steam\userdata\12345\208650\remote", r"C:\Steam\userdata"),
        ("C:/Steam//userdata/./12345/x", r"C:\Steam\userdata"),
        (r"\\server\share\7\saves", r"\\server\share\"),
        (r"rel\dir\42", r"rel\dir"),
        (r".\a\9", r".\a"),
        (r"C:\Games\Batman\BmGame\SaveData", r"C:\Games\Batman\BmGame\SaveData"),
        (r"\\?\C:\Games\12\x", r"\\?\C:\Games"),
        (r"\\?\UNC\srv\share\a\3", r"\\?\UNC\srv\share\a"),
    ] {
        let r = protection_level(p);
        assert_eq!(r, want);
        assert_eq!(protection_level(&r), r);
    }
}

#[test]
fn ascii_case_does_not_matter() {
    for p in [
        r"C:\Games\Batman - Arkham Knight\BmGame\SaveData",
        r"D:\Steam\userdata\123\208650\remote",
        r"C:\Users\X\Documents\homework",
        r"E:\Games\RPG\www\save",
    ] {
        assert_eq!(is_game_path(p), is_game_path(&p.to_ascii_uppercase()));
        assert_eq!(is_game_path(p), is_game_path(&p.to_ascii_lowercase()));
    }
    assert!(should_skip("NODE_MODULES"));
    assert!(should_skip("Target"));
    assert!(!should_skip("Saves"));
    assert_eq!(fnv1a_hex(r"C:\Games\ABC"), fnv1a_hex(r"c:\games\abc"));
    assert_eq!(safe_filename("lPt3"), "lPt3_lrgex");
}
