use lrgex_restore::gamescan::{
    cap_found_saves, is_game_path, is_save_file, offer_found_save, protection_level, same_path_components,
    segments, vdf_library_paths, FoundSave,
};
use lrgex_restore::gamescan::{has_save_files, SaveFileSearch, SearchStep};

#[test]
fn test_friend_batman_paths() {
    assert!(is_game_path(r"C:\Users\pCd\Documents\WB Games\Batman Arkham Knight\208650\SaveData\backup"));
    assert!(is_game_path(r"C:\Games\Batman - Arkham Knight\BmGame\SaveData"));
}

#[test]
fn test_game_path_shapes() {
    assert!(is_game_path(r"C:\Users\X\Documents\My Games\Some Game"));
    assert!(is_game_path(r"D:\Steam\userdata\123\208650\remote"));
    assert!(is_game_path(r"E:\Games\Weird\save"));
    assert!(is_game_path(r"C:\Anything\Saved Games"));
    assert!(!is_game_path(r"C:\Users\X\Documents\homework"));
    assert!(!is_game_path(r"C:\Program Files\App\logs"));
    assert!(!is_game_path(""));
}

#[test]
fn test_protection_level_numeric_walkup() {
    let p = protection_level(r"C:\Steam\userdata\12345\208650\remote");
    assert_eq!(p, r"C:\Steam\userdata");
    let p = protection_level(r"C:\Docs\WB Games\Batman Arkham Knight\313100\SaveData");
    assert_eq!(p, r"C:\Docs\WB Games\Batman Arkham Knight");
    let p = protection_level(r"C:\Games\Batman\BmGame\SaveData");
    assert_eq!(p, r"C:\Games\Batman\BmGame\SaveData");
    let p = protection_level(r"C:\Users\X\Saved Games");
    assert_eq!(p, r"C:\Users\X\Saved Games");
}

#[test]
fn test_discovery_overlap_exclusion() {
    let existing = vec![r"C:\Users\X\Documents\My Games".to_string()];
    let mut out: Vec<FoundSave> = Vec::new();
    let protect = protection_level(r"C:\Users\X\Documents\My Games\Cyberpunk");
    let pl = protect.to_lowercase();
    assert!(pl.starts_with(r"c:\users\x\documents\my games"));
    offer_found_save(&mut out, &existing, r"C:\Users\X\Documents\My Games\Cyberpunk", "Documents/My Games");
    assert!(out.is_empty());
}

#[test]
fn test_offer_found_save_rules() {
    let existing = vec![r"D:\Protected\".to_string()];
    let mut out: Vec<FoundSave> = Vec::new();
    offer_found_save(&mut out, &existing, r"C:\Steam\userdata\12345\208650\remote", "steam");
    assert_eq!(out.len(), 1);
    assert_eq!(out[0].protect, r"C:\Steam\userdata");
    assert_eq!(out[0].found, r"C:\Steam\userdata\12345\208650\remote");
    assert_eq!(out[0].reason, "steam");
    // Same protection level (case of the drive letter aside): not offered twice.
    offer_found_save(&mut out, &existing, r"c:\Steam\userdata\999\remote", "steam");
    assert_eq!(out.len(), 1);
    // Containing an existing protected folder: excluded.
    offer_found_save(&mut out, &existing, r"D:\", "root");
    assert_eq!(out.len(), 1);
    // Equal to an existing folder, other separators and case: excluded.
    offer_found_save(&mut out, &existing, r"d:/protected", "same");
    assert_eq!(out.len(), 1);
    offer_found_save(&mut out, &existing, r"D:\ProtectedOther", "sibling");
    assert_eq!(out.len(), 2);
}

#[test]
fn test_path_component_equality() {
    assert!(same_path_components(r"C:\a\b", r"c:/a//b/"));
    assert!(same_path_components(r"\\srv\share\x", r"//srv/share/x"));
    assert!(!same_path_components(r"C:\a\b", r"C:\a\B"));
    assert!(!same_path_components(r"C:a", r"C:\a"));
}

#[test]
fn test_cap_found_saves() {
    let mut v: Vec<FoundSave> = (0..25)
        .map(|i| FoundSave { protect: format!("P{}", i), found: String::new(), reason: String::new() })
        .collect();
    cap_found_saves(&mut v);
    assert_eq!(v.len(), 20);
    assert_eq!(v[19].protect, "P19");
}

#[test]
fn test_segments_lowercase_nonempty() {
    let s = segments(r"C:\Users//X\My Games\");
    assert_eq!(s, vec!["c:", "users", "x", "my games"]);
}

#[test]
fn test_save_file_extensions() {
    assert!(is_save_file("slot1.SAV"));
    assert!(is_save_file("a.rvdata2"));
    assert!(!is_save_file(".sav"));
    assert!(!is_save_file("save"));
    assert!(!is_save_file("notes.txt"));
}

#[test]
fn test_vdf_library_paths() {
    let text = "\"libraryfolders\"\r\n{\r\n\t\"0\"\r\n\t{\r\n\t\t\"path\"\t\t\"C:\\\\Program Files (x86)\\\\Steam\"\r\n\t}\r\n\t\"1\"\r\n\t{\r\n\t\t\"path\"\t\t\"D:\\\\SteamLibrary\"\n\t}\n}\n";
    let libs = vdf_library_paths(text);
    assert_eq!(libs, vec![r"C:\Program Files (x86)\Steam".to_string(), r"D:\SteamLibrary".to_string()]);
    assert!(vdf_library_paths("\"path\" \"x").is_empty());
}

/// Runs the save-file search over a folder tree given as listings.
fn search_saves(tree: &[(&str, &[(&str, bool)])], root: &str) -> (bool, usize) {
    let list = |p: &str| -> Option<Vec<(String, bool)>> {
        tree.iter().find(|(d, _)| *d == p).map(|(_, es)| es.iter().map(|(n, d)| (n.to_string(), *d)).collect())
    };
    let (mut s, mut step) = SaveFileSearch::start(root);
    let mut lists = 0usize;
    loop {
        match step {
            SearchStep::Done(b) => return (b, lists),
            SearchStep::Continue => {}
            SearchStep::List(p) => {
                lists += 1;
                let l = list(&p);
                s.enter(p, l);
            }
        }
        step = s.step();
    }
}

#[test]
fn save_search_finds_nested_save_file() {
    let tree: &[(&str, &[(&str, bool)])] = &[
        (r"C:\G", &[("readme.txt", false), ("data", true)]),
        (r"C:\G\data", &[("slot1.SAV", false)]),
    ];
    assert_eq!(search_saves(tree, r"C:\G"), (true, 2));
}

#[test]
fn save_search_skips_listed_folders_and_unreadable_ones() {
    let tree: &[(&str, &[(&str, bool)])] = &[
        (r"C:\G", &[("Node_Modules", true), ("other", true), ("x.txt", false)]),
        (r"C:\G\Node_Modules", &[("a.sav", false)]),
    ];
    assert_eq!(search_saves(tree, r"C:\G"), (false, 2));
}

#[test]
fn save_search_reads_a_bounded_number_of_folders() {
    let names: Vec<String> = (0..60).map(|i| format!("d{}", i)).collect();
    let entries: Vec<(&str, bool)> = names.iter().map(|n| (n.as_str(), true)).collect();
    let tree: &[(&str, &[(&str, bool)])] = &[(r"C:\G", &entries)];
    let (found, lists) = search_saves(tree, r"C:\G");
    assert!(!found);
    assert_eq!(lists, 41);
}

/// The listing of a folder in a tree given as listings, counting the calls.
fn tree_listing<'a>(
    tree: &'a [(&'a str, &'a [(&'a str, bool)])],
    calls: &'a std::cell::Cell<usize>,
) -> impl Fn(&str) -> Option<Vec<(String, bool)>> + 'a {
    move |p: &str| {
        calls.set(calls.get() + 1);
        tree.iter().find(|(d, _)| *d == p).map(|(_, es)| es.iter().map(|(n, d)| (n.to_string(), *d)).collect())
    }
}

#[test]
fn has_save_files_searches_below_the_folder() {
    let tree: &[(&str, &[(&str, bool)])] = &[
        (r"C:\G", &[("readme.txt", false), ("data", true)]),
        (r"C:\G\data", &[("slot1.SAV", false)]),
    ];
    let calls = std::cell::Cell::new(0usize);
    assert!(has_save_files(r"C:\G", tree_listing(tree, &calls)));
    assert_eq!(calls.get(), 2);
}

#[test]
fn has_save_files_passes_over_skipped_and_unreadable_folders() {
    let tree: &[(&str, &[(&str, bool)])] = &[
        (r"C:\G", &[("Node_Modules", true), ("other", true), ("x.txt", false)]),
        (r"C:\G\Node_Modules", &[("a.sav", false)]),
    ];
    let calls = std::cell::Cell::new(0usize);
    assert!(!has_save_files(r"C:\G", tree_listing(tree, &calls)));
    assert_eq!(calls.get(), 2);
    assert!(!has_save_files(r"C:\Missing", |_p: &str| None));
}

#[test]
fn has_save_files_reads_at_most_41_folders() {
    let names: Vec<String> = (0..60).map(|i| format!("d{}", i)).collect();
    let entries: Vec<(&str, bool)> = names.iter().map(|n| (n.as_str(), true)).collect();
    let tree: &[(&str, &[(&str, bool)])] = &[(r"C:\G", &entries)];
    let calls = std::cell::Cell::new(0usize);
    assert!(!has_save_files(r"C:\G", tree_listing(tree, &calls)));
    assert_eq!(calls.get(), 41);
}
