use lrgex_restore::gamescan::{is_save_extension_lower, is_save_file};
use lrgex_restore::pathutil::{normalize, normalize_lowered, substitute_first, PathRoots};
use lrgex_restore::sync::{
    has_save_suffix_lower, home_prefix_of, is_skip_dir_name, is_specific_save_lower, save_suffix_name,
    should_skip, specific_save_name,
};

fn lowered_roots() -> PathRoots {
    let known: Vec<Option<String>> = vec![
        Some(r"C:\Users\lrg4you\Saved Games".to_string()),
        Some(r"C:\Users\lrg4you\Documents".to_string()),
        None,
        None,
        None,
        None,
        None,
    ];
    let env: Vec<Option<String>> = vec![
        Some(r"C:\Users\lrg4you\AppData\Local".to_string()),
        Some(r"C:\Users\lrg4you\AppData\Roaming".to_string()),
        Some(r"C:\Users\lrg4you".to_string()),
        None,
        None,
        None,
        None,
    ];
    PathRoots::new(&known, &env)
}

#[test]
fn skip_list_on_lowered_and_raw_names() {
    assert!(is_skip_dir_name("node_modules"));
    assert!(is_skip_dir_name("winsxs"));
    assert!(!is_skip_dir_name("Node_Modules"));
    assert!(!is_skip_dir_name("saves"));
    assert!(should_skip("Node_Modules"));
    assert!(should_skip(".GIT"));
    assert!(!should_skip("Profiles"));
}

#[test]
fn save_names_on_lowered_and_raw_names() {
    assert!(is_specific_save_lower("autosave_3.dat"));
    assert!(!is_specific_save_lower("AutoSave_3.dat"));
    assert!(specific_save_name("AutoSave_3.dat"));
    assert!(specific_save_name("CHECKPOINT1"));
    assert!(!specific_save_name("options.ini"));
    assert!(has_save_suffix_lower("slot1.sav"));
    assert!(!has_save_suffix_lower("slot1.SAV"));
    assert!(save_suffix_name("slot1.SAV"));
    assert!(save_suffix_name("game.Slot"));
    assert!(!save_suffix_name("game.txt"));
}

#[test]
fn save_extensions_on_lowered_and_raw_names() {
    assert!(is_save_extension_lower("rvdata2"));
    assert!(!is_save_extension_lower("RVDATA2"));
    assert!(!is_save_extension_lower("txt"));
    assert!(is_save_file("File1.RVDATA2"));
    assert!(is_save_file("world.Bak"));
    assert!(!is_save_file("README"));
}

#[test]
fn normalize_last_step() {
    assert_eq!(normalize_lowered(r"c:\users\x\\"), r"c:\users\x");
    assert_eq!(normalize_lowered(r"c:\"), r"c:\");
    assert_eq!(normalize_lowered(r"d:\\"), "d:");
    assert_eq!(normalize(r"C:/Users/X/"), r"c:\users\x");
    assert_eq!(normalize(r"D:\"), r"d:\");
}

#[test]
fn one_substitution_uses_the_given_lowercase_form() {
    let roots = lowered_roots();
    let p = r"%KNOWNFOLDER:Documents%\Notes";
    let low = r"%knownfolder:documents%\notes";
    assert_eq!(substitute_first(p, low, &roots), Some(r"C:\Users\lrg4you\Documents\Notes".to_string()));
    assert_eq!(substitute_first(r"%APPDATA%\x", r"%appdata%\x", &roots), Some(r"C:\Users\lrg4you\AppData\Roaming\x".to_string()));
    assert_eq!(substitute_first(r"D:\Games", r"d:\games", &roots), None);
    assert_eq!(substitute_first(r"%KNOWNFOLDER:Music%\x", r"%knownfolder:music%\x", &roots), None);
}

#[test]
fn home_prefix_from_lowered_home() {
    assert_eq!(home_prefix_of(r"c:\lrgex\\"), r"c:\lrgex\");
    assert_eq!(home_prefix_of(r"c:\lrgex"), r"c:\lrgex\");
    assert_eq!(home_prefix_of(""), r"\");
}
