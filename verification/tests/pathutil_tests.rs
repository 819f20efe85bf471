use lrgex_restore::pathutil::{contract, expand, has_one_percent_at_most, normalize, PathRoots};

fn roots() -> PathRoots {
    let known: Vec<Option<String>> = vec![
        Some(r"C:\Users\lrg4you\Saved Games".to_string()),
        Some(r"C:\Users\lrg4you\Documents".to_string()),
        Some(r"C:\Users\lrg4you\Desktop".to_string()),
        Some(r"C:\Users\lrg4you\Downloads".to_string()),
        Some(r"C:\Users\lrg4you\Pictures".to_string()),
        Some(r"C:\Users\lrg4you\Music".to_string()),
        Some(r"C:\Users\lrg4you\Videos".to_string()),
    ];
    let env: Vec<Option<String>> = vec![
        Some(r"C:\Users\lrg4you\AppData\Local".to_string()),
        Some(r"C:\Users\lrg4you\AppData\Roaming".to_string()),
        Some(r"C:\Users\lrg4you".to_string()),
        Some(r"C:\Program Files (x86)".to_string()),
        Some(r"C:\Program Files".to_string()),
        Some(r"C:\ProgramData".to_string()),
        Some(r"C:\Users\Public".to_string()),
    ];
    PathRoots::new(&known, &env)
}

#[test]
fn test_real_folders() {
    let r = roots();
    let real_paths = vec![
        r"C:\Users\lrg4you\Saved Games",
        r"C:\Users\lrg4you\AppData\Local\hermes",
        r"C:\Users\lrg4you\AppData\Roaming\GSE Saves",
        r"C:\Program Files\Nilesoft Shell\imports",
        r"C:\Users\lrg4you\.pi",
    ];
    for path in real_paths {
        let contracted = contract(path, &r);
        let expanded = expand(&contracted, &r);
        let match_ok = path.to_lowercase() == expanded.to_lowercase();
        assert!(match_ok, "Round-trip failed for {}: got {}", path, expanded);
    }
}

#[test]
fn test_env_vars_contract() {
    let r = roots();
    let local = r"C:\Users\lrg4you\AppData\Local".to_string();
    let roaming = r"C:\Users\lrg4you\AppData\Roaming".to_string();
    assert_eq!(contract(&(local + r"\hermes"), &r), r"%LOCALAPPDATA%\hermes");
    assert_eq!(contract(&(roaming + r"\GSE Saves"), &r), r"%APPDATA%\GSE Saves");
}

#[test]
fn test_known_folder_savedgames() {
    let contracted = contract(r"C:\Users\lrg4you\Saved Games", &roots());
    assert!(contracted.starts_with("%KNOWNFOLDER:") || contracted.contains("Saved Games"));
    assert_eq!(contracted, "%KNOWNFOLDER:SavedGames%");
}

#[test]
fn test_programfiles() {
    let pf = r"C:\Program Files";
    let path = format!(r"{}\Nilesoft Shell\imports", pf);
    let contracted = contract(&path, &roots());
    assert!(contracted.starts_with("%PROGRAMFILES%") || contracted.starts_with("%ProgramFiles"));
}

#[test]
fn test_custom_drive_unchanged() {
    assert_eq!(contract(r"D:\Games\Saves", &roots()), r"D:\Games\Saves");
}

#[test]
fn test_unc_unchanged() {
    assert_eq!(contract(r"\NAS\Games\Saves", &roots()), r"\NAS\Games\Saves");
}

#[test]
fn test_boundary_awareness() {
    let up = r"C:\Users\lrg4you";
    let fake = format!("{}XYZ", up);
    let contracted = contract(&fake, &roots());
    assert!(!contracted.starts_with("%USERPROFILE%XYZ"), "Boundary failed: {}", contracted);
}

#[test]
fn test_case_insensitive() {
    let contracted = contract(r"c:\users\lrg4you\AppData\Local\hermes", &roots());
    assert!(contracted.starts_with("%LOCALAPPDATA%"), "Case-insensitive failed: {}", contracted);
}

#[test]
fn test_longest_prefix() {
    let path = r"C:\Users\lrg4you\AppData\Local".to_string() + r"\test";
    let contracted = contract(&path, &roots());
    assert!(contracted.starts_with("%LOCALAPPDATA%"), "Should prefer %LOCALAPPDATA%: {}", contracted);
}

#[test]
fn test_expand_no_tokens() {
    assert_eq!(expand(r"D:\Games\Saves", &roots()), r"D:\Games\Saves");
}

#[test]
fn test_forward_slashes() {
    let local = r"C:\Users\lrg4you\AppData\Local".replace(r"\", "/");
    let path = format!("{}/hermes", local);
    let contracted = contract(&path, &roots());
    assert!(contracted.starts_with("%LOCALAPPDATA%"), "Forward slash failed: {}", contracted);
}

#[test]
fn test_expand_tokens_case_insensitive_and_nested() {
    let r = roots();
    assert_eq!(expand(r"%appdata%\Foo", &r), r"C:\Users\lrg4you\AppData\Roaming\Foo");
    assert_eq!(expand(r"%KNOWNFOLDER:SavedGames%\x", &r), r"C:\Users\lrg4you\Saved Games\x");
    assert_eq!(expand(r"%NOPE%\x", &r), r"%NOPE%\x");
}

#[test]
fn test_contract_is_idempotent_on_tokens() {
    let r = roots();
    let once = contract(r"C:\Users\lrg4you\AppData\Local\hermes", &r);
    assert_eq!(contract(&once, &r), once);
}

#[test]
fn test_normalize_forms() {
    assert_eq!(normalize(r"C:/Users/X/"), r"c:\users\x");
    assert_eq!(normalize(r"C:\"), r"c:\");
}

#[test]
fn test_missing_roots_are_skipped() {
    let known: Vec<Option<String>> = vec![None; 7];
    let mut env: Vec<Option<String>> = vec![None; 7];
    env[2] = Some(r"C:\Users\Bob".to_string());
    let r = PathRoots::new(&known, &env);
    assert_eq!(contract(r"C:\Users\Bob\x", &r), r"%USERPROFILE%\x");
    assert_eq!(expand(r"%APPDATA%\x", &r), r"%APPDATA%\x");
}

#[test]
fn value_with_one_percent_is_accepted() {
    assert!(has_one_percent_at_most(r"C:\Users\100%"));
    assert!(has_one_percent_at_most(r"C:\Users\Bob"));
    assert!(!has_one_percent_at_most("%USERPROFILE%"));
    let known: Vec<Option<String>> = vec![None; 7];
    let mut env: Vec<Option<String>> = vec![None; 7];
    env[2] = Some(r"C:\Users\100%".to_string());
    let r = PathRoots::new(&known, &env);
    assert_eq!(expand(r"%USERPROFILE%\x", &r), r"C:\Users\100%\x");
}

#[test]
fn round_trip_up_to_ascii_case() {
    let r = roots();
    for path in [
        r"c:\users\LRG4YOU\AppData\Local\Hermes\Save1",
        r"C:\USERS\lrg4you",
        r"C:\Program Files (x86)\Game\saves",
        r"C:\ProgramData\X",
    ] {
        let contracted = contract(path, &r);
        assert!(contracted.starts_with('%'));
        let expanded = expand(&contracted, &r);
        assert_eq!(expanded.to_ascii_lowercase(), path.to_ascii_lowercase());
    }
}
