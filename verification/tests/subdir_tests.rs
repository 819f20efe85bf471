use lrgex_restore::gamescan::find_save_subdir;

fn listing_of(tree: &[(&str, Vec<(&str, bool)>)], p: &str) -> Option<Vec<(String, bool)>> {
    for (dir, entries) in tree {
        if *dir == p {
            return Some(entries.iter().map(|(n, d)| (n.to_string(), *d)).collect());
        }
    }
    None
}

#[test]
fn save_folder_found_below_install_folder() {
    let tree = vec![
        (r"C:\Games\Foo", vec![("readme.txt", false), ("BmGame", true)]),
        (r"C:\Games\Foo\BmGame", vec![("Binaries", true), ("SaveData", true)]),
        (r"C:\Games\Foo\BmGame\Binaries", vec![]),
    ];
    let r = find_save_subdir(r"C:\Games\Foo", |p: &str| listing_of(&tree, p), |p: &str| {
        p == r"C:\Games\Foo\BmGame\SaveData"
    });
    assert_eq!(r, Some(r"C:\Games\Foo\BmGame\SaveData".to_string()));
}

#[test]
fn direct_children_come_before_deeper_ones() {
    let tree = vec![
        (r"C:\Games\Foo", vec![("a", true), ("save", true)]),
        (r"C:\Games\Foo\a", vec![("saves", true)]),
    ];
    let r = find_save_subdir(r"C:\Games\Foo", |p: &str| listing_of(&tree, p), |_p: &str| true);
    assert_eq!(r, Some(r"C:\Games\Foo\save".to_string()));
}

#[test]
fn empty_save_folder_and_skipped_names_give_nothing() {
    let tree = vec![
        (r"C:\Games\Foo", vec![("save", true), ("node_modules", true)]),
        (r"C:\Games\Foo\node_modules", vec![("saves", true)]),
        (r"C:\Games\Foo\save", vec![]),
    ];
    let r = find_save_subdir(r"C:\Games\Foo", |p: &str| listing_of(&tree, p), |p: &str| {
        p != r"C:\Games\Foo\save"
    });
    assert_eq!(r, None);
    assert_eq!(find_save_subdir(r"C:\Games\Foo", |_p: &str| None, |_p: &str| true), None);
}

#[test]
fn search_stops_below_third_level() {
    let deep = vec![
        (r"C:\G", vec![("l1", true)]),
        (r"C:\G\l1", vec![("l2", true)]),
        (r"C:\G\l1\l2", vec![("l3", true)]),
        (r"C:\G\l1\l2\l3", vec![("save", true)]),
    ];
    let r = find_save_subdir(r"C:\G", |p: &str| listing_of(&deep, p), |_p: &str| true);
    assert_eq!(r, Some(r"C:\G\l1\l2\l3\save".to_string()));
    let deeper = vec![
        (r"C:\G", vec![("l1", true)]),
        (r"C:\G\l1", vec![("l2", true)]),
        (r"C:\G\l1\l2", vec![("l3", true)]),
        (r"C:\G\l1\l2\l3", vec![("l4", true)]),
        (r"C:\G\l1\l2\l3\l4", vec![("save", true)]),
    ];
    let r = find_save_subdir(r"C:\G", |p: &str| listing_of(&deeper, p), |_p: &str| true);
    assert_eq!(r, None);
}

#[test]
fn search_lists_at_most_sixty_one_folders() {
    let names: Vec<String> = (0..70).map(|i| format!("d{}", i)).collect();
    for (target, expect) in [(59usize, true), (60usize, false)] {
        let target_dir = format!(r"C:\G\d{}", target);
        let names2 = names.clone();
        let list = move |p: &str| -> Option<Vec<(String, bool)>> {
            if p == r"C:\G" {
                Some(names2.iter().map(|n| (n.clone(), true)).collect())
            } else if p == target_dir {
                Some(vec![("save".to_string(), true)])
            } else {
                Some(vec![])
            }
        };
        let r = find_save_subdir(r"C:\G", list, |_p: &str| true);
        assert_eq!(r.is_some(), expect);
    }
}
