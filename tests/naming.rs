use project_panel::entry::{split_path_text, Entry, EntryKind};
use project_panel::expanded::ExpandedDirs;
use project_panel::naming::{decimal_string, make_copy_name, paste_destination, split_extension};
use project_panel::sort_key::{key_le, make_path_key};
use project_panel::worktree::Worktree;

fn dir_with(names: &[&str]) -> Worktree {
    let mut entries = vec![Entry { id: 1, kind: EntryKind::Dir, path: Vec::new(), is_ignored: false, git_status: None }];
    for (n, name) in names.iter().enumerate() {
        entries.push(Entry {
            id: 2 + n as u64,
            kind: EntryKind::File,
            path: vec![name.to_string()],
            is_ignored: false,
            git_status: None,
        });
    }
    Worktree { id: 1, root_name: "r".to_string(), abs_path: "/r".to_string(), entries }
}

#[test]
fn decimal_digits() {
    assert_eq!(decimal_string(0), "0");
    assert_eq!(decimal_string(7), "7");
    assert_eq!(decimal_string(10), "10");
    assert_eq!(decimal_string(1234567890), "1234567890");
    assert_eq!(decimal_string(u64::MAX), "18446744073709551615");
}

#[test]
fn stems_and_extensions() {
    assert_eq!(split_extension("one.two.txt"), ("one.two".to_string(), Some("txt".to_string())));
    assert_eq!(split_extension(".dockerignore"), (".dockerignore".to_string(), None));
    assert_eq!(split_extension("Makefile"), ("Makefile".to_string(), None));
    assert_eq!(split_extension("archive."), ("archive".to_string(), Some(String::new())));
    assert_eq!(split_extension(".."), ("..".to_string(), None));
    assert_eq!(split_extension(".a.b"), (".a".to_string(), Some("b".to_string())));
}

#[test]
fn copy_names() {
    assert_eq!(make_copy_name(&"one.two".to_string(), &Some("txt".to_string()), 0), "one.two copy.txt");
    assert_eq!(make_copy_name(&"one.two".to_string(), &Some("txt".to_string()), 3), "one.two copy 3.txt");
    assert_eq!(make_copy_name(&"notes".to_string(), &None, 12), "notes copy 12");
}

#[test]
fn free_name_is_kept() {
    let w = dir_with(&["other.txt"]);
    assert_eq!(paste_destination(&w, &Vec::new(), &"a.txt".to_string()), "a.txt");
}

#[test]
fn paste_picks_the_next_copy_number() {
    let w = dir_with(&["name.rs", "name copy.rs", "name copy 1.rs", "name copy 2.rs"]);
    assert_eq!(paste_destination(&w, &Vec::new(), &"name.rs".to_string()), "name copy 3.rs");
    let w = dir_with(&["name.rs"]);
    assert_eq!(paste_destination(&w, &Vec::new(), &"name.rs".to_string()), "name copy.rs");
}

#[test]
fn repeated_pastes_give_distinct_names() {
    let mut names = vec!["one.two.txt".to_string(), "one.txt".to_string()];
    let mut got = Vec::new();
    for _ in 0..5 {
        let refs: Vec<&str> = names.iter().map(|s| s.as_str()).collect();
        let w = dir_with(&refs);
        let d = paste_destination(&w, &Vec::new(), &"one.two.txt".to_string());
        assert!(!names.contains(&d));
        got.push(d.clone());
        names.push(d);
    }
    assert_eq!(
        got,
        vec!["one.two copy.txt", "one.two copy 1.txt", "one.two copy 2.txt", "one.two copy 3.txt", "one.two copy 4.txt"]
    );
}

#[test]
fn typed_paths_split_on_separators() {
    assert_eq!(split_path_text("/bdir1/dir2/the-new-filename"), vec!["bdir1", "dir2", "the-new-filename"]);
    assert_eq!(split_path_text("a//b/"), vec!["a", "b"]);
    assert!(split_path_text("").is_empty());
}

#[test]
fn keys_order_case_insensitively() {
    let upper = make_path_key(&vec!["B".to_string()], false, false);
    let lower = make_path_key(&vec!["a".to_string()], false, false);
    assert!(key_le(&lower, &upper));
    assert!(!key_le(&upper, &lower));
    let same_a = make_path_key(&vec!["Readme".to_string()], true, false);
    let same_b = make_path_key(&vec!["README".to_string()], true, false);
    assert!(key_le(&same_a, &same_b) && key_le(&same_b, &same_a));
    let dir = make_path_key(&vec!["z".to_string()], false, false);
    let file = make_path_key(&vec!["a".to_string()], true, false);
    assert!(key_le(&dir, &file));
    assert!(!key_le(&file, &dir));
}

#[test]
fn expansion_table_insert_remove() {
    let mut t = ExpandedDirs::new(1, Some(5));
    assert!(t.insert(3));
    assert!(t.insert(9));
    assert!(!t.insert(5));
    assert_eq!(t.ids, vec![3, 5, 9]);
    assert!(t.contains(9));
    assert!(t.remove(5));
    assert!(!t.remove(5));
    assert_eq!(t.ids, vec![3, 9]);
    assert_eq!(t.binary_search(4), Err(1));
    t.clear();
    assert!(t.ids.is_empty());
}
