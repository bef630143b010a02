use project_panel::entry::{Entry, EntryKind, GitFileStatus, NEW_ENTRY_ID};
use project_panel::commands::{delete_confirmed, ContextMenuItem};
use project_panel::editing::EditRequest;
use project_panel::panel::{Event, ProjectPanel, Selection};
use project_panel::worktree::Worktree;

fn path_of(p: &str) -> Vec<String> {
    p.split('/').filter(|s| !s.is_empty()).map(|s| s.to_string()).collect()
}

/// A tree whose root is a directory; each listed path ending in '/' is a
/// directory. Ids are given in order from `first_id`.
fn tree(id: u64, root_name: &str, first_id: u64, paths: &[&str]) -> Worktree {
    let mut entries = vec![Entry {
        id: first_id,
        kind: EntryKind::Dir,
        path: Vec::new(),
        is_ignored: false,
        git_status: None,
    }];
    for (n, p) in paths.iter().enumerate() {
        entries.push(Entry {
            id: first_id + 1 + n as u64,
            kind: if p.ends_with('/') { EntryKind::Dir } else { EntryKind::File },
            path: path_of(p),
            is_ignored: false,
            git_status: None,
        });
    }
    Worktree {
        id,
        root_name: root_name.to_string(),
        abs_path: format!("/{}", root_name),
        entries,
    }
}

fn add_entry_to(panel: &mut ProjectPanel, tree_ix: usize, id: u64, p: &str, is_dir: bool) {
    let mut trees: Vec<Worktree> = panel
        .worktrees
        .iter()
        .map(|w| Worktree {
            id: w.id,
            root_name: w.root_name.clone(),
            abs_path: w.abs_path.clone(),
            entries: w.entries.clone(),
        })
        .collect();
    trees[tree_ix].entries.push(Entry {
        id,
        kind: if is_dir { EntryKind::Dir } else { EntryKind::File },
        path: path_of(p),
        is_ignored: false,
        git_status: None,
    });
    panel.set_worktrees(trees);
}

fn entry_id_for(panel: &ProjectPanel, full: &str) -> (u64, u64) {
    for w in &panel.worktrees {
        if full == w.root_name || full.starts_with(&format!("{}/", w.root_name)) {
            let rel = path_of(&full[w.root_name.len()..]);
            let e = w.entries.iter().find(|e| e.path == rel).expect("no entry");
            return (w.id, e.id);
        }
    }
    panic!("no worktree for path {:?}", full);
}

fn toggle_expand_dir(panel: &mut ProjectPanel, full: &str) {
    let (_, id) = entry_id_for(panel, full);
    panel.toggle_expanded(id);
}

fn select_path(panel: &mut ProjectPanel, full: &str) {
    let (worktree_id, entry_id) = entry_id_for(panel, full);
    panel.selection = Some(Selection { worktree_id, entry_id });
}

fn visible_entries_as_strings(panel: &ProjectPanel, start: usize, end: usize) -> Vec<String> {
    let mut result = Vec::new();
    for (_, details) in panel.visible_entry_details(start, end, false) {
        let indent = "    ".repeat(details.depth);
        let icon = if details.kind == EntryKind::Dir {
            if details.is_expanded { "v " } else { "> " }
        } else {
            "  "
        };
        let name = if details.is_editing {
            format!("[EDITOR: '{}']", details.filename)
        } else if details.is_processing {
            format!("[PROCESSING: '{}']", details.filename)
        } else {
            details.filename.clone()
        };
        let selected = if details.is_selected { "  <== selected" } else { "" };
        result.push(format!("{indent}{icon}{name}{selected}"));
    }
    result
}

fn two_roots() -> ProjectPanel {
    let root1 = tree(1, "root1", 100, &[
        ".dockerignore", ".git/", ".git/HEAD", "a/", "a/0/", "a/0/q", "a/0/r", "a/0/s", "a/1/", "a/1/t",
        "a/1/u", "a/2/", "a/2/v", "a/2/w", "a/2/x", "a/2/y", "b/", "b/3/", "b/3/Q", "b/4/", "b/4/R",
        "b/4/S", "b/4/T", "b/4/U", "C/", "C/5/", "C/6/", "C/6/V", "C/6/W", "C/7/", "C/7/X", "C/8/",
        "C/8/Y/", "C/8/Z",
    ]);
    let root2 = tree(2, "root2", 200, &["d/", "d/9", "e/"]);
    ProjectPanel::new(vec![root1, root2])
}

#[test]
fn test_visible_list() {
    let mut panel = two_roots();
    assert_eq!(
        visible_entries_as_strings(&panel, 0, 50),
        &[
            "v root1",
            "    > .git",
            "    > a",
            "    > b",
            "    > C",
            "      .dockerignore",
            "v root2",
            "    > d",
            "    > e",
        ]
    );

    toggle_expand_dir(&mut panel, "root1/b");
    assert_eq!(
        visible_entries_as_strings(&panel, 0, 50),
        &[
            "v root1",
            "    > .git",
            "    > a",
            "    v b  <== selected",
            "        > 3",
            "        > 4",
            "    > C",
            "      .dockerignore",
            "v root2",
            "    > d",
            "    > e",
        ]
    );

    assert_eq!(
        visible_entries_as_strings(&panel, 6, 9),
        &["    > C", "      .dockerignore", "v root2"]
    );
}

#[test]
fn test_copy_paste() {
    let mut panel = ProjectPanel::new(vec![tree(1, "root1", 10, &["one.two.txt", "one.txt"])]);
    panel.select_next();
    panel.select_next();
    assert_eq!(
        visible_entries_as_strings(&panel, 0, 50),
        &["v root1", "      one.two.txt  <== selected", "      one.txt"]
    );

    panel.copy();
    let paste = panel.paste().expect("paste");
    assert!(!paste.is_cut);
    assert_eq!(paste.new_path, vec!["one.two copy.txt".to_string()]);
    add_entry_to(&mut panel, 0, 20, "one.two copy.txt", false);
    assert_eq!(
        visible_entries_as_strings(&panel, 0, 50),
        &[
            "v root1",
            "      one.two copy.txt",
            "      one.two.txt  <== selected",
            "      one.txt",
        ]
    );

    let paste = panel.paste().expect("paste");
    assert_eq!(paste.new_path, vec!["one.two copy 1.txt".to_string()]);
    add_entry_to(&mut panel, 0, 21, "one.two copy 1.txt", false);
    assert_eq!(
        visible_entries_as_strings(&panel, 0, 50),
        &[
            "v root1",
            "      one.two copy 1.txt",
            "      one.two copy.txt",
            "      one.two.txt  <== selected",
            "      one.txt",
        ]
    );
}

#[test]
fn test_adding_directories_via_file() {
    let mut panel = two_roots();
    select_path(&mut panel, "root1");
    assert_eq!(
        visible_entries_as_strings(&panel, 0, 10),
        &[
            "v root1  <== selected",
            "    > .git",
            "    > a",
            "    > b",
            "    > C",
            "      .dockerignore",
            "v root2",
            "    > d",
            "    > e",
        ]
    );

    assert!(panel.new_file());
    assert_eq!(
        visible_entries_as_strings(&panel, 0, 10),
        &[
            "v root1",
            "    > .git",
            "    > a",
            "    > b",
            "    > C",
            "      [EDITOR: '']  <== selected",
            "      .dockerignore",
            "v root2",
            "    > d",
            "    > e",
        ]
    );

    let pending = panel.confirm_edit("/bdir1/dir2/the-new-filename").unwrap();
    assert_eq!(
        visible_entries_as_strings(&panel, 0, 10),
        &[
            "v root1",
            "    > .git",
            "    > a",
            "    > b",
            "    > C",
            "      [PROCESSING: '/bdir1/dir2/the-new-filename']  <== selected",
            "      .dockerignore",
            "v root2",
            "    > d",
            "    > e",
        ]
    );
    match &pending.request {
        EditRequest::Create { worktree_id, path, is_dir } => {
            assert_eq!(*worktree_id, 1);
            assert_eq!(path, &path_of("bdir1/dir2/the-new-filename"));
            assert!(!is_dir);
        }
        EditRequest::Rename { .. } => panic!("expected a creation"),
    }

    add_entry_to(&mut panel, 0, 500, "bdir1", true);
    add_entry_to(&mut panel, 0, 501, "bdir1/dir2", true);
    add_entry_to(&mut panel, 0, 502, "bdir1/dir2/the-new-filename", false);
    let event = panel.finish_edit(&pending, Some(502));
    assert!(matches!(event, Some(Event::OpenedEntry { entry_id: 502, focus_opened_item: true })));
    assert_eq!(
        visible_entries_as_strings(&panel, 0, 13),
        &[
            "v root1",
            "    > .git",
            "    > a",
            "    > b",
            "    v bdir1",
            "        v dir2",
            "              the-new-filename  <== selected",
            "    > C",
            "      .dockerignore",
            "v root2",
            "    > d",
            "    > e",
        ]
    );
}

fn src_tree() -> ProjectPanel {
    ProjectPanel::new(vec![tree(1, "src", 1, &["test/", "test/first.rs", "test/second.rs", "test/third.rs"])])
}

#[test]
fn test_new_search_in_directory_trigger() {
    let mut panel = src_tree();
    toggle_expand_dir(&mut panel, "src/test");
    select_path(&mut panel, "src/test/first.rs");
    assert!(panel.confirm_edit("").is_none());
    assert_eq!(
        visible_entries_as_strings(&panel, 0, 10),
        &[
            "v src",
            "    v test",
            "          first.rs  <== selected",
            "          second.rs",
            "          third.rs"
        ]
    );
    assert!(panel.new_search_in_directory().is_none());

    select_path(&mut panel, "src/test");
    assert!(panel.confirm_edit("").is_none());
    assert_eq!(
        visible_entries_as_strings(&panel, 0, 10),
        &[
            "v src",
            "    v test  <== selected",
            "          first.rs",
            "          second.rs",
            "          third.rs"
        ]
    );
    match panel.new_search_in_directory() {
        Some(Event::NewSearchInDirectory { dir_entry }) => assert_eq!(dir_entry.path, path_of("test")),
        _ => panic!("expected a search in the directory"),
    }
}

#[test]
fn test_collapse_all_entries() {
    let mut panel = ProjectPanel::new(vec![tree(1, "project_root", 1, &[
        "dir_1/", "dir_1/nested_dir/", "dir_1/nested_dir/file_a.py", "dir_1/nested_dir/file_b.py",
        "dir_1/nested_dir/file_c.py", "dir_1/file_1.py", "dir_1/file_2.py", "dir_1/file_3.py", "dir_2/",
        "dir_2/file_1.py", "dir_2/file_2.py", "dir_2/file_3.py",
    ])]);
    toggle_expand_dir(&mut panel, "project_root/dir_1/nested_dir");
    panel.collapse_all_entries();
    assert_eq!(
        visible_entries_as_strings(&panel, 0, 10),
        &["v project_root", "    > dir_1", "    > dir_2"]
    );

    toggle_expand_dir(&mut panel, "project_root/dir_1");
    assert_eq!(
        visible_entries_as_strings(&panel, 0, 10),
        &[
            "v project_root",
            "    v dir_1  <== selected",
            "        > nested_dir",
            "          file_1.py",
            "          file_2.py",
            "          file_3.py",
            "    > dir_2",
        ]
    );
}

#[test]
fn directories_first_then_names_ignoring_case() {
    let panel = ProjectPanel::new(vec![tree(1, "r", 1, &["b.txt", "B/", "a/", "C.txt", "Zoo/", "apple"])]);
    assert_eq!(
        visible_entries_as_strings(&panel, 0, 10),
        &["v r", "    > a", "    > B", "    > Zoo", "      apple", "      b.txt", "      C.txt"]
    );
}

#[test]
fn expanding_then_collapsing_restores_the_rows() {
    let mut panel = two_roots();
    let before = visible_entries_as_strings(&panel, 0, 50);
    toggle_expand_dir(&mut panel, "root1/a");
    assert_ne!(visible_entries_as_strings(&panel, 0, 50), before);
    toggle_expand_dir(&mut panel, "root1/a");
    let after: Vec<String> = visible_entries_as_strings(&panel, 0, 50)
        .into_iter()
        .map(|s| s.replace("  <== selected", ""))
        .collect();
    assert_eq!(after, before);
}

#[test]
fn index_of_selection_leads_back_to_it() {
    let mut panel = two_roots();
    toggle_expand_dir(&mut panel, "root1/C");
    select_path(&mut panel, "root2/e");
    let sel = panel.selection.unwrap();
    let (w, e, flat) = panel.index_for_selection(sel).unwrap();
    assert_eq!((w, e, flat), (1, 2, 12));
    assert_eq!(panel.entry_id_at(flat), Some(sel.entry_id));
    assert_eq!(panel.autoscroll(), Some(12));
}

#[test]
fn selection_missing_from_rows_has_no_index() {
    let panel = two_roots();
    assert!(panel.index_for_selection(Selection { worktree_id: 1, entry_id: 999 }).is_none());
    assert!(panel.index_for_selection(Selection { worktree_id: 7, entry_id: 100 }).is_none());
}

#[test]
fn navigation_crosses_trees() {
    let mut panel = two_roots();
    panel.select_next();
    assert_eq!(panel.selection, Some(Selection { worktree_id: 1, entry_id: 100 }));
    select_path(&mut panel, "root1/.dockerignore");
    panel.select_next();
    assert_eq!(panel.selection, Some(Selection { worktree_id: 2, entry_id: 200 }));
    panel.select_prev();
    assert_eq!(panel.selection, Some(Selection { worktree_id: 1, entry_id: 101 }));
    select_path(&mut panel, "root2/e");
    panel.select_next();
    assert_eq!(panel.selection, Some(Selection { worktree_id: 2, entry_id: 203 }));
    select_path(&mut panel, "root1");
    panel.select_prev();
    assert_eq!(panel.selection, Some(Selection { worktree_id: 1, entry_id: 100 }));
}

#[test]
fn conflicting_new_directory_is_refused() {
    let mut panel = src_tree();
    select_path(&mut panel, "src");
    assert!(panel.new_directory());
    assert_eq!(
        visible_entries_as_strings(&panel, 0, 10),
        &["v src", "    > [EDITOR: '']  <== selected", "    > test"]
    );
    assert!(panel.confirm_edit("test").is_none());
    assert_eq!(
        visible_entries_as_strings(&panel, 0, 10),
        &["v src", "    > [EDITOR: '']  <== selected", "    > test"]
    );
    assert!(panel.edit_state.as_ref().unwrap().processing_filename.is_none());
    assert!(panel.confirm_edit("other").is_some());
}

#[test]
fn conflicting_rename_is_refused() {
    let mut panel = src_tree();
    toggle_expand_dir(&mut panel, "src/test");
    select_path(&mut panel, "src/test/first.rs");
    let start = panel.rename().unwrap();
    assert_eq!(start.text, "first.rs");
    assert_eq!(start.selection_end, 5);
    assert!(panel.confirm_edit("second.rs").is_none());
    assert!(panel.edit_state.is_some());
    let pending = panel.confirm_edit("fourth.rs").unwrap();
    match pending.request {
        EditRequest::Rename { entry_id, new_path } => {
            assert_eq!(entry_id, 3);
            assert_eq!(new_path, path_of("test/fourth.rs"));
        }
        EditRequest::Create { .. } => panic!("expected a rename"),
    }
    assert!(panel.confirm_edit("fifth.rs").is_none());
}

#[test]
fn one_placeholder_at_a_time() {
    let mut panel = src_tree();
    select_path(&mut panel, "src");
    assert!(panel.new_file());
    toggle_expand_dir(&mut panel, "src/test");
    select_path(&mut panel, "src/test");
    assert!(panel.new_directory());
    let count = panel
        .visible_entry_details(0, 50, false)
        .iter()
        .filter(|(id, _)| *id == NEW_ENTRY_ID)
        .count();
    assert_eq!(count, 1);
    panel.cancel();
    assert!(panel.visible_entry_details(0, 50, false).iter().all(|(id, _)| *id != NEW_ENTRY_ID));
}

#[test]
fn blur_ends_only_an_unsubmitted_edit() {
    let mut panel = src_tree();
    select_path(&mut panel, "src");
    assert!(panel.new_file());
    panel.editor_blurred();
    assert!(panel.edit_state.is_none());
    select_path(&mut panel, "src");
    assert!(panel.new_file());
    assert!(panel.confirm_edit("x").is_some());
    panel.editor_blurred();
    assert!(panel.edit_state.is_some());
    assert!(!panel.new_file());
}

#[test]
fn collapse_selected_goes_to_the_enclosing_directory() {
    let mut panel = src_tree();
    toggle_expand_dir(&mut panel, "src/test");
    select_path(&mut panel, "src/test/second.rs");
    panel.collapse_selected_entry();
    assert_eq!(panel.selection, Some(Selection { worktree_id: 1, entry_id: 2 }));
    assert_eq!(visible_entries_as_strings(&panel, 0, 10), &["v src", "    > test  <== selected"]);
    let request = panel.expand_selected_entry().unwrap();
    assert_eq!(request.entry_id, 2);
    panel.expand_selected_entry();
    assert_eq!(panel.selection, Some(Selection { worktree_id: 1, entry_id: 3 }));
}

#[test]
fn cut_marks_the_row_and_paste_moves() {
    let mut panel = src_tree();
    toggle_expand_dir(&mut panel, "src/test");
    select_path(&mut panel, "src/test/first.rs");
    panel.cut();
    let details = panel.visible_entry_details(2, 3, false);
    assert!(details[0].1.is_cut);
    select_path(&mut panel, "src");
    let paste = panel.paste().unwrap();
    assert!(paste.is_cut);
    assert_eq!(paste.entry_id, 3);
    assert_eq!(paste.new_path, path_of("first.rs"));
}

#[test]
fn paths_and_delete_prompt() {
    let mut panel = src_tree();
    select_path(&mut panel, "src/test/third.rs");
    assert_eq!(panel.copy_relative_path().unwrap(), "test/third.rs");
    assert_eq!(panel.copy_path().unwrap(), "/src/test/third.rs");
    assert_eq!(panel.reveal_in_finder().unwrap(), "/src/test/third.rs");
    let prompt = panel.delete().unwrap();
    assert_eq!(prompt.entry_id, 5);
    assert_eq!(prompt.file_name, "third.rs");
    select_path(&mut panel, "src");
    assert!(panel.delete().is_none());
}

#[test]
fn context_menu_of_a_root_and_of_a_file() {
    let mut panel = src_tree();
    let root = panel.deploy_context_menu(1, true).unwrap();
    assert_eq!(root[0], ContextMenuItem::AddFolderToProject);
    assert_eq!(root[1], ContextMenuItem::RemoveFromProject);
    assert!(root.contains(&ContextMenuItem::SearchInside));
    assert!(!root.contains(&ContextMenuItem::Delete));
    assert!(!root.contains(&ContextMenuItem::Paste));
    panel.copy();
    let file = panel.deploy_context_menu(3, false).unwrap();
    assert_eq!(panel.selection, Some(Selection { worktree_id: 1, entry_id: 3 }));
    assert_eq!(
        file,
        vec![
            ContextMenuItem::NewFile,
            ContextMenuItem::NewFolder,
            ContextMenuItem::Separator,
            ContextMenuItem::Cut,
            ContextMenuItem::Copy,
            ContextMenuItem::Paste,
            ContextMenuItem::Separator,
            ContextMenuItem::CopyPath,
            ContextMenuItem::CopyRelativePath,
            ContextMenuItem::Separator,
            ContextMenuItem::RevealInFinder,
            ContextMenuItem::Separator,
            ContextMenuItem::Rename,
            ContextMenuItem::Delete,
        ]
    );
    assert!(panel.deploy_context_menu(99, true).is_none());
}

#[test]
fn directory_status_comes_from_its_files() {
    let mut t = tree(1, "r", 1, &["d/", "d/x", "d/y", "e/"]);
    t.entries[2].git_status = Some(GitFileStatus::Added);
    t.entries[3].git_status = Some(GitFileStatus::Conflict);
    let mut panel = ProjectPanel::new(vec![t]);
    let details = panel.visible_entry_details(0, 10, true);
    assert_eq!(details[1].1.git_status, Some(GitFileStatus::Conflict));
    assert_eq!(details[2].1.git_status, None);
    toggle_expand_dir(&mut panel, "r/d");
    let details = panel.visible_entry_details(0, 10, true);
    assert_eq!(details[2].1.git_status, Some(GitFileStatus::Added));
    let hidden = panel.visible_entry_details(0, 10, false);
    assert_eq!(hidden[1].1.git_status, None);
}

#[test]
fn revealing_an_entry_expands_its_parents() {
    let mut panel = two_roots();
    let (_, id) = entry_id_for(&panel, "root1/a/1/t");
    panel.reveal_entry(id);
    assert_eq!(panel.selection, Some(Selection { worktree_id: 1, entry_id: id }));
    let rows = visible_entries_as_strings(&panel, 0, 50);
    assert!(rows.contains(&"              t  <== selected".to_string()));
    assert!(rows.contains(&"        v 1".to_string()));
}

#[test]
fn window_past_the_end_is_empty() {
    let panel = two_roots();
    assert!(panel.visible_entry_details(9, 20, false).is_empty());
    assert_eq!(panel.visible_entry_details(8, 20, false).len(), 1);
    assert!(panel.visible_entry_details(5, 5, false).is_empty());
}

#[test]
fn clicks_toggle_directories_and_open_files() {
    let mut panel = src_tree();
    let (request, event) = panel.entry_clicked(2, false, false, 1);
    assert_eq!(request.unwrap().entry_id, 2);
    assert!(event.is_none());
    assert_eq!(panel.selection, Some(Selection { worktree_id: 1, entry_id: 2 }));
    let (_, event) = panel.entry_clicked(3, false, false, 2);
    assert!(matches!(event, Some(Event::OpenedEntry { entry_id: 3, focus_opened_item: true })));
    let (_, event) = panel.entry_clicked(3, false, false, 1);
    assert!(matches!(event, Some(Event::OpenedEntry { entry_id: 3, focus_opened_item: false })));
    let (_, event) = panel.entry_clicked(3, false, true, 1);
    assert!(matches!(event, Some(Event::SplitEntry { entry_id: 3 })));
    let (request, event) = panel.entry_clicked(3, true, false, 1);
    assert!(request.is_none() && event.is_none());
    select_path(&mut panel, "src/test/first.rs");
    panel.rename();
    let (request, event) = panel.entry_clicked(3, false, false, 1);
    assert!(request.is_none() && event.is_none());
}

#[test]
fn open_file_and_focus_events() {
    let mut panel = src_tree();
    select_path(&mut panel, "src/test/second.rs");
    assert!(matches!(panel.open_file(), Some(Event::OpenedEntry { entry_id: 4, focus_opened_item: true })));
    select_path(&mut panel, "src/test");
    assert!(panel.open_file().is_none());
    assert!(matches!(ProjectPanel::focus_in(false), Some(Event::Focus)));
    assert!(ProjectPanel::focus_in(true).is_none());
}

#[test]
fn finished_rename_follows_the_entry() {
    let mut panel = src_tree();
    toggle_expand_dir(&mut panel, "src/test");
    select_path(&mut panel, "src/test/first.rs");
    panel.rename();
    let pending = panel.confirm_edit("renamed.rs").unwrap();
    assert_eq!(
        visible_entries_as_strings(&panel, 0, 10),
        &[
            "v src",
            "    v test",
            "          [PROCESSING: 'renamed.rs']  <== selected",
            "          second.rs",
            "          third.rs"
        ]
    );
    let mut trees = vec![tree(1, "src", 1, &["test/", "test/second.rs", "test/third.rs"])];
    trees[0].entries.push(Entry {
        id: 9,
        kind: EntryKind::File,
        path: path_of("test/renamed.rs"),
        is_ignored: false,
        git_status: None,
    });
    panel.set_worktrees(trees);
    assert!(panel.finish_edit(&pending, Some(9)).is_none());
    assert_eq!(
        visible_entries_as_strings(&panel, 0, 10),
        &[
            "v src",
            "    v test",
            "          renamed.rs  <== selected",
            "          second.rs",
            "          third.rs"
        ]
    );
}

#[test]
fn failed_edit_still_ends() {
    let mut panel = src_tree();
    select_path(&mut panel, "src");
    panel.new_file();
    let pending = panel.confirm_edit("x.rs").unwrap();
    assert!(panel.finish_edit(&pending, None).is_none());
    assert!(panel.edit_state.is_none());
    assert_eq!(visible_entries_as_strings(&panel, 0, 10), &["v src", "    > test"]);
}

#[test]
fn removed_tree_leaves_the_rows() {
    let mut panel = two_roots();
    let remaining = vec![tree(2, "root2", 200, &["d/", "d/9", "e/"])];
    panel.worktree_removed(1, remaining);
    assert_eq!(visible_entries_as_strings(&panel, 0, 50), &["v root2", "    > d", "    > e"]);
}

fn rename_entry_in(panel: &mut ProjectPanel, id: u64, p: &str) {
    let trees: Vec<Worktree> = panel
        .worktrees
        .iter()
        .map(|w| Worktree {
            id: w.id,
            root_name: w.root_name.clone(),
            abs_path: w.abs_path.clone(),
            entries: w
                .entries
                .iter()
                .map(|e| {
                    let mut e = e.clone();
                    if e.id == id {
                        e.path = path_of(p);
                    }
                    e
                })
                .collect(),
        })
        .collect();
    panel.set_worktrees(trees);
}

#[test]
fn test_editing_files() {
    let mut panel = two_roots();
    select_path(&mut panel, "root1");
    assert!(panel.new_file());
    assert_eq!(
        visible_entries_as_strings(&panel, 0, 10),
        &[
            "v root1",
            "    > .git",
            "    > a",
            "    > b",
            "    > C",
            "      [EDITOR: '']  <== selected",
            "      .dockerignore",
            "v root2",
            "    > d",
            "    > e",
        ]
    );
    let pending = panel.confirm_edit("the-new-filename").unwrap();
    assert_eq!(
        visible_entries_as_strings(&panel, 0, 10),
        &[
            "v root1",
            "    > .git",
            "    > a",
            "    > b",
            "    > C",
            "      [PROCESSING: 'the-new-filename']  <== selected",
            "      .dockerignore",
            "v root2",
            "    > d",
            "    > e",
        ]
    );
    add_entry_to(&mut panel, 0, 600, "the-new-filename", false);
    panel.finish_edit(&pending, Some(600));
    assert_eq!(
        visible_entries_as_strings(&panel, 0, 10),
        &[
            "v root1",
            "    > .git",
            "    > a",
            "    > b",
            "    > C",
            "      .dockerignore",
            "      the-new-filename  <== selected",
            "v root2",
            "    > d",
            "    > e",
        ]
    );

    select_path(&mut panel, "root1/b");
    assert!(panel.new_file());
    assert_eq!(
        visible_entries_as_strings(&panel, 0, 10),
        &[
            "v root1",
            "    > .git",
            "    > a",
            "    v b",
            "        > 3",
            "        > 4",
            "          [EDITOR: '']  <== selected",
            "    > C",
            "      .dockerignore",
            "      the-new-filename",
        ]
    );
    let pending = panel.confirm_edit("another-filename.txt").unwrap();
    add_entry_to(&mut panel, 0, 601, "b/another-filename.txt", false);
    panel.finish_edit(&pending, Some(601));
    assert_eq!(
        visible_entries_as_strings(&panel, 0, 10),
        &[
            "v root1",
            "    > .git",
            "    > a",
            "    v b",
            "        > 3",
            "        > 4",
            "          another-filename.txt  <== selected",
            "    > C",
            "      .dockerignore",
            "      the-new-filename",
        ]
    );

    select_path(&mut panel, "root1/b/another-filename.txt");
    let start = panel.rename().unwrap();
    assert_eq!(start.selection_end, "another-filename".len());
    assert_eq!(
        visible_entries_as_strings(&panel, 0, 10),
        &[
            "v root1",
            "    > .git",
            "    > a",
            "    v b",
            "        > 3",
            "        > 4",
            "          [EDITOR: 'another-filename.txt']  <== selected",
            "    > C",
            "      .dockerignore",
            "      the-new-filename",
        ]
    );
    let pending = panel.confirm_edit("a-different-filename.tar.gz").unwrap();
    assert_eq!(
        visible_entries_as_strings(&panel, 0, 10),
        &[
            "v root1",
            "    > .git",
            "    > a",
            "    v b",
            "        > 3",
            "        > 4",
            "          [PROCESSING: 'a-different-filename.tar.gz']  <== selected",
            "    > C",
            "      .dockerignore",
            "      the-new-filename",
        ]
    );
    rename_entry_in(&mut panel, 601, "b/a-different-filename.tar.gz");
    panel.finish_edit(&pending, Some(601));
    assert_eq!(
        visible_entries_as_strings(&panel, 0, 10),
        &[
            "v root1",
            "    > .git",
            "    > a",
            "    v b",
            "        > 3",
            "        > 4",
            "          a-different-filename.tar.gz  <== selected",
            "    > C",
            "      .dockerignore",
            "      the-new-filename",
        ]
    );

    let start = panel.rename().unwrap();
    assert_eq!(start.text, "a-different-filename.tar.gz");
    assert_eq!(start.selection_end, "a-different-filename.tar".len());
    panel.cancel();

    assert!(panel.new_directory());
    assert_eq!(
        visible_entries_as_strings(&panel, 0, 10),
        &[
            "v root1",
            "    > .git",
            "    > a",
            "    v b",
            "        > [EDITOR: '']  <== selected",
            "        > 3",
            "        > 4",
            "          a-different-filename.tar.gz",
            "    > C",
            "      .dockerignore",
        ]
    );
    let pending = panel.confirm_edit("new-dir").unwrap();
    panel.select_next();
    assert_eq!(
        visible_entries_as_strings(&panel, 0, 10),
        &[
            "v root1",
            "    > .git",
            "    > a",
            "    v b",
            "        > [PROCESSING: 'new-dir']",
            "        > 3  <== selected",
            "        > 4",
            "          a-different-filename.tar.gz",
            "    > C",
            "      .dockerignore",
        ]
    );
    add_entry_to(&mut panel, 0, 602, "b/new-dir", true);
    panel.finish_edit(&pending, Some(602));
    assert_eq!(
        visible_entries_as_strings(&panel, 0, 10),
        &[
            "v root1",
            "    > .git",
            "    > a",
            "    v b",
            "        > 3  <== selected",
            "        > 4",
            "        > new-dir",
            "          a-different-filename.tar.gz",
            "    > C",
            "      .dockerignore",
        ]
    );

    panel.rename();
    assert_eq!(
        visible_entries_as_strings(&panel, 0, 10),
        &[
            "v root1",
            "    > .git",
            "    > a",
            "    v b",
            "        > [EDITOR: '3']  <== selected",
            "        > 4",
            "        > new-dir",
            "          a-different-filename.tar.gz",
            "    > C",
            "      .dockerignore",
        ]
    );
    panel.editor_blurred();
    assert_eq!(
        visible_entries_as_strings(&panel, 0, 10),
        &[
            "v root1",
            "    > .git",
            "    > a",
            "    v b",
            "        > 3  <== selected",
            "        > 4",
            "        > new-dir",
            "          a-different-filename.tar.gz",
            "    > C",
            "      .dockerignore",
        ]
    );
}

#[test]
fn test_new_file_move() {
    let mut panel = ProjectPanel::new(vec![tree(1, "root", 1, &["new"])]);
    select_path(&mut panel, "root/new");
    assert_eq!(visible_entries_as_strings(&panel, 0, 10), &["v root", "      new  <== selected"]);
    panel.rename();
    let pending = panel.confirm_edit("newer").unwrap();
    rename_entry_in(&mut panel, 2, "newer");
    panel.finish_edit(&pending, Some(2));
    assert_eq!(visible_entries_as_strings(&panel, 0, 10), &["v root", "      newer  <== selected"]);
}

#[test]
fn only_the_first_answer_deletes() {
    assert!(delete_confirmed(Some(0)));
    assert!(!delete_confirmed(Some(1)));
    assert!(!delete_confirmed(None));
}

#[test]
fn removed_tree_loses_its_expansion() {
    let mut panel = two_roots();
    toggle_expand_dir(&mut panel, "root1/a");
    toggle_expand_dir(&mut panel, "root2/d");
    let again = vec![
        Worktree {
            id: panel.worktrees[0].id,
            root_name: panel.worktrees[0].root_name.clone(),
            abs_path: panel.worktrees[0].abs_path.clone(),
            entries: panel.worktrees[0].entries.clone(),
        },
        tree(2, "root2", 200, &["d/", "d/9", "e/"]),
    ];
    panel.worktree_removed(1, again);
    assert_eq!(
        visible_entries_as_strings(&panel, 0, 50)
            .into_iter()
            .map(|s| s.replace("  <== selected", ""))
            .collect::<Vec<_>>(),
        &[
            "v root1",
            "    > .git",
            "    > a",
            "    > b",
            "    > C",
            "      .dockerignore",
            "v root2",
            "    v d",
            "          9",
            "    > e",
        ]
    );
}

#[test]
fn tree_without_root_shows_nothing() {
    let rootless = Worktree {
        id: 3,
        root_name: "r3".to_string(),
        abs_path: "/r3".to_string(),
        entries: vec![Entry { id: 900, kind: EntryKind::File, path: path_of("a"), is_ignored: false, git_status: None }],
    };
    let panel = ProjectPanel::new(vec![rootless, tree(2, "root2", 200, &["d/", "e/"])]);
    assert_eq!(visible_entries_as_strings(&panel, 0, 50), &["v root2", "    > d", "    > e"]);
}

#[test]
fn names_that_fold_alike_keep_tree_order() {
    let panel = ProjectPanel::new(vec![tree(1, "r", 1, &["readme", "README", "Readme"])]);
    assert_eq!(
        visible_entries_as_strings(&panel, 0, 10),
        &["v r", "      readme", "      README", "      Readme"]
    );
}

#[test]
fn folded_keys_are_keyed_as_given() {
    let folded = vec!["abc".to_string()];
    let upper = vec!["ABC".to_string()];
    assert_eq!(
        project_panel::sort_key::folded_path_key(&folded, true, false),
        project_panel::sort_key::make_path_key(&upper, true, false)
    );
    assert_ne!(
        project_panel::sort_key::folded_path_key(&upper, true, false),
        project_panel::sort_key::make_path_key(&upper, true, false)
    );
}
