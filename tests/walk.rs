use rmx::walk::{Entry, EntryKind, Walk};
use rmx::{collect_matching_files, CollectOptions};

fn file(name: &str) -> Entry {
    Entry { name: name.to_string(), kind: EntryKind::File }
}

fn dir(name: &str) -> Entry {
    Entry { name: name.to_string(), kind: EntryKind::Dir }
}

fn link(name: &str) -> Entry {
    Entry { name: name.to_string(), kind: EntryKind::Other }
}

// The listing of each directory of this tree:
//
// <root>/
// ├── .hidden_folder/
// │   └── hidden.txt
// ├── subfolder1/
// │   ├── subfolder2/
// │   │   ├── backup.bak
// │   │   ├── data.dat
// │   │   └── sub2.txt
// │   ├── sub1.log
// │   └── sub1.txt
// ├── .hidden.txt
// ├── data.dat
// ├── file.tar.gz
// ├── other.md.gz
// ├── root.log
// └── root.txt
fn temp_folder(path: &[&str]) -> Vec<Entry> {
    match path {
        [] => vec![
            file("root.txt"),
            file("root.log"),
            file("data.dat"),
            file(".hidden.txt"),
            file("file.tar.gz"),
            file("other.md.gz"),
            dir("subfolder1"),
            dir(".hidden_folder"),
        ],
        ["subfolder1"] => vec![file("sub1.txt"), file("sub1.log"), dir("subfolder2")],
        ["subfolder1", "subfolder2"] => {
            vec![file("sub2.txt"), file("backup.bak"), file("data.dat")]
        }
        [".hidden_folder"] => vec![file("hidden.txt")],
        _ => panic!("no such directory: {:?}", path),
    }
}

// The tree above, with a few files whose names hold no extension after their first dot.
fn folder_with_plain_names(path: &[&str]) -> Vec<Entry> {
    let mut entries = temp_folder(path);
    if path.is_empty() {
        entries.push(file("Makefile"));
        entries.push(file(".bashrc"));
        entries.push(file("txt"));
    }
    entries
}

// A directory holding only a symbolic link to the tree above.
fn folder_with_link(path: &[&str]) -> Vec<Entry> {
    match path {
        [] => vec![link("link")],
        _ => panic!("no such directory: {:?}", path),
    }
}

fn walk_with(
    tree: fn(&[&str]) -> Vec<Entry>,
    extensions: &[&str],
    options: CollectOptions,
) -> Vec<String> {
    let extensions: Vec<String> = extensions.iter().map(|e| e.to_string()).collect();
    let mut walk = Walk::new(&extensions, &options);
    while let Some(d) = walk.next_dir() {
        let parts: Vec<&str> = d.iter().map(|s| s.as_str()).collect();
        walk.visit(&tree(&parts));
    }
    walk.into_found().iter().map(|p| p.join("/")).collect()
}

fn walk_tree(extensions: &[&str], options: CollectOptions) -> Vec<String> {
    walk_with(temp_folder, extensions, options)
}

fn options(all: bool, recurse: bool, invert: bool) -> CollectOptions {
    CollectOptions { all, list: false, recurse, invert }
}

fn contains(files: &[String], path: &str) -> bool {
    files.iter().any(|f| f == path)
}

#[test]
fn collect_without_match() {
    let files = walk_tree(&["json"], options(false, false, false));

    assert_eq!(files.len(), 0);
}

#[test]
fn collect_with_extension_suffix_should_fail() {
    let files = walk_tree(&["g"], options(false, false, false));

    assert_eq!(files.len(), 0);
}

#[test]
fn collect_one_extension() {
    let files = walk_tree(&["txt"], options(false, false, false));

    assert_eq!(files.len(), 1);
    assert_eq!("root.txt", files[0]);
}

#[test]
fn collect_reverse() {
    let files = walk_tree(&["txt"], options(false, false, true));

    assert_eq!(files.len(), 4);
    assert!(contains(&files, "root.log"));
    assert!(contains(&files, "data.dat"));
    assert!(contains(&files, "file.tar.gz"));
    assert!(contains(&files, "other.md.gz"));
}

#[test]
fn collect_with_hidden_files() {
    let files = walk_tree(&["txt"], options(true, false, false));

    assert_eq!(files.len(), 2);
    assert!(contains(&files, "root.txt"));
    assert!(contains(&files, ".hidden.txt"));
}

#[test]
fn collect_reverse_with_hidden_files() {
    let files = walk_tree(&["dat"], options(true, false, true));

    assert_eq!(files.len(), 5);
    assert!(contains(&files, "root.txt"));
    assert!(contains(&files, "root.log"));
    assert!(contains(&files, ".hidden.txt"));
    assert!(contains(&files, "file.tar.gz"));
    assert!(contains(&files, "other.md.gz"));
}

#[test]
fn collect_multiple_extension() {
    let files = walk_tree(&["dat", "txt"], options(true, false, true));

    assert_eq!(files.len(), 3);
    assert!(contains(&files, "root.log"));
    assert!(contains(&files, "file.tar.gz"));
    assert!(contains(&files, "other.md.gz"));
}

#[test]
fn collect_recursive() {
    let files = walk_tree(&["txt"], options(false, true, false));

    assert_eq!(files.len(), 3);
    assert!(contains(&files, "root.txt"));
    assert!(contains(&files, "subfolder1/sub1.txt"));
    assert!(contains(&files, "subfolder1/subfolder2/sub2.txt"));
}

#[test]
fn collect_recursive_with_hidden_files() {
    let files = walk_tree(&["txt"], options(true, true, false));

    assert_eq!(
        files,
        vec![
            "root.txt",
            ".hidden.txt",
            "subfolder1/sub1.txt",
            "subfolder1/subfolder2/sub2.txt",
            ".hidden_folder/hidden.txt",
        ]
    );
}

#[test]
fn collect_should_not_traverse_symlinks() {
    let files = walk_with(folder_with_link, &["txt"], options(true, true, false));

    assert_eq!(files.len(), 0);
}

#[test]
fn collect_multi_dot_extension_with_extension_start() {
    let files = walk_tree(&["tar"], options(true, false, false));

    assert_eq!(files.len(), 0);
}

#[test]
fn collect_multi_dot_extension_with_complete_extension() {
    let files = walk_tree(&["tar.gz"], options(true, false, false));

    assert_eq!(files.len(), 1);
    assert!(contains(&files, "file.tar.gz"));
}

#[test]
fn collect_multi_dot_extension_with_last_part() {
    let files = walk_tree(&["gz"], options(true, false, false));

    assert_eq!(files.len(), 2);
    assert!(contains(&files, "file.tar.gz"));
    assert!(contains(&files, "other.md.gz"));
}

#[test]
fn scenario_single_extension_at_top_level() {
    let files = walk_tree(&["txt"], options(false, false, false));

    assert_eq!(files, vec!["root.txt"]);
}

#[test]
fn scenario_inverted_single_extension_at_top_level() {
    let files = walk_tree(&["txt"], options(false, false, true));

    assert!(contains(&files, "root.log"));
    assert!(contains(&files, "data.dat"));
    assert!(!contains(&files, "root.txt"));
    assert!(!contains(&files, ".hidden.txt"));
}

#[test]
fn scenario_two_part_extension() {
    let files = walk_tree(&["tar.gz"], options(false, false, false));

    assert_eq!(files, vec!["file.tar.gz"]);
}

#[test]
fn inverted_walk_is_complement_of_plain_walk() {
    let tree = folder_with_plain_names;
    let plain = walk_with(tree, &["txt", "gz"], options(true, true, false));
    let inverted = walk_with(tree, &["txt", "gz"], options(true, true, true));
    let every = walk_with(tree, &[], options(true, true, true));

    assert_eq!(every.len(), 15);
    assert!(contains(&inverted, "Makefile"));
    assert!(contains(&inverted, ".bashrc"));
    assert!(contains(&plain, "txt"));
    assert_eq!(plain.len() + inverted.len(), every.len());
    for f in &every {
        assert!(contains(&plain, f) != contains(&inverted, f));
    }
}

#[test]
fn names_without_extension_follow_the_whole_name_rule() {
    let tree = folder_with_plain_names;

    let files = walk_with(tree, &["txt"], options(false, false, true));
    assert!(contains(&files, "Makefile"));
    assert!(!contains(&files, ".bashrc"));
    assert!(!contains(&files, "txt"));

    let files = walk_with(tree, &["txt"], options(true, false, true));
    assert!(contains(&files, ".bashrc"));

    let files = walk_with(tree, &["txt"], options(true, false, false));
    assert!(contains(&files, "txt"));
    assert!(!contains(&files, "Makefile"));
}

#[test]
fn walk_order_is_depth_first() {
    let files = walk_tree(&["dat", "txt", "log", "bak"], options(false, true, false));

    assert_eq!(
        files,
        vec![
            "root.txt",
            "root.log",
            "data.dat",
            "subfolder1/sub1.txt",
            "subfolder1/sub1.log",
            "subfolder1/subfolder2/sub2.txt",
            "subfolder1/subfolder2/backup.bak",
            "subfolder1/subfolder2/data.dat",
        ]
    );
}

#[test]
fn next_dir_hands_out_root_then_subdirectories() {
    let extensions = vec!["txt".to_string()];
    let mut walk = Walk::new(&extensions, &options(false, true, false));
    let root = walk.next_dir().unwrap();
    assert!(root.is_empty());
    let added = walk.visit(&temp_folder(&[]));
    assert_eq!(added, vec![vec!["root.txt".to_string()]]);
    assert_eq!(walk.next_dir(), Some(vec!["subfolder1".to_string()]));
    let added = walk.visit(&temp_folder(&["subfolder1"]));
    assert_eq!(added, vec![vec!["subfolder1".to_string(), "sub1.txt".to_string()]]);
    assert_eq!(
        walk.next_dir(),
        Some(vec!["subfolder1".to_string(), "subfolder2".to_string()])
    );
    walk.visit(&temp_folder(&["subfolder1", "subfolder2"]));
    assert_eq!(walk.next_dir(), None);
    assert_eq!(walk.next_dir(), None);
    assert_eq!(walk.into_found().len(), 3);
}

#[test]
fn visit_without_a_directory_changes_nothing() {
    let extensions = vec!["txt".to_string()];
    let mut walk = Walk::new(&extensions, &options(false, true, false));
    let added = walk.visit(&temp_folder(&[]));
    assert!(added.is_empty());
    assert_eq!(walk.next_dir(), Some(Vec::new()));
}

#[test]
fn one_listing_is_split_into_files_and_directories() {
    let extensions = vec!["txt".to_string()];
    let entries = temp_folder(&[]);

    let s = collect_matching_files(&extensions, &entries, &options(false, true, false));
    assert_eq!(s.files, vec!["root.txt"]);
    assert_eq!(s.dirs, vec!["subfolder1"]);

    let s = collect_matching_files(&extensions, &entries, &options(true, true, false));
    assert_eq!(s.files, vec!["root.txt", ".hidden.txt"]);
    assert_eq!(s.dirs, vec!["subfolder1", ".hidden_folder"]);

    let s = collect_matching_files(&extensions, &entries, &options(true, false, false));
    assert!(s.dirs.is_empty());
}

#[test]
fn links_and_other_entries_are_never_selected() {
    let extensions = vec!["txt".to_string()];
    let entries = vec![link("a.txt"), dir("b.txt"), file("c.txt")];

    let s = collect_matching_files(&extensions, &entries, &options(true, true, false));
    assert_eq!(s.files, vec!["c.txt"]);
    assert_eq!(s.dirs, vec!["b.txt"]);

    let s = collect_matching_files(&extensions, &entries, &options(true, false, false));
    assert_eq!(s.files, vec!["c.txt"]);
    assert!(s.dirs.is_empty());
}

#[test]
fn next_dir_repeats_the_directory_until_it_is_visited() {
    let extensions = vec!["txt".to_string()];
    let mut walk = Walk::new(&extensions, &options(false, true, false));
    assert_eq!(walk.next_dir(), Some(Vec::new()));
    assert_eq!(walk.next_dir(), Some(Vec::new()));
    walk.visit(&temp_folder(&[]));
    assert_eq!(walk.next_dir(), Some(vec!["subfolder1".to_string()]));
}
