use std::collections::HashMap;

use treestat::cli::{Cli, CountMode, Format, HeaderMode};
use treestat::lang::NameSet;
use treestat::model::ScanResult;
use treestat::scanner::{
    compute_tree_counts, should_exclude, simple_match, Entry, EntryKind, Walk,
};

fn options() -> Cli {
    Cli {
        path: ".".to_string(),
        lang: vec![],
        ext: vec![],
        headers: HeaderMode::Include,
        count_mode: CountMode::Tree,
        max_depth: None,
        min_count: 0,
        show_empty: false,
        follow_symlinks: false,
        exclude: vec![],
        no_gitignore: false,
        hidden: false,
        format: Format::Text,
        json_pretty: false,
    }
}

fn set_of(names: &[&str]) -> NameSet {
    let mut set = NameSet::new();
    for name in names {
        set.insert(name.to_string());
    }
    set
}

/// A tree in memory: the files by their paths relative to the root.
struct Tree {
    dirs: HashMap<String, Vec<(String, EntryKind)>>,
}

impl Tree {
    fn new(root: &str, files: &[&str]) -> Tree {
        let mut dirs: HashMap<String, Vec<(String, EntryKind)>> = HashMap::new();
        dirs.insert(root.to_string(), vec![]);
        for file in files {
            let parts: Vec<&str> = file.split('/').collect();
            let mut dir = root.to_string();
            for (i, part) in parts.iter().enumerate() {
                let kind = if i + 1 == parts.len() { EntryKind::File } else { EntryKind::Dir };
                let list = dirs.entry(dir.clone()).or_default();
                if !list.iter().any(|(n, _)| n == part) {
                    list.push((part.to_string(), kind));
                }
                dir = format!("{dir}/{part}");
                if kind == EntryKind::Dir {
                    dirs.entry(dir.clone()).or_default();
                }
            }
        }
        Tree { dirs }
    }

    fn listing(&self, path: &str) -> Result<Vec<Entry>, String> {
        match self.dirs.get(path) {
            Some(list) => Ok(list
                .iter()
                .map(|(name, kind)| Entry { name: name.clone(), kind: Some(*kind) })
                .collect()),
            None => Err("No such file or directory".to_string()),
        }
    }
}

fn scan(tree: &Tree, root: &str, name: &str, exts: &NameSet, cli: &Cli) -> Result<ScanResult, String> {
    let mut walk = Walk::start(root, name, exts, cli, &vec![]);
    while let Some(path) = walk.pending_dir() {
        walk.supply(&path, tree.listing(&path));
    }
    walk.finish()
}

#[test]
fn scan_counts_rust_files_by_directory() {
    let tree = Tree::new("/w", &["src/main.rs", "src/nested/lib.rs", "tests/test.rs", "README.md"]);
    let result = scan(&tree, "/w", "w", &set_of(&["rs"]), &options()).unwrap();
    assert_eq!(result.total_files, 3);
    assert_eq!(result.dirs_with_files, 3);
    assert_eq!(result.root, "/w");
    let counts = compute_tree_counts(&result.root, &result.dirs);
    assert_eq!(counts.get("/w/src"), Some(2));
    assert_eq!(counts.get("/w/src/nested"), Some(1));
    assert_eq!(counts.get("/w/tests"), Some(1));
    assert_eq!(counts.get("/w"), Some(result.total_files));
}

#[test]
fn scan_counts_c_sources_and_headers_but_not_python() {
    let tree = Tree::new(
        "/w",
        &["src/a.c", "src/b.cpp", "include/a.h", "include/b.hpp", "src/ignore.py"],
    );
    let mut exts = set_of(&["c", "cpp"]);
    treestat::lang::apply_header_mode(&mut exts, HeaderMode::Include);
    let result = scan(&tree, "/w", "w", &exts, &options()).unwrap();
    assert_eq!(result.total_files, 4);
    assert_eq!(result.dirs_with_files, 2);
}

#[test]
fn hidden_directories_are_left_out_unless_asked_for() {
    let tree = Tree::new("/w", &[".cache/a.rs", "b.rs"]);
    let exts = set_of(&["rs"]);
    let result = scan(&tree, "/w", "w", &exts, &options()).unwrap();
    assert_eq!(result.total_files, 1);
    assert_eq!(result.dirs.len(), 1);
    let mut cli = options();
    cli.hidden = true;
    let result = scan(&tree, "/w", "w", &exts, &cli).unwrap();
    assert_eq!(result.total_files, 2);
    assert_eq!(result.dirs_with_files, 1);
    assert_eq!(result.dirs.len(), 2);
}

#[test]
fn depth_zero_counts_the_files_of_the_root_alone() {
    let tree = Tree::new("/w", &["a.rs", "b.rs", "src/c.rs", "src/deep/d.rs"]);
    let mut cli = options();
    cli.max_depth = Some(0);
    let result = scan(&tree, "/w", "w", &set_of(&["rs"]), &cli).unwrap();
    assert_eq!(result.total_files, 2);
    assert_eq!(result.dirs_with_files, 0);
    assert_eq!(result.dirs.len(), 1);
    cli.max_depth = Some(1);
    let result = scan(&tree, "/w", "w", &set_of(&["rs"]), &cli).unwrap();
    assert_eq!(result.total_files, 3);
    assert_eq!(result.dirs.len(), 2);
}

#[test]
fn default_skip_names_and_patterns_exclude_entries() {
    let tree = Tree::new(
        "/w",
        &["target/a.rs", "node_modules/x/b.rs", "src/gen/c.rs", "src/d.rs", "docs/e.rs", "f.RS"],
    );
    let mut cli = options();
    cli.exclude = vec!["src/gen".to_string()];
    let mut walk = Walk::start("/w", "w", &set_of(&["rs"]), &cli, &vec!["docs/*".to_string()]);
    while let Some(path) = walk.pending_dir() {
        walk.supply(&path, tree.listing(&path));
    }
    let result = walk.finish().unwrap();
    assert_eq!(result.total_files, 2);
    assert_eq!(result.dirs.find("/w/src"), Some(1));
    assert_eq!(result.dirs.find("/w/src/gen"), None);
    assert_eq!(result.dirs.find("/w/target"), None);
    assert_eq!(result.dirs.find("/w/docs"), None);
    assert_eq!(result.dirs.len(), 2);
}

#[test]
fn an_unreadable_directory_fails_the_scan() {
    let mut walk = Walk::start("/w", "w", &set_of(&["rs"]), &options(), &vec![]);
    assert_eq!(walk.pending_dir(), Some("/w".to_string()));
    walk.supply("/w", Ok(vec![Entry { name: "sub".to_string(), kind: Some(EntryKind::Dir) }]));
    assert_eq!(walk.pending_dir(), Some("/w/sub".to_string()));
    walk.supply("/w/sub", Err("Permission denied".to_string()));
    assert_eq!(walk.pending_dir(), None);
    assert!(walk.has_failed());
    assert_eq!(walk.finish().err(), Some("failed to read /w/sub: Permission denied".to_string()));
}

#[test]
fn symlinks_and_unknown_entries_are_skipped() {
    let mut walk = Walk::start("/w", "w", &set_of(&["rs"]), &options(), &vec![]);
    walk.supply(
        "/w",
        Ok(vec![
            Entry { name: "link.rs".to_string(), kind: Some(EntryKind::Symlink) },
            Entry { name: "gone.rs".to_string(), kind: None },
            Entry { name: "pipe.rs".to_string(), kind: Some(EntryKind::Other) },
            Entry { name: "bad/name.rs".to_string(), kind: Some(EntryKind::File) },
            Entry { name: "".to_string(), kind: Some(EntryKind::Dir) },
            Entry { name: "ok.rs".to_string(), kind: Some(EntryKind::File) },
            Entry { name: "noext".to_string(), kind: Some(EntryKind::File) },
            Entry { name: ".rs".to_string(), kind: Some(EntryKind::File) },
        ]),
    );
    assert_eq!(walk.entries_seen(), 8);
    let result = walk.finish().unwrap();
    assert_eq!(result.total_files, 1);
    assert_eq!(result.dirs.len(), 1);
}

#[test]
fn a_directory_seen_before_is_not_entered_again_when_links_are_followed() {
    let mut cli = options();
    cli.follow_symlinks = true;
    let mut walk = Walk::start("/w", "w", &set_of(&["rs"]), &cli, &vec![]);
    walk.supply(
        "/w",
        Ok(vec![
            Entry { name: "a".to_string(), kind: Some(EntryKind::Dir) },
            Entry { name: "loop".to_string(), kind: Some(EntryKind::Dir) },
        ]),
    );
    assert_eq!(walk.pending_dir(), Some("/w/a".to_string()));
    walk.supply("/w/a", Ok(vec![Entry { name: "x.rs".to_string(), kind: Some(EntryKind::File) }]));
    assert_eq!(walk.pending_dir(), Some("/w/loop".to_string()));
    walk.supply("/w/a", Ok(vec![Entry { name: "x.rs".to_string(), kind: Some(EntryKind::File) }]));
    assert_eq!(walk.pending_dir(), None);
    let result = walk.finish().unwrap();
    assert_eq!(result.total_files, 1);
    assert_eq!(result.dirs.len(), 3);
    assert_eq!(result.dirs.get(2).direct_files, 0);
}

#[test]
fn pattern_rules() {
    assert!(simple_match("anything/at/all", "*"));
    assert!(simple_match("", "*"));
    assert!(simple_match("src/foo", "src/*"));
    assert!(!simple_match("lib/src/foo", "src/*"));
    assert!(simple_match("a/b.py", "*.py"));
    assert!(!simple_match("a/happy", "*.py"));
    assert!(!simple_match("a/b.pyc", "*.py"));
    assert!(simple_match("a/b/c", "b"));
    assert!(simple_match("a/b/c", "/b/"));
    assert!(!simple_match("a/b/c", "d"));
    assert!(simple_match("a/b/c", "///"));
}

#[test]
fn exclusion_rule() {
    let mut cli = options();
    assert!(should_exclude("a/.git/b", &cli, &vec![]));
    assert!(should_exclude(".hidden", &cli, &vec![]));
    assert!(should_exclude("x/dist", &cli, &vec![]));
    assert!(!should_exclude("x/distance", &cli, &vec![]));
    assert!(!should_exclude("a/b.rs", &cli, &vec![]));
    assert!(should_exclude("a/b.rs", &cli, &vec!["*.rs".to_string()]));
    cli.hidden = true;
    assert!(!should_exclude(".hidden", &cli, &vec![]));
    assert!(should_exclude("a/.git/b", &cli, &vec![]));
    cli.exclude = vec!["b".to_string()];
    assert!(should_exclude("a/b.rs", &cli, &vec![]));
}

#[test]
fn a_directory_named_twice_is_registered_once() {
    let mut walk = Walk::start("/w", "w", &set_of(&["rs"]), &options(), &vec![]);
    walk.supply(
        "/w",
        Ok(vec![
            Entry { name: "a".to_string(), kind: Some(EntryKind::Dir) },
            Entry { name: "a".to_string(), kind: Some(EntryKind::Dir) },
            Entry { name: "z.rs".to_string(), kind: Some(EntryKind::File) },
        ]),
    );
    assert_eq!(walk.pending_dir(), Some("/w/a".to_string()));
    walk.supply("/w/a", Ok(vec![Entry { name: "x.rs".to_string(), kind: Some(EntryKind::File) }]));
    assert_eq!(walk.pending_dir(), Some("/w/a".to_string()));
    walk.supply("/w/a", Ok(vec![]));
    assert_eq!(walk.pending_dir(), None);
    assert_eq!(walk.entries_seen(), 4);
    let result = walk.finish().unwrap();
    assert_eq!(result.dirs.len(), 2);
    assert_eq!(result.dirs.get(0).children, vec![1]);
    assert_eq!(result.total_files, 2);
    assert_eq!(result.dirs_with_files, 1);
}

#[test]
fn extensions_are_matched_whatever_their_case() {
    let mut walk = Walk::start("/w", "w", &set_of(&["rs", "tar.gz", "gz"]), &options(), &vec![]);
    let file = |name: &str| Entry { name: name.to_string(), kind: Some(EntryKind::File) };
    walk.supply(
        "/w",
        Ok(vec![
            file("A.RS"),
            file("b.Rs"),
            file("c.tar.GZ"),
            file("rs"),
            file("d.rs.bak"),
            file("e.rs."),
            file("f..rs"),
        ]),
    );
    let result = walk.finish().unwrap();
    assert_eq!(result.total_files, 4);
}
