use treestat::cli::{Cli, CountMode, Format, HeaderMode};
use treestat::lang::{apply_header_mode, NameSet};
use treestat::model::DirGraph;
use treestat::scanner::compute_tree_counts;

fn set_of(names: &[&str]) -> NameSet {
    let mut set = NameSet::new();
    for name in names {
        set.insert(name.to_string());
    }
    set
}

pub fn options() -> Cli {
    Cli {
        path: ".".to_string(),
        lang: vec![],
        ext: vec![],
        headers: HeaderMode::Include,
        count_mode: CountMode::Tree,
        max_depth: None,
        min_count: 0,
        show_empty: false,
        follow_symlinks: false,
        exclude: vec![],
        no_gitignore: false,
        hidden: false,
        format: Format::Text,
        json_pretty: false,
    }
}

#[test]
fn header_modes_work() {
    let mut set = set_of(&["c", "cpp", "h", "hpp"]);
    apply_header_mode(&mut set, HeaderMode::Exclude);
    assert!(set.contains("cpp"));
    assert!(!set.contains("h"));

    let mut set = set_of(&["c", "cpp", "h", "hpp"]);
    apply_header_mode(&mut set, HeaderMode::Only);
    assert!(!set.contains("c"));
    assert!(set.contains("hpp"));
}

#[test]
fn aggregate_counts() {
    let root = "/tmp/root".to_string();
    let child = "/tmp/root/src".to_string();
    let mut dirs = DirGraph::new(&root, "root");
    let src = dirs.add_dir(0, "src");
    dirs.add_file(0);
    dirs.add_file(src);
    dirs.add_file(src);
    assert_eq!(dirs.get(src).path, child);
    assert_eq!(dirs.get(0).children, vec![src]);

    let counts = compute_tree_counts(&root, &dirs);
    assert_eq!(counts.get(&root), Some(3));
    assert_eq!(counts.get(&child), Some(2));
}

#[test]
fn header_mode_include_adds_all_header_extensions() {
    let mut set = set_of(&["c", "cpp"]);
    apply_header_mode(&mut set, HeaderMode::Include);
    for x in ["c", "cpp", "h", "hh", "hpp", "hxx", "h++"] {
        assert!(set.contains(x), "{x}");
    }
    assert_eq!(set.len(), 7);
    let names: Vec<String> = (0..set.len()).map(|i| set.get(i).clone()).collect();
    assert_eq!(names, vec!["c", "cpp", "h", "h++", "hh", "hpp", "hxx"]);
}

#[test]
fn aggregate_of_a_subdirectory_covers_its_subtree_only() {
    let mut dirs = DirGraph::new("/r", "r");
    let a = dirs.add_dir(0, "a");
    let b = dirs.add_dir(a, "b");
    let c = dirs.add_dir(0, "c");
    dirs.add_file(a);
    dirs.add_file(b);
    dirs.add_file(b);
    dirs.add_file(c);
    let counts = compute_tree_counts("/r/a", &dirs);
    assert_eq!(counts.get("/r/a"), Some(3));
    assert_eq!(counts.get("/r/a/b"), Some(2));
    assert_eq!(counts.get("/r"), None);
    assert_eq!(counts.get("/r/c"), None);
    let all = compute_tree_counts("/r", &dirs);
    assert_eq!(all.get("/r"), Some(4));
    assert_eq!(all.get("/r/c"), Some(1));
    assert_eq!(dirs.total_files(), 4);
}

#[test]
fn aggregate_of_an_unknown_root_is_zero() {
    let dirs = DirGraph::new("/r", "r");
    let counts = compute_tree_counts("/elsewhere", &dirs);
    assert_eq!(counts.get("/elsewhere"), Some(0));
    assert_eq!(counts.get("/r"), None);
}

#[test]
fn directories_are_kept_in_name_order_and_registered_once() {
    let mut dirs = DirGraph::new("/", "");
    let b = dirs.add_dir(0, "b");
    let a = dirs.add_dir(0, "a");
    let c = dirs.add_dir(0, "c");
    assert_eq!(dirs.add_dir(0, "a"), a);
    assert_eq!(dirs.len(), 4);
    assert_eq!(dirs.get(0).children, vec![a, b, c]);
    assert_eq!(dirs.get(a).path, "/a");
    assert_eq!(dirs.get(a).parent, 0);
    assert_eq!(dirs.find("/c"), Some(c));
    assert_eq!(dirs.find("/d"), None);
}

#[test]
fn paths_are_joined_with_one_slash() {
    let mut dirs = DirGraph::new("", ".");
    let a = dirs.add_dir(0, "a");
    let b = dirs.add_dir(a, "b");
    assert_eq!(dirs.get(a).path, "a");
    assert_eq!(dirs.get(b).path, "a/b");
    assert_eq!(dirs.get(b).name, "b");
    let mut dirs = DirGraph::new("/x/", "x");
    let c = dirs.add_dir(0, "c");
    assert_eq!(dirs.get(c).path, "/x/c");
    let mut dirs = DirGraph::new("/x", "x");
    let c = dirs.add_dir(0, "c");
    assert_eq!(dirs.get(c).path, "/x/c");
    assert_eq!(options().path, ".");
}
