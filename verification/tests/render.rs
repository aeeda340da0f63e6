use treestat::cli::{Cli, CountMode, Format, HeaderMode};
use treestat::lang::{parse_linguist_yaml, LanguageRegistry, NameSet};
use treestat::model::{DirGraph, ScanResult};
use treestat::render::{
    count_at, display_count, escape_json, render_json, render_text, should_show, show_at,
};
use treestat::scanner::compute_tree_counts;

fn options() -> Cli {
    Cli {
        path: ".".to_string(),
        lang: vec![],
        ext: vec![],
        headers: HeaderMode::Include,
        count_mode: CountMode::Tree,
        max_depth: None,
        min_count: 0,
        show_empty: false,
        follow_symlinks: false,
        exclude: vec![],
        no_gitignore: false,
        hidden: false,
        format: Format::Text,
        json_pretty: false,
    }
}

/// The tree
///   /r        1 file
///     a       0 files
///       deep  5 files
///     b       2 files
///     empty   0 files
fn sample() -> ScanResult {
    let mut dirs = DirGraph::new("/r", "r");
    let a = dirs.add_dir(0, "a");
    let deep = dirs.add_dir(a, "deep");
    let b = dirs.add_dir(0, "b");
    dirs.add_dir(0, "empty");
    dirs.add_file(0);
    for _ in 0..5 {
        dirs.add_file(deep);
    }
    dirs.add_file(b);
    dirs.add_file(b);
    ScanResult { root: "/r".to_string(), dirs, total_files: 8, dirs_with_files: 2 }
}

fn rs() -> NameSet {
    let mut set = NameSet::new();
    set.insert("rs".to_string());
    set
}

fn no_languages() -> LanguageRegistry {
    LanguageRegistry::new(&parse_linguist_yaml(""))
}

#[test]
fn subtree_totals_add_up() {
    let scan = sample();
    let counts = compute_tree_counts("/r", &scan.dirs);
    assert_eq!(counts.get("/r"), Some(8));
    assert_eq!(counts.get("/r/a"), Some(5));
    assert_eq!(counts.get("/r/a/deep"), Some(5));
    assert_eq!(counts.get("/r/b"), Some(2));
    assert_eq!(counts.get("/r/empty"), Some(0));
    for i in 0..scan.dirs.len() {
        let node = scan.dirs.get(i);
        let below: usize =
            node.children.iter().map(|c| counts.get(&scan.dirs.get(*c).path).unwrap()).sum();
        assert_eq!(counts.get(&node.path), Some(node.direct_files + below));
    }
    assert_eq!(counts.get("/r"), Some(scan.total_files));
    let with_files =
        (1..scan.dirs.len()).filter(|i| scan.dirs.get(*i).direct_files > 0).count();
    assert_eq!(scan.dirs_with_files, with_files);
}

#[test]
fn counts_shown_by_mode() {
    let scan = sample();
    let counts = compute_tree_counts("/r", &scan.dirs);
    assert_eq!(display_count("/r/a", &scan, &counts, CountMode::Direct), 0);
    assert_eq!(display_count("/r/a", &scan, &counts, CountMode::Tree), 5);
    assert_eq!(display_count("/r", &scan, &counts, CountMode::Direct), 1);
    assert_eq!(display_count("/nowhere", &scan, &counts, CountMode::Direct), 0);
    assert_eq!(display_count("/nowhere", &scan, &counts, CountMode::Tree), 0);
    assert_eq!(count_at(2, &scan, &counts, CountMode::Direct), 5);
    assert_eq!(count_at(1, &scan, &counts, CountMode::Tree), 5);
}

#[test]
fn visibility_rules() {
    let scan = sample();
    let counts = compute_tree_counts("/r", &scan.dirs);
    let mut cli = options();
    assert!(should_show("/r", &scan, &counts, &cli));
    assert!(should_show("/r/a", &scan, &counts, &cli));
    assert!(should_show("/r/b", &scan, &counts, &cli));
    assert!(!should_show("/r/empty", &scan, &counts, &cli));
    assert!(!should_show("/nowhere", &scan, &counts, &cli));

    cli.count_mode = CountMode::Direct;
    cli.min_count = 3;
    assert!(should_show("/r", &scan, &counts, &cli));
    assert!(should_show("/r/a/deep", &scan, &counts, &cli));
    assert!(should_show("/r/a", &scan, &counts, &cli));
    assert!(!should_show("/r/b", &scan, &counts, &cli));
    assert!(!should_show("/r/empty", &scan, &counts, &cli));

    cli.min_count = 6;
    assert!(should_show("/r", &scan, &counts, &cli));
    assert!(!should_show("/r/a", &scan, &counts, &cli));
    assert!(!should_show("/r/a/deep", &scan, &counts, &cli));
    cli.count_mode = CountMode::Tree;
    cli.min_count = 5;
    assert!(should_show("/r/a", &scan, &counts, &cli));
    assert!(!should_show("/r/b", &scan, &counts, &cli));
}

#[test]
fn show_empty_shows_every_directory() {
    let scan = sample();
    let counts = compute_tree_counts("/r", &scan.dirs);
    let mut cli = options();
    cli.show_empty = true;
    cli.min_count = 1000;
    for i in 0..scan.dirs.len() {
        assert!(show_at(i, &scan, &counts, &cli));
        assert!(should_show(&scan.dirs.get(i).path, &scan, &counts, &cli));
    }
    assert!(should_show("/nowhere", &scan, &counts, &cli));
}

#[test]
fn what_is_shown_has_its_parents_shown() {
    let scan = sample();
    let counts = compute_tree_counts("/r", &scan.dirs);
    for mode in [CountMode::Direct, CountMode::Tree] {
        for min_count in 0..10 {
            let mut cli = options();
            cli.count_mode = mode;
            cli.min_count = min_count;
            for i in 1..scan.dirs.len() {
                if show_at(i, &scan, &counts, &cli) {
                    assert!(show_at(scan.dirs.get(i).parent, &scan, &counts, &cli));
                }
            }
        }
    }
}

#[test]
fn text_report_draws_the_branches() {
    let scan = sample();
    let counts = compute_tree_counts("/r", &scan.dirs);
    let mut cli = options();
    cli.show_empty = true;
    cli.count_mode = CountMode::Direct;
    let s = render_text(&scan, &counts, &rs(), &no_languages(), &vec!["Rust".to_string()], &cli);
    assert_eq!(
        s,
        "rust file statistics (Tree View):\n\
         ============================================================\n\
         r/ (1 files)\n\
         \u{251c}\u{2500}\u{2500} a/ (0 files)\n\
         \u{2502}   \u{2514}\u{2500}\u{2500} deep/ (5 files)\n\
         \u{251c}\u{2500}\u{2500} b/ (2 files)\n\
         \u{2514}\u{2500}\u{2500} empty/ (0 files)\n\
         ============================================================\n\
         Total matching files: 8\n\
         Directories containing files: 2\n\
         Extensions: rs\n"
    );
    cli.show_empty = false;
    cli.min_count = 2;
    let s = render_text(&scan, &counts, &rs(), &no_languages(), &vec![], &cli);
    assert_eq!(
        s,
        "all file statistics (Tree View):\n\
         ============================================================\n\
         r/ (1 files)\n\
         \u{251c}\u{2500}\u{2500} a/ (0 files)\n\
         \u{2502}   \u{2514}\u{2500}\u{2500} deep/ (5 files)\n\
         \u{2514}\u{2500}\u{2500} b/ (2 files)\n\
         ============================================================\n\
         Total matching files: 8\n\
         Directories containing files: 2\n\
         Extensions: rs\n"
    );
}

#[test]
fn json_and_text_show_the_same_directories() {
    let scan = sample();
    let counts = compute_tree_counts("/r", &scan.dirs);
    for min_count in 0..7 {
        let mut cli = options();
        cli.min_count = min_count;
        let text = render_text(&scan, &counts, &rs(), &no_languages(), &vec![], &cli);
        let json = render_json(&scan, &counts, &rs(), &no_languages(), &vec![], &cli, false);
        for name in ["a", "deep", "b", "empty"] {
            let in_text = text.contains(&format!(" {name}/ ("));
            let in_json = json.contains(&format!("\"name\":\"{name}\""));
            assert_eq!(in_text, in_json, "{name} at {min_count}");
        }
    }
}

#[test]
fn json_strings_are_escaped() {
    assert_eq!(escape_json("plain"), "plain");
    assert_eq!(escape_json("a\\b\"c"), "a\\\\b\\\"c");
    assert_eq!(escape_json("\\\""), "\\\\\\\"");
    assert_eq!(escape_json(""), "");
    let mut dirs = DirGraph::new("C:\\x", "a\"b");
    dirs.add_file(0);
    let scan = ScanResult { root: "C:\\x".to_string(), dirs, total_files: 1, dirs_with_files: 0 };
    let counts = compute_tree_counts("C:\\x", &scan.dirs);
    let mut set = rs();
    set.insert("a\"".to_string());
    let mut cli = options();
    cli.count_mode = CountMode::Direct;
    cli.max_depth = Some(10);
    let langs = vec!["A\"\\".to_string()];
    let s = render_json(&scan, &counts, &set, &no_languages(), &langs, &cli, false);
    assert_eq!(
        s,
        "{\"root\":\"a\\\"b\",\"path\":\"C:\\\\x\",\"count_mode\":\"direct\",\"lang\":\"a\\\"\\\\\",\
         \"extensions\":[\"a\\\"\",\"rs\"],\"max_depth\":10,\"total_files\":1,\
         \"dirs_with_files\":0,\"tree\":{\"name\":\"a\\\"b\",\"path\":\"C:\\\\x\",\"files\":1,\n\
         \"children\":[]}}"
    );
}

#[test]
fn numbers_are_written_in_decimal() {
    let mut dirs = DirGraph::new("/r", "r");
    for _ in 0..1205 {
        dirs.add_file(0);
    }
    let scan = ScanResult { root: "/r".to_string(), dirs, total_files: 1205, dirs_with_files: 0 };
    let counts = compute_tree_counts("/r", &scan.dirs);
    let s = render_text(&scan, &counts, &rs(), &no_languages(), &vec![], &options());
    assert!(s.contains("r/ (1205 files)\n"));
    assert!(s.contains("Total matching files: 1205\n"));
    assert!(s.contains("Directories containing files: 0\n"));
}
