use std::collections::HashMap;

use treestat::cli::{Cli, CountMode, Format, HeaderMode};
use treestat::lang::{parse_linguist_yaml, LanguageRegistry};
use treestat::scanner::{parse_gitignore, Entry, EntryKind, Walk};
use treestat::{run, select_extensions};

const LANGUAGES: &str = "# languages\nC:\n  aliases:\n  - c\n  extensions:\n  - .c\nC++:\n  aliases:\n  - cpp\n  extensions:\n  - .cpp\n  - .cc\nPython:\n  aliases:\n  - python3\n  extensions:\n  - .py\nRust:\n  extensions:\n  - .rs\n";

fn args(list: &[&str]) -> Vec<String> {
    list.iter().map(|s| s.to_string()).collect()
}

/// A tree in memory: the files by their paths relative to the root.
struct Tree {
    dirs: HashMap<String, Vec<(String, EntryKind)>>,
}

impl Tree {
    fn new(root: &str, files: &[&str]) -> Tree {
        let mut dirs: HashMap<String, Vec<(String, EntryKind)>> = HashMap::new();
        dirs.insert(root.to_string(), vec![]);
        for file in files {
            let parts: Vec<&str> = file.split('/').collect();
            let mut dir = root.to_string();
            for (i, part) in parts.iter().enumerate() {
                let kind = if i + 1 == parts.len() { EntryKind::File } else { EntryKind::Dir };
                let list = dirs.entry(dir.clone()).or_default();
                if !list.iter().any(|(n, _)| n == part) {
                    list.push((part.to_string(), kind));
                }
                dir = format!("{dir}/{part}");
                if kind == EntryKind::Dir {
                    dirs.entry(dir.clone()).or_default();
                }
            }
        }
        Tree { dirs }
    }

    fn listing(&self, path: &str) -> Result<Vec<Entry>, String> {
        match self.dirs.get(path) {
            Some(list) => Ok(list
                .iter()
                .map(|(name, kind)| Entry { name: name.clone(), kind: Some(*kind) })
                .collect()),
            None => Err("No such file or directory".to_string()),
        }
    }
}

/// What the program prints for the tree `files` below `/w` and the
/// arguments `list`.
fn output(files: &[&str], list: &[&str]) -> Result<String, String> {
    let tree = Tree::new("/w", files);
    let cli = Cli::parse(args(list))?;
    let registry = LanguageRegistry::new(&parse_linguist_yaml(LANGUAGES));
    let extensions = select_extensions(&cli, &registry)?;
    let mut walk = Walk::start("/w", "w", &extensions, &cli, &parse_gitignore(""));
    while let Some(path) = walk.pending_dir() {
        walk.supply(&path, tree.listing(&path));
    }
    let scan = walk.finish()?;
    Ok(run(&cli, &registry, &extensions, &scan))
}

#[test]
fn text_tree_output_for_rust() {
    let s = output(
        &["src/main.rs", "src/nested/lib.rs", "tests/test.rs", "README.md"],
        &["/w", "--lang", "rust", "--count-mode", "tree"],
    )
    .unwrap();
    assert!(s.contains("Total matching files: 3"));
    assert!(s.contains("src/ (2 files)"));
    assert_eq!(
        s,
        "rust file statistics (Tree View):\n\
         ============================================================\n\
         w/ (3 files)\n\
         \u{251c}\u{2500}\u{2500} src/ (2 files)\n\
         \u{2502}   \u{2514}\u{2500}\u{2500} nested/ (1 files)\n\
         \u{2514}\u{2500}\u{2500} tests/ (1 files)\n\
         ============================================================\n\
         Total matching files: 3\n\
         Directories containing files: 3\n\
         Extensions: rs\n"
    );
}

#[test]
fn json_output_shape() {
    let s = output(&["pkg/a.py"], &["/w", "--lang", "python", "--format", "json"]).unwrap();
    assert!(s.contains("\"total_files\":1"));
    assert!(s.contains("\"count_mode\":\"tree\""));
    assert!(s.contains("\"children\":"));
    assert_eq!(
        s,
        "{\"root\":\"w\",\"path\":\"/w\",\"count_mode\":\"tree\",\"lang\":\"python\",\
         \"extensions\":[\"py\"],\"max_depth\":null,\"total_files\":1,\"dirs_with_files\":1,\
         \"tree\":{\"name\":\"w\",\"path\":\"/w\",\"files\":1,\n\
         \"children\":[{\"name\":\"pkg\",\"path\":\"/w/pkg\",\"files\":1,\n\"children\":[]}]}}"
    );
}

#[test]
fn multi_language_count_includes_c_cpp_and_headers() {
    let s = output(
        &["src/a.c", "src/b.cpp", "include/a.h", "include/b.hpp", "src/ignore.py"],
        &["/w", "--lang", "c,cpp"],
    )
    .unwrap();
    assert!(s.contains("Total matching files: 4"));
    assert!(s.contains("Extensions: c,cc,cpp,h,h++,hh,hpp,hxx\n"));
    assert!(s.starts_with("c,c++ file statistics (Tree View):\n"));
}

#[test]
fn pretty_json_is_indented() {
    let s = output(
        &["pkg/a.py"],
        &["/w", "--lang", "python", "--format", "json", "--json-pretty", "--max-depth", "3"],
    )
    .unwrap();
    assert_eq!(
        s,
        "{\n  \"root\": \"w\",\n  \"path\": \"/w\",\n  \"count_mode\": \"tree\",\n  \
         \"lang\": \"python\",\n  \"extensions\": [\"py\"],\n  \"max_depth\": 3,\n  \
         \"total_files\": 1,\n  \"dirs_with_files\": 1,\n  \"tree\":   {\n    \
         \"name\":\"w\",\n    \"path\":\"/w\",\n    \"files\":1,\n    \"children\":[\n    {\n      \
         \"name\":\"pkg\",\n      \"path\":\"/w/pkg\",\n      \"files\":1,\n      \
         \"children\":[]\n    }\n    ]\n  }\n}"
    );
}

#[test]
fn a_run_without_extensions_is_an_error() {
    let r = output(&["a.rs"], &["/w", "--lang", "c", "--headers", "only", "--ext", " "]);
    assert_eq!(r.err(), Some("no extensions selected; provide --lang or --ext".to_string()));
    assert!(output(&["a.rs"], &["/w", "--lang", "c", "--headers", "only", "--ext", "h"]).is_ok());
    let cli = Cli::parse(args(&["--lang", "", "--headers", "exclude"])).unwrap();
    let empty = LanguageRegistry::new(&parse_linguist_yaml(""));
    assert_eq!(
        select_extensions(&cli, &empty).err(),
        Some("no extensions selected; provide --lang or --ext".to_string())
    );
    assert_eq!(
        output(&["a.rs"], &["--lang", "cobol"]).err(),
        Some("invalid --lang value: cobol".to_string())
    );
}

#[test]
fn parse_defaults() {
    let cli = Cli::parse(vec![]).unwrap();
    assert_eq!(cli.path, ".");
    assert!(cli.lang.is_empty());
    assert!(cli.ext.is_empty());
    assert_eq!(cli.headers, HeaderMode::Include);
    assert_eq!(cli.count_mode, CountMode::Tree);
    assert_eq!(cli.max_depth, None);
    assert_eq!(cli.min_count, 0);
    assert!(!cli.show_empty);
    assert!(!cli.follow_symlinks);
    assert!(cli.exclude.is_empty());
    assert!(!cli.no_gitignore);
    assert!(!cli.hidden);
    assert_eq!(cli.format, Format::Text);
    assert!(!cli.json_pretty);
}

#[test]
fn parse_reads_every_option() {
    let cli = Cli::parse(args(&[
        "some/dir",
        "--lang",
        "Rust, c",
        "--ext",
        ".TXT,md, ,..x",
        "--ext",
        "h",
        "--headers",
        "ONLY",
        "--count-mode",
        "Direct",
        "--max-depth",
        "+12",
        "--min-count",
        "007",
        "--show-empty",
        "--follow-symlinks",
        "--exclude",
        "a/*",
        "--exclude",
        "*.tmp",
        "--no-gitignore",
        "--hidden",
        "--format",
        "JSON",
        "--json-pretty",
    ]))
    .unwrap();
    assert_eq!(cli.path, "some/dir");
    assert_eq!(cli.lang, vec!["Rust", "c"]);
    assert_eq!(cli.ext, vec!["txt", "md", "x", "h"]);
    assert_eq!(cli.headers, HeaderMode::Only);
    assert_eq!(cli.count_mode, CountMode::Direct);
    assert_eq!(cli.max_depth, Some(12));
    assert_eq!(cli.min_count, 7);
    assert!(cli.show_empty);
    assert!(cli.follow_symlinks);
    assert_eq!(cli.exclude, vec!["a/*", "*.tmp"]);
    assert!(cli.no_gitignore);
    assert!(cli.hidden);
    assert_eq!(cli.format, Format::Json);
    assert!(cli.json_pretty);
}

fn failure(list: &[&str]) -> String {
    Cli::parse(args(list)).err().unwrap()
}

#[test]
fn parse_errors() {
    assert_eq!(failure(&["-h"]), "--help");
    assert_eq!(failure(&["x", "--help", "--bogus"]), "--help");
    assert_eq!(failure(&["-V"]), "--version");
    assert_eq!(failure(&["--version"]), "--version");
    assert_eq!(failure(&["--lang"]), "--lang requires a value");
    assert_eq!(failure(&["--ext"]), "--ext requires a value");
    assert_eq!(failure(&["--headers"]), "--headers requires a value");
    assert_eq!(failure(&["--count-mode"]), "--count-mode requires a value");
    assert_eq!(failure(&["--max-depth"]), "--max-depth requires a value");
    assert_eq!(failure(&["--min-count"]), "--min-count requires a value");
    assert_eq!(failure(&["--exclude"]), "--exclude requires a value");
    assert_eq!(failure(&["--format"]), "--format requires a value");
    assert_eq!(failure(&["--headers", "some"]), "invalid --headers value: some");
    assert_eq!(failure(&["--count-mode", "all"]), "invalid --count-mode value: all");
    assert_eq!(failure(&["--format", "xml"]), "invalid --format value: xml");
    assert_eq!(failure(&["--max-depth", "-1"]), "invalid max-depth: -1");
    assert_eq!(failure(&["--max-depth", ""]), "invalid max-depth: ");
    assert_eq!(failure(&["--max-depth", "+"]), "invalid max-depth: +");
    assert_eq!(failure(&["--min-count", "1 "]), "invalid min-count: 1 ");
    assert_eq!(
        failure(&["--min-count", "340282366920938463463374607431768211456"]),
        "invalid min-count: 340282366920938463463374607431768211456"
    );
    assert_eq!(failure(&["--nope"]), "unknown option: --nope");
    assert_eq!(failure(&["-"]), "unknown option: -");
    assert_eq!(failure(&["a", "b"]), "unexpected positional argument: b");
}

#[test]
fn parse_takes_the_greatest_number() {
    let max = usize::MAX.to_string();
    let cli = Cli::parse(args(&["--min-count", &max])).unwrap();
    assert_eq!(cli.min_count, usize::MAX);
    let mut over = max.clone();
    over.push('0');
    assert_eq!(failure(&["--min-count", &over]), format!("invalid min-count: {over}"));
}

#[test]
fn ignore_file_patterns() {
    let patterns = parse_gitignore("# comment\n\n  target/  \r\n*.log\n   \n#x\nlast");
    assert_eq!(patterns, vec!["target/", "*.log", "last"]);
    assert!(parse_gitignore("").is_empty());
    assert!(parse_gitignore("\n").is_empty());
    let s = output(&["a.rs", "gen/b.rs", "c.log.rs"], &["--lang", "rust"]).unwrap();
    assert!(s.contains("Total matching files: 3"));
}
