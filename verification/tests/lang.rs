use treestat::cli::HeaderMode;
use treestat::lang::{
    build_extensions, canonical_language_name, display_langs, normalize_ext, parse_linguist_yaml,
    LanguageRegistry, NameSet,
};

const LANGUAGES: &str = "# languages\nC:\n  aliases:\n  - c\n  extensions:\n  - .c\n  - .H\nC++:\n  aliases:\n  - cpp\n  - CXX\n  extensions:\n  - .cpp\n  - .cc\nPython:\n  aliases:\n  - python3\n  extensions:\n  - .py\nRust:\n  extensions:\n  - .rs\n  - - .rs.in\n";

fn registry() -> LanguageRegistry {
    LanguageRegistry::new(&parse_linguist_yaml(LANGUAGES))
}

fn strings(list: &[&str]) -> Vec<String> {
    list.iter().map(|s| s.to_string()).collect()
}

fn names(set: &NameSet) -> Vec<String> {
    (0..set.len()).map(|i| set.get(i).clone()).collect()
}

#[test]
fn language_file_is_read_line_by_line() {
    let languages = parse_linguist_yaml(LANGUAGES);
    assert_eq!(languages.len(), 4);
    assert_eq!(languages[0].name, "C");
    assert_eq!(languages[0].aliases, vec!["c"]);
    assert_eq!(languages[0].extensions, vec![".c", ".H"]);
    assert_eq!(languages[1].name, "C++");
    assert_eq!(languages[1].aliases, vec!["cpp", "CXX"]);
    assert_eq!(languages[3].name, "Rust");
    assert!(languages[3].aliases.is_empty());
    assert_eq!(languages[3].extensions, vec![".rs", ".rs.in"]);
}

#[test]
fn language_file_oddities() {
    let text = "- stray\nA::\n- early\n  extensions:\n  - x\n indented:\n  - y\nB:\n  aliases:\n  - b1\nA:\n  aliases:\n  - again\naliases:\n";
    let languages = parse_linguist_yaml(text);
    assert_eq!(languages.len(), 3);
    assert_eq!(languages[0].name, "A");
    assert_eq!(languages[0].extensions, vec!["x", "y"]);
    assert_eq!(languages[0].aliases, vec!["again"]);
    assert_eq!(languages[1].name, "B");
    assert_eq!(languages[1].aliases, vec!["b1"]);
    assert_eq!(languages[2].name, "aliases");
    assert!(parse_linguist_yaml("").is_empty());
}

#[test]
fn canonical_names() {
    let reg = registry();
    assert_eq!(reg.len(), 4);
    assert_eq!(canonical_language_name(&reg, "C"), Some("c".to_string()));
    assert_eq!(canonical_language_name(&reg, "cpp"), Some("c++".to_string()));
    assert_eq!(canonical_language_name(&reg, "cxx"), Some("c++".to_string()));
    assert_eq!(canonical_language_name(&reg, "C++"), Some("c++".to_string()));
    assert_eq!(canonical_language_name(&reg, "PYTHON3"), Some("python".to_string()));
    assert_eq!(canonical_language_name(&reg, "rust"), Some("rust".to_string()));
    assert_eq!(canonical_language_name(&reg, "go"), None);
    assert_eq!(canonical_language_name(&reg, ""), None);
}

#[test]
fn extensions_are_normalized() {
    assert_eq!(normalize_ext("  .RS "), Some("rs".to_string()));
    assert_eq!(normalize_ext("..Tar.GZ"), Some("tar.gz".to_string()));
    assert_eq!(normalize_ext("h++"), Some("h++".to_string()));
    assert_eq!(normalize_ext("."), Some("".to_string()));
    assert_eq!(normalize_ext(""), None);
    assert_eq!(normalize_ext(" \t\u{a0}\u{3000}\n"), None);
    assert_eq!(normalize_ext("\u{c9}t\u{e9}"), Some("\u{c9}t\u{e9}".to_string()));
}

#[test]
fn build_extensions_for_languages_and_extras() {
    let reg = registry();
    let set = build_extensions(&reg, &strings(&["rust"]), &strings(&[".TXT", " "]), HeaderMode::Include)
        .unwrap();
    assert_eq!(names(&set), vec!["rs", "rs.in", "txt"]);
    let set = build_extensions(&reg, &strings(&["Python3", "cpp"]), &vec![], HeaderMode::Include)
        .unwrap();
    assert_eq!(names(&set), vec!["cc", "cpp", "h", "h++", "hh", "hpp", "hxx", "py"]);
    let set = build_extensions(&reg, &strings(&["c"]), &vec![], HeaderMode::Exclude).unwrap();
    assert_eq!(names(&set), vec!["c"]);
    let set = build_extensions(&reg, &strings(&["c"]), &vec![], HeaderMode::Only).unwrap();
    assert_eq!(names(&set), vec!["h"]);
    let set = build_extensions(&reg, &strings(&["python"]), &strings(&["h"]), HeaderMode::Only)
        .unwrap();
    assert_eq!(names(&set), vec!["h", "py"]);
}

#[test]
fn build_extensions_for_all_languages() {
    let reg = registry();
    let all = vec!["c", "cc", "cpp", "h", "h++", "hh", "hpp", "hxx", "py", "rs", "rs.in"];
    let set = build_extensions(&reg, &vec![], &vec![], HeaderMode::Include).unwrap();
    assert_eq!(names(&set), all);
    let set = build_extensions(&reg, &strings(&["ALL"]), &vec![], HeaderMode::Include).unwrap();
    assert_eq!(names(&set), all);
    let set = build_extensions(&reg, &strings(&["all"]), &vec![], HeaderMode::Exclude).unwrap();
    assert_eq!(names(&set), vec!["c", "cc", "cpp", "py", "rs", "rs.in"]);
}

#[test]
fn build_extensions_names_the_first_unknown_language() {
    let reg = registry();
    let r = build_extensions(&reg, &strings(&["rust", "Cobol", "ada"]), &vec![], HeaderMode::Include);
    assert_eq!(r.err(), Some("invalid --lang value: Cobol".to_string()));
}

#[test]
fn languages_are_displayed_sorted_and_once() {
    let reg = registry();
    assert_eq!(display_langs(&reg, &vec![]), "all");
    assert_eq!(display_langs(&reg, &strings(&["rust"])), "rust");
    assert_eq!(display_langs(&reg, &strings(&["Rust", "cpp", "C++", "Zig", "c"])), "c,c++,rust,zig");
}

#[test]
fn name_sets() {
    let mut a = NameSet::new();
    assert!(a.is_empty());
    for x in ["b", "a", "ab", "b", "", "B"] {
        a.insert(x.to_string());
    }
    assert_eq!(names(&a), vec!["", "B", "a", "ab", "b"]);
    assert_eq!(a.join(", "), ", B, a, ab, b");
    let mut b = NameSet::new();
    b.insert("c".to_string());
    b.insert("a".to_string());
    b.extend(&a);
    assert_eq!(names(&b), vec!["", "B", "a", "ab", "b", "c"]);
    let copy = b.duplicate();
    assert_eq!(names(&copy), names(&b));
    b.extend_normalized(&strings(&[".Z", " "]));
    assert_eq!(b.len(), 7);
    assert!(b.contains("z"));
    assert!(!copy.contains("z"));
    assert_eq!(NameSet::new().join(","), "");
}
