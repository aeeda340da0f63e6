//! The report: which directories are shown, and the text and JSON forms
//! of the tree.

use crate::cli::{Cli, CountMode};
use crate::lang::{display_langs, displayed_langs, LanguageRegistry, NameSet};
use crate::model::{
    aggregate, child_ok, find_path, is_ancestor, lemma_aggregate_of_root,
    lemma_subtree_total_monotonic, linked, total_direct, tree, DirNode, ScanResult, TreeCounts,
};
use crate::text::{chars_of, decimal, join_with, push_chars, push_decimal, push_text, strings};
use vstd::prelude::*;

verus! {

/// What decides whether a directory is shown.
pub struct Show {
    /// Directories are shown even if nothing under them matched.
    pub show_empty: bool,
    /// The count from which on a directory is shown for its own sake.
    pub min_count: usize,
    /// Which count a directory is shown with.
    pub mode: CountMode,
}

/// The rule that the options `cli` choose.
pub open spec fn show_of(cli: &Cli) -> Show {
    Show { show_empty: cli.show_empty, min_count: cli.min_count, mode: cli.count_mode }
}

/// The subtree total that the table holds for `path`; zero if it holds
/// none.
pub open spec fn subtree_of(counts: Map<Seq<char>, usize>, path: Seq<char>) -> nat {
    if counts.contains_key(path) {
        counts[path] as nat
    } else {
        0
    }
}

/// The count that node `i` is shown with.
pub open spec fn shown(
    g: Seq<DirNode>,
    counts: Map<Seq<char>, usize>,
    mode: CountMode,
    i: int,
) -> nat {
    match mode {
        CountMode::Direct => g[i].direct_files,
        CountMode::Tree => subtree_of(counts, g[i].path),
    }
}

/// The count that the directory `path` is shown with: zero in direct
/// mode if the graph does not hold it.
pub open spec fn shown_for(
    g: Seq<DirNode>,
    counts: Map<Seq<char>, usize>,
    mode: CountMode,
    path: Seq<char>,
) -> nat {
    match mode {
        CountMode::Direct => match find_path(g, path) {
            Some(i) => g[i].direct_files,
            None => 0,
        },
        CountMode::Tree => subtree_of(counts, path),
    }
}

/// Whether node `i` is shown: the root always; every node if empty
/// directories are shown; no other node whose subtree total is zero; a
/// node whose count reaches the threshold; and any other node exactly if
/// one of its children is shown.
pub open spec fn visible(g: Seq<DirNode>, counts: Map<Seq<char>, usize>, show: Show, i: int) -> bool
    decreases g.len() - i,
{
    if i == 0 {
        true
    } else if show.show_empty {
        true
    } else if subtree_of(counts, g[i].path) == 0 {
        false
    } else if shown(g, counts, show.mode, i) >= show.min_count {
        true
    } else {
        exists|k: int|
            0 <= k < g[i].children.len() && i < (#[trigger] g[i].children[k]) < g.len() && visible(
                g,
                counts,
                show,
                g[i].children[k],
            )
    }
}

/// Whether the directory `path` is shown. A directory that the graph
/// does not hold has no children to be shown for.
pub open spec fn path_visible(
    g: Seq<DirNode>,
    counts: Map<Seq<char>, usize>,
    show: Show,
    path: Seq<char>,
) -> bool {
    match find_path(g, path) {
        Some(i) => visible(g, counts, show, i),
        None => show.show_empty || (subtree_of(counts, path) != 0 && shown_for(
            g,
            counts,
            show.mode,
            path,
        ) >= show.min_count),
    }
}

/// With empty directories shown, every directory is shown.
pub proof fn lemma_show_empty_shows_all(
    g: Seq<DirNode>,
    counts: Map<Seq<char>, usize>,
    show: Show,
    i: int,
)
    requires
        show.show_empty,
    ensures
        visible(g, counts, show, i),
{
}

/// The children of node `i`, among its first `upto`, that are shown.
pub open spec fn visible_children(
    g: Seq<DirNode>,
    counts: Map<Seq<char>, usize>,
    show: Show,
    i: int,
    upto: int,
) -> Seq<int>
    decreases upto,
{
    if 0 < upto <= g[i].children.len() {
        let before = visible_children(g, counts, show, i, upto - 1);
        if visible(g, counts, show, g[i].children[upto - 1]) {
            before.push(g[i].children[upto - 1])
        } else {
            before
        }
    } else {
        Seq::empty()
    }
}

/// The children of node `i` that are shown, in the order of their names.
pub open spec fn shown_children(
    g: Seq<DirNode>,
    counts: Map<Seq<char>, usize>,
    show: Show,
    i: int,
) -> Seq<int> {
    visible_children(g, counts, show, i, g[i].children.len() as int)
}

/// The indices of `v` as integers.
pub open spec fn indices(v: Seq<usize>) -> Seq<int> {
    v.map_values(|c: usize| c as int)
}

/// The count that the directory at index `i` is shown with.
pub fn count_at(i: usize, scan: &ScanResult, tree_counts: &TreeCounts, mode: CountMode) -> (n:
    usize)
    requires
        i < scan.dirs@.len(),
    ensures
        n == shown(scan.dirs@, tree_counts@, mode, i as int),
{
    let node = scan.dirs.get(i);
    match mode {
        CountMode::Direct => node.direct_files,
        CountMode::Tree => match tree_counts.get(node.path.as_str()) {
            Some(v) => v,
            None => 0,
        },
    }
}

/// The count that the directory `path` is shown with.
pub fn display_count(
    path: &str,
    scan: &ScanResult,
    tree_counts: &TreeCounts,
    mode: CountMode,
) -> (n: usize)
    ensures
        n == shown_for(scan.dirs@, tree_counts@, mode, path@),
{
    match mode {
        CountMode::Direct => match scan.dirs.find(path) {
            Some(i) => scan.dirs.get(i).direct_files,
            None => 0,
        },
        CountMode::Tree => match tree_counts.get(path) {
            Some(v) => v,
            None => 0,
        },
    }
}

/// Whether the directory at index `i` is shown.
pub fn show_at(i: usize, scan: &ScanResult, tree_counts: &TreeCounts, cli: &Cli) -> (b: bool)
    requires
        scan.dirs.wf(),
        i < scan.dirs@.len(),
    ensures
        b == visible(scan.dirs@, tree_counts@, show_of(cli), i as int),
    decreases scan.dirs@.len() - i,
{
    if i == 0 {
        return true;
    }
    if cli.show_empty {
        return true;
    }
    let node = scan.dirs.get(i);
    let subtree: usize = match tree_counts.get(node.path.as_str()) {
        Some(v) => v,
        None => 0,
    };
    if subtree == 0 {
        return false;
    }
    let current = count_at(i, scan, tree_counts, cli.count_mode);
    if current >= cli.min_count {
        return true;
    }
    let ghost g = scan.dirs@;
    let mut k: usize = 0;
    while k < node.children.len()
        invariant
            k <= node.children.len(),
            scan.dirs.wf(),
            g == scan.dirs@,
            0 < i < g.len(),
            node@ == g[i as int],
            !cli.show_empty,
            subtree_of(tree_counts@, g[i as int].path) != 0,
            shown(g, tree_counts@, cli.count_mode, i as int) < cli.min_count,
            forall|l: int|
                0 <= l < k ==> !visible(
                    g,
                    tree_counts@,
                    show_of(cli),
                    #[trigger] g[i as int].children[l],
                ),
        decreases node.children.len() - k,
    {
        let c: usize = node.children[k];
        assert(child_ok(g, i as int, k as int));
        if show_at(c, scan, tree_counts, cli) {
            return true;
        }
        k += 1;
    }
    false
}

/// Whether the directory `path` is shown.
pub fn should_show(path: &str, scan: &ScanResult, tree_counts: &TreeCounts, cli: &Cli) -> (b:
    bool)
    requires
        scan.dirs.wf(),
    ensures
        b == path_visible(scan.dirs@, tree_counts@, show_of(cli), path@),
{
    match scan.dirs.find(path) {
        Some(i) => show_at(i, scan, tree_counts, cli),
        None => {
            if cli.show_empty {
                return true;
            }
            let subtree: usize = match tree_counts.get(path) {
                Some(v) => v,
                None => 0,
            };
            if subtree == 0 {
                return false;
            }
            display_count(path, scan, tree_counts, cli.count_mode) >= cli.min_count
        },
    }
}

/// The children of the directory at index `i` that are shown.
pub fn shown_children_exec(i: usize, scan: &ScanResult, tree_counts: &TreeCounts, cli: &Cli) -> (r:
    Vec<usize>)
    requires
        scan.dirs.wf(),
        i < scan.dirs@.len(),
    ensures
        indices(r@) == shown_children(scan.dirs@, tree_counts@, show_of(cli), i as int),
        forall|k: int| 0 <= k < r@.len() ==> i < #[trigger] r@[k] < scan.dirs@.len(),
{
    let node = scan.dirs.get(i);
    let ghost g = scan.dirs@;
    let mut r: Vec<usize> = Vec::new();
    let mut k: usize = 0;
    while k < node.children.len()
        invariant
            k <= node.children.len(),
            scan.dirs.wf(),
            g == scan.dirs@,
            i < g.len(),
            node@ == g[i as int],
            indices(r@) == visible_children(g, tree_counts@, show_of(cli), i as int, k as int),
            forall|l: int| 0 <= l < r@.len() ==> i < #[trigger] r@[l] < g.len(),
        decreases node.children.len() - k,
    {
        let c: usize = node.children[k];
        assert(child_ok(g, i as int, k as int));
        if show_at(c, scan, tree_counts, cli) {
            r.push(c);
        }
        k += 1;
    }
    r
}

/// The line of equals signs above and below the tree.
pub open spec fn rule_line() -> Seq<char> {
    "============================================================\n"@
}

/// What follows a directory's name on its line: the count.
pub open spec fn count_label(n: nat) -> Seq<char> {
    "/ ("@ + decimal(n) + " files)\n"@
}

/// The branch drawn before a directory's name.
pub open spec fn connector(is_last: bool) -> Seq<char> {
    if is_last {
        "\u{2514}\u{2500}\u{2500} "@
    } else {
        "\u{251c}\u{2500}\u{2500} "@
    }
}

/// What the lines below a directory begin with, after the directory's
/// own prefix.
pub open spec fn continuation(is_last: bool) -> Seq<char> {
    if is_last {
        "    "@
    } else {
        "\u{2502}   "@
    }
}

/// The lines of node `i` and of what is shown below it. `prefix` stands
/// before the branch of the node; `is_last` says whether the node is the
/// last of the children shown.
pub open spec fn text_node(
    g: Seq<DirNode>,
    counts: Map<Seq<char>, usize>,
    show: Show,
    i: int,
    prefix: Seq<char>,
    is_last: bool,
) -> Seq<char>
    decreases g.len() - i, 1int, 0int,
{
    if 0 <= i < g.len() {
        let kids = shown_children(g, counts, show, i);
        prefix + connector(is_last) + g[i].name + count_label(shown(g, counts, show.mode, i))
            + text_nodes(
            g,
            counts,
            show,
            i,
            kids,
            prefix + continuation(is_last),
            kids.len() as int,
        )
    } else {
        Seq::empty()
    }
}

/// The lines of the first `upto` of the children `kids` of node
/// `parent`, each with what is shown below it.
pub open spec fn text_nodes(
    g: Seq<DirNode>,
    counts: Map<Seq<char>, usize>,
    show: Show,
    parent: int,
    kids: Seq<int>,
    prefix: Seq<char>,
    upto: int,
) -> Seq<char>
    decreases g.len() - parent, 0int, upto,
{
    if 0 < upto <= kids.len() {
        text_nodes(g, counts, show, parent, kids, prefix, upto - 1) + if 0 <= parent < kids[upto
            - 1] < g.len() {
            text_node(g, counts, show, kids[upto - 1], prefix, upto == kids.len())
        } else {
            Seq::empty()
        }
    } else {
        Seq::empty()
    }
}

/// The report in text form: a title, the tree between two rules, and
/// the totals.
pub open spec fn text_report(
    g: Seq<DirNode>,
    counts: Map<Seq<char>, usize>,
    show: Show,
    langs: Seq<char>,
    exts: Seq<Seq<char>>,
    total_files: nat,
    dirs_with_files: nat,
) -> Seq<char> {
    let kids = shown_children(g, counts, show, 0);
    langs + " file statistics (Tree View):\n"@ + rule_line() + g[0].name + count_label(
        shown(g, counts, show.mode, 0),
    ) + text_nodes(g, counts, show, 0, kids, Seq::empty(), kids.len() as int) + rule_line()
        + "Total matching files: "@ + decimal(total_files) + "\n"@
        + "Directories containing files: "@ + decimal(dirs_with_files) + "\n"@ + "Extensions: "@
        + join_with(exts, ","@) + "\n"@
}

fn push_count_label(out: &mut String, n: usize)
    ensures
        final(out)@ == old(out)@ + count_label(n as nat),
{
    push_text(out, "/ (");
    push_decimal(out, n);
    push_text(out, " files)\n");
}

/// Appends to `out` the lines of the directory at index `i` and of what
/// is shown below it.
pub fn render_text_node(
    out: &mut String,
    i: usize,
    scan: &ScanResult,
    tree_counts: &TreeCounts,
    cli: &Cli,
    prefix: &Vec<char>,
    is_last: bool,
)
    requires
        scan.dirs.wf(),
        i < scan.dirs@.len(),
    ensures
        final(out)@ == old(out)@ + text_node(
            scan.dirs@,
            tree_counts@,
            show_of(cli),
            i as int,
            prefix@,
            is_last,
        ),
    decreases scan.dirs@.len() - i,
{
    let ghost g = scan.dirs@;
    let ghost show = show_of(cli);
    let node = scan.dirs.get(i);
    push_chars(out, prefix);
    if is_last {
        push_text(out, "\u{2514}\u{2500}\u{2500} ");
    } else {
        push_text(out, "\u{251c}\u{2500}\u{2500} ");
    }
    push_text(out, node.name.as_str());
    push_count_label(out, count_at(i, scan, tree_counts, cli.count_mode));
    let mut next_prefix: Vec<char> = Vec::new();
    let mut p: usize = 0;
    while p < prefix.len()
        invariant
            p <= prefix.len(),
            next_prefix@ == prefix@.take(p as int),
        decreases prefix.len() - p,
    {
        next_prefix.push(prefix[p]);
        p += 1;
    }
    let tail = if is_last {
        chars_of("    ")
    } else {
        chars_of("\u{2502}   ")
    };
    let mut q: usize = 0;
    while q < tail.len()
        invariant
            q <= tail.len(),
            next_prefix@ == prefix@ + tail@.take(q as int),
        decreases tail.len() - q,
    {
        next_prefix.push(tail[q]);
        q += 1;
    }
    assert(tail@.take(tail.len() as int) =~= tail@);
    let ghost head = out@;
    let kids = shown_children_exec(i, scan, tree_counts, cli);
    let mut k: usize = 0;
    while k < kids.len()
        invariant
            k <= kids.len(),
            scan.dirs.wf(),
            g == scan.dirs@,
            show == show_of(cli),
            i < g.len(),
            forall|l: int| 0 <= l < kids@.len() ==> i < #[trigger] kids@[l] < g.len(),
            out@ == head + text_nodes(
                g,
                tree_counts@,
                show,
                i as int,
                indices(kids@),
                next_prefix@,
                k as int,
            ),
        decreases kids.len() - k,
    {
        render_text_node(out, kids[k], scan, tree_counts, cli, &next_prefix, k + 1 == kids.len());
        k += 1;
    }
}

/// The report in text form.
pub fn render_text(
    scan: &ScanResult,
    tree_counts: &TreeCounts,
    extensions: &NameSet,
    registry: &LanguageRegistry,
    langs: &Vec<String>,
    cli: &Cli,
) -> (r: String)
    requires
        scan.dirs.wf(),
    ensures
        r@ == text_report(
            scan.dirs@,
            tree_counts@,
            show_of(cli),
            displayed_langs(registry@, strings(langs@)),
            extensions@,
            scan.total_files as nat,
            scan.dirs_with_files as nat,
        ),
{
    let ghost g = scan.dirs@;
    let ghost show = show_of(cli);
    let mut out = display_langs(registry, langs);
    push_text(&mut out, " file statistics (Tree View):\n");
    push_text(&mut out, "============================================================\n");
    push_text(&mut out, scan.dirs.get(0).name.as_str());
    push_count_label(&mut out, count_at(0, scan, tree_counts, cli.count_mode));
    let ghost head = out@;
    let kids = shown_children_exec(0, scan, tree_counts, cli);
    let prefix: Vec<char> = Vec::new();
    let mut k: usize = 0;
    while k < kids.len()
        invariant
            k <= kids.len(),
            scan.dirs.wf(),
            g == scan.dirs@,
            show == show_of(cli),
            0 < g.len(),
            prefix@ == Seq::<char>::empty(),
            forall|l: int| 0 <= l < kids@.len() ==> 0 < #[trigger] kids@[l] < g.len(),
            out@ == head + text_nodes(
                g,
                tree_counts@,
                show,
                0,
                indices(kids@),
                Seq::empty(),
                k as int,
            ),
        decreases kids.len() - k,
    {
        render_text_node(&mut out, kids[k], scan, tree_counts, cli, &prefix, k + 1 == kids.len());
        k += 1;
    }
    push_text(&mut out, "============================================================\n");
    push_text(&mut out, "Total matching files: ");
    push_decimal(&mut out, scan.total_files);
    push_text(&mut out, "\n");
    push_text(&mut out, "Directories containing files: ");
    push_decimal(&mut out, scan.dirs_with_files);
    push_text(&mut out, "\n");
    push_text(&mut out, "Extensions: ");
    let list = extensions.join(",");
    push_text(&mut out, list.as_str());
    push_text(&mut out, "\n");
    out
}

/// The character `c` as it stands inside a JSON string: a backslash
/// before a backslash or a double quote.
pub open spec fn escaped_char(c: char) -> Seq<char> {
    if c == '\\' {
        seq!['\\', '\\']
    } else if c == '"' {
        seq!['\\', '"']
    } else {
        seq![c]
    }
}

/// The text `s` as it stands inside a JSON string.
pub open spec fn escaped(s: Seq<char>) -> Seq<char>
    decreases s.len(),
{
    if s.len() == 0 {
        Seq::empty()
    } else {
        escaped(s.drop_last()) + escaped_char(s.last())
    }
}

/// The text `s` as a JSON string.
pub open spec fn quoted(s: Seq<char>) -> Seq<char> {
    "\""@ + escaped(s) + "\""@
}

/// Escapes the backslashes and double quotes of `s`.
pub fn escape_json(s: &str) -> (r: String)
    ensures
        r@ == escaped(s@),
{
    let v = chars_of(s);
    let mut r = String::new();
    let mut i: usize = 0;
    while i < v.len()
        invariant
            i <= v.len(),
            r@ == escaped(v@.take(i as int)),
        decreases v.len() - i,
    {
        assert(v@.take(i + 1).drop_last() =~= v@.take(i as int));
        let c: char = v[i];
        if c == '\\' || c == '"' {
            r.push('\\');
        }
        r.push(c);
        i += 1;
    }
    assert(v@.take(v.len() as int) =~= v@);
    r
}

fn push_quoted(out: &mut String, s: &str)
    ensures
        final(out)@ == old(out)@ + quoted(s@),
{
    push_text(out, "\"");
    let e = escape_json(s);
    push_text(out, e.as_str());
    push_text(out, "\"");
}

/// What stands between two parts of a node: a line feed in the pretty
/// form, nothing in the compact form.
pub open spec fn line_break(pretty: bool) -> Seq<char> {
    if pretty {
        "\n"@
    } else {
        Seq::empty()
    }
}

/// What the members of a node are indented with, when the node itself
/// is indented with `pad`.
pub open spec fn inner_pad(pretty: bool, pad: Seq<char>) -> Seq<char> {
    if pretty {
        pad + "  "@
    } else {
        Seq::empty()
    }
}

/// What stands between two nodes of a list of children.
pub open spec fn node_comma(pretty: bool) -> Seq<char> {
    if pretty {
        ",\n"@
    } else {
        ","@
    }
}

/// The JSON object of node `i`, indented with `pad`: its name, its path,
/// the count it is shown with, and the objects of its children that are
/// shown.
pub open spec fn json_node(
    g: Seq<DirNode>,
    counts: Map<Seq<char>, usize>,
    show: Show,
    pretty: bool,
    i: int,
    pad: Seq<char>,
) -> Seq<char>
    decreases g.len() - i, 1int, 0int,
{
    if 0 <= i < g.len() {
        let kids = shown_children(g, counts, show, i);
        let inner = inner_pad(pretty, pad);
        pad + "{"@ + line_break(pretty) + inner + "\"name\":"@ + quoted(g[i].name) + ","@
            + line_break(pretty) + inner + "\"path\":"@ + quoted(g[i].path) + ","@ + line_break(
            pretty,
        ) + inner + "\"files\":"@ + decimal(shown(g, counts, show.mode, i)) + ",\n"@ + inner
            + "\"children\":"@ + json_children(g, counts, show, pretty, i, kids, inner)
            + line_break(pretty) + pad + "}"@
    } else {
        Seq::empty()
    }
}

/// The JSON array of the children `kids` of node `parent`, whose
/// members are indented with `inner`.
pub open spec fn json_children(
    g: Seq<DirNode>,
    counts: Map<Seq<char>, usize>,
    show: Show,
    pretty: bool,
    parent: int,
    kids: Seq<int>,
    inner: Seq<char>,
) -> Seq<char>
    decreases g.len() - parent, 0int, kids.len() + 1,
{
    if kids.len() == 0 {
        "[]"@
    } else if pretty {
        "[\n"@ + json_nodes(g, counts, show, pretty, parent, kids, inner, kids.len() as int)
            + "\n"@ + inner + "]"@
    } else {
        "["@ + json_nodes(g, counts, show, pretty, parent, kids, inner, kids.len() as int) + "]"@
    }
}

/// The JSON objects of the first `upto` of the children `kids` of node
/// `parent`, with commas between them.
pub open spec fn json_nodes(
    g: Seq<DirNode>,
    counts: Map<Seq<char>, usize>,
    show: Show,
    pretty: bool,
    parent: int,
    kids: Seq<int>,
    pad: Seq<char>,
    upto: int,
) -> Seq<char>
    decreases g.len() - parent, 0int, upto,
{
    if 0 < upto <= kids.len() {
        let item = if 0 <= parent < kids[upto - 1] < g.len() {
            json_node(g, counts, show, pretty, kids[upto - 1], pad)
        } else {
            Seq::empty()
        };
        if upto == 1 {
            item
        } else {
            json_nodes(g, counts, show, pretty, parent, kids, pad, upto - 1) + node_comma(pretty)
                + item
        }
    } else {
        Seq::empty()
    }
}

/// The name of a count mode in the report.
pub open spec fn mode_name(mode: CountMode) -> Seq<char> {
    match mode {
        CountMode::Direct => "direct"@,
        CountMode::Tree => "tree"@,
    }
}

/// The greatest depth in the report: a number, or `null`.
pub open spec fn depth_text(max_depth: Option<usize>) -> Seq<char> {
    match max_depth {
        Some(d) => decimal(d as nat),
        None => "null"@,
    }
}

/// The first `upto` of the texts `items` as JSON strings, with `sep`
/// between them.
pub open spec fn quoted_list(items: Seq<Seq<char>>, sep: Seq<char>, upto: int) -> Seq<char>
    decreases upto,
{
    if 0 < upto <= items.len() {
        if upto == 1 {
            quoted(items[0])
        } else {
            quoted_list(items, sep, upto - 1) + sep + quoted(items[upto - 1])
        }
    } else {
        Seq::empty()
    }
}

/// What the report says besides the tree.
pub struct Summary {
    /// The path of the directory that was scanned.
    pub root: Seq<char>,
    /// How the languages asked for are shown.
    pub langs: Seq<char>,
    /// The accepted extensions, in ascending order.
    pub exts: Seq<Seq<char>>,
    /// The greatest depth, if one was set.
    pub max_depth: Option<usize>,
    /// The number of matching files.
    pub total_files: nat,
    /// The number of directories with matching files.
    pub dirs_with_files: nat,
}

/// The report in JSON form, pretty or compact.
pub open spec fn json_report(
    g: Seq<DirNode>,
    counts: Map<Seq<char>, usize>,
    show: Show,
    pretty: bool,
    sum: Summary,
) -> Seq<char> {
    if pretty {
        "{\n  \"root\": "@ + quoted(g[0].name) + ",\n  \"path\": "@ + quoted(sum.root)
            + ",\n  \"count_mode\": \""@ + mode_name(show.mode) + "\",\n  \"lang\": "@
            + quoted(sum.langs) + ",\n  \"extensions\": ["@ + quoted_list(
            sum.exts,
            ", "@,
            sum.exts.len() as int,
        ) + "],\n  \"max_depth\": "@ + depth_text(sum.max_depth) + ",\n  \"total_files\": "@
            + decimal(sum.total_files) + ",\n  \"dirs_with_files\": "@ + decimal(
            sum.dirs_with_files,
        ) + ",\n  \"tree\": "@ + json_node(g, counts, show, true, 0, "  "@) + "\n}"@
    } else {
        "{\"root\":"@ + quoted(g[0].name) + ",\"path\":"@ + quoted(sum.root)
            + ",\"count_mode\":\""@ + mode_name(show.mode) + "\",\"lang\":"@ + quoted(
            sum.langs,
        ) + ",\"extensions\":["@ + quoted_list(sum.exts, ","@, sum.exts.len() as int)
            + "],\"max_depth\":"@ + depth_text(sum.max_depth) + ",\"total_files\":"@ + decimal(
            sum.total_files,
        ) + ",\"dirs_with_files\":"@ + decimal(sum.dirs_with_files) + ",\"tree\":"@
            + json_node(g, counts, show, false, 0, Seq::empty()) + "}"@
    }
}

fn push_line_break(out: &mut String, pretty: bool)
    ensures
        final(out)@ == old(out)@ + line_break(pretty),
{
    if pretty {
        push_text(out, "\n");
    }
}

/// Appends to `out` the JSON object of the directory at index `i`.
pub fn render_json_node(
    out: &mut String,
    i: usize,
    scan: &ScanResult,
    tree_counts: &TreeCounts,
    cli: &Cli,
    pretty: bool,
    pad: &Vec<char>,
)
    requires
        scan.dirs.wf(),
        i < scan.dirs@.len(),
    ensures
        final(out)@ == old(out)@ + json_node(
            scan.dirs@,
            tree_counts@,
            show_of(cli),
            pretty,
            i as int,
            pad@,
        ),
    decreases scan.dirs@.len() - i,
{
    let ghost g = scan.dirs@;
    let ghost show = show_of(cli);
    let node = scan.dirs.get(i);
    let mut inner: Vec<char> = Vec::new();
    if pretty {
        let mut p: usize = 0;
        while p < pad.len()
            invariant
                p <= pad.len(),
                inner@ == pad@.take(p as int),
            decreases pad.len() - p,
        {
            inner.push(pad[p]);
            p += 1;
        }
        let two = chars_of("  ");
        let mut q: usize = 0;
        while q < two.len()
            invariant
                q <= two.len(),
                inner@ == pad@ + two@.take(q as int),
            decreases two.len() - q,
        {
            inner.push(two[q]);
            q += 1;
        }
        assert(two@.take(two.len() as int) =~= two@);
    }
    let mut piece = String::new();
    push_chars(&mut piece, pad);
    push_text(&mut piece, "{");
    push_line_break(&mut piece, pretty);
    push_chars(&mut piece, &inner);
    push_text(&mut piece, "\"name\":");
    push_quoted(&mut piece, node.name.as_str());
    push_text(&mut piece, ",");
    push_line_break(&mut piece, pretty);
    push_chars(&mut piece, &inner);
    push_text(&mut piece, "\"path\":");
    push_quoted(&mut piece, node.path.as_str());
    push_text(&mut piece, ",");
    push_line_break(&mut piece, pretty);
    push_chars(&mut piece, &inner);
    push_text(&mut piece, "\"files\":");
    push_decimal(&mut piece, count_at(i, scan, tree_counts, cli.count_mode));
    push_text(&mut piece, ",\n");
    push_chars(&mut piece, &inner);
    push_text(&mut piece, "\"children\":");
    let kids = shown_children_exec(i, scan, tree_counts, cli);
    let mut list = String::new();
    if kids.len() == 0 {
        push_text(&mut list, "[]");
    } else {
        if pretty {
            push_text(&mut list, "[\n");
        } else {
            push_text(&mut list, "[");
        }
        let mut items = String::new();
        let mut k: usize = 0;
        while k < kids.len()
            invariant
                k <= kids.len(),
                scan.dirs.wf(),
                g == scan.dirs@,
                show == show_of(cli),
                i < g.len(),
                forall|l: int| 0 <= l < kids@.len() ==> i < #[trigger] kids@[l] < g.len(),
                items@ == json_nodes(
                    g,
                    tree_counts@,
                    show,
                    pretty,
                    i as int,
                    indices(kids@),
                    inner@,
                    k as int,
                ),
            decreases kids.len() - k,
        {
            if k > 0 {
                if pretty {
                    push_text(&mut items, ",\n");
                } else {
                    push_text(&mut items, ",");
                }
            }
            render_json_node(&mut items, kids[k], scan, tree_counts, cli, pretty, &inner);
            k += 1;
        }
        push_text(&mut list, items.as_str());
        if pretty {
            push_text(&mut list, "\n");
            push_chars(&mut list, &inner);
        }
        push_text(&mut list, "]");
    }
    push_text(&mut piece, list.as_str());
    push_line_break(&mut piece, pretty);
    push_chars(&mut piece, pad);
    push_text(&mut piece, "}");
    push_text(out, piece.as_str());
}

fn push_quoted_list(out: &mut String, items: &NameSet, sep: &str)
    ensures
        final(out)@ == old(out)@ + quoted_list(items@, sep@, items@.len() as int),
{
    let mut list = String::new();
    let n = items.len();
    let mut k: usize = 0;
    while k < n
        invariant
            k <= n,
            n == items@.len(),
            list@ == quoted_list(items@, sep@, k as int),
        decreases n - k,
    {
        if k > 0 {
            push_text(&mut list, sep);
        }
        push_quoted(&mut list, items.get(k).as_str());
        k += 1;
    }
    push_text(out, list.as_str());
}

fn push_mode_name(out: &mut String, mode: CountMode)
    ensures
        final(out)@ == old(out)@ + mode_name(mode),
{
    match mode {
        CountMode::Direct => push_text(out, "direct"),
        CountMode::Tree => push_text(out, "tree"),
    }
}

fn push_depth(out: &mut String, max_depth: Option<usize>)
    ensures
        final(out)@ == old(out)@ + depth_text(max_depth),
{
    match max_depth {
        Some(d) => push_decimal(out, d),
        None => push_text(out, "null"),
    }
}

/// The report in JSON form, pretty or compact.
pub fn render_json(
    scan: &ScanResult,
    tree_counts: &TreeCounts,
    extensions: &NameSet,
    registry: &LanguageRegistry,
    langs: &Vec<String>,
    cli: &Cli,
    pretty: bool,
) -> (r: String)
    requires
        scan.dirs.wf(),
    ensures
        r@ == json_report(
            scan.dirs@,
            tree_counts@,
            show_of(cli),
            pretty,
            Summary {
                root: scan.root@,
                langs: displayed_langs(registry@, strings(langs@)),
                exts: extensions@,
                max_depth: cli.max_depth,
                total_files: scan.total_files as nat,
                dirs_with_files: scan.dirs_with_files as nat,
            },
        ),
{
    let shown_langs = display_langs(registry, langs);
    let mut out = String::new();
    if pretty {
        push_text(&mut out, "{\n  \"root\": ");
        push_quoted(&mut out, scan.dirs.get(0).name.as_str());
        push_text(&mut out, ",\n  \"path\": ");
        push_quoted(&mut out, scan.root.as_str());
        push_text(&mut out, ",\n  \"count_mode\": \"");
        push_mode_name(&mut out, cli.count_mode);
        push_text(&mut out, "\",\n  \"lang\": ");
        push_quoted(&mut out, shown_langs.as_str());
        push_text(&mut out, ",\n  \"extensions\": [");
        push_quoted_list(&mut out, extensions, ", ");
        push_text(&mut out, "],\n  \"max_depth\": ");
        push_depth(&mut out, cli.max_depth);
        push_text(&mut out, ",\n  \"total_files\": ");
        push_decimal(&mut out, scan.total_files);
        push_text(&mut out, ",\n  \"dirs_with_files\": ");
        push_decimal(&mut out, scan.dirs_with_files);
        push_text(&mut out, ",\n  \"tree\": ");
        let pad = chars_of("  ");
        render_json_node(&mut out, 0, scan, tree_counts, cli, true, &pad);
        push_text(&mut out, "\n}");
    } else {
        push_text(&mut out, "{\"root\":");
        push_quoted(&mut out, scan.dirs.get(0).name.as_str());
        push_text(&mut out, ",\"path\":");
        push_quoted(&mut out, scan.root.as_str());
        push_text(&mut out, ",\"count_mode\":\"");
        push_mode_name(&mut out, cli.count_mode);
        push_text(&mut out, "\",\"lang\":");
        push_quoted(&mut out, shown_langs.as_str());
        push_text(&mut out, ",\"extensions\":[");
        push_quoted_list(&mut out, extensions, ",");
        push_text(&mut out, "],\"max_depth\":");
        push_depth(&mut out, cli.max_depth);
        push_text(&mut out, ",\"total_files\":");
        push_decimal(&mut out, scan.total_files);
        push_text(&mut out, ",\"dirs_with_files\":");
        push_decimal(&mut out, scan.dirs_with_files);
        push_text(&mut out, ",\"tree\":");
        let pad: Vec<char> = Vec::new();
        render_json_node(&mut out, 0, scan, tree_counts, cli, false, &pad);
        push_text(&mut out, "}");
    }
    out
}

/// While empty directories are not shown for their own sake, a
/// directory is shown if a directory below it is shown: with the table
/// of the tree, whatever is shown has all directories above it shown.
pub proof fn lemma_visible_upward(g: Seq<DirNode>, show: Show, a: int, d: int)
    requires
        tree(g),
        total_direct(g) <= usize::MAX,
        !show.show_empty,
        0 <= a < g.len(),
        0 <= d < g.len(),
        is_ancestor(g, a, d),
        visible(g, aggregate(g, g[0].path), show, d),
    ensures
        visible(g, aggregate(g, g[0].path), show, a),
    decreases d,
{
    if d != a {
        assert(linked(g, d));
        let p = g[d].parent;
        if p != 0 {
            lemma_aggregate_of_root(g, d);
            lemma_aggregate_of_root(g, p);
            lemma_subtree_total_monotonic(g, d);
        }
        lemma_visible_upward(g, show, a, p);
    }
}

} // verus!
