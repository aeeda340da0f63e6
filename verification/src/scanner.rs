//! Scanning: the exclusion rules, the walk over the directory tree as a
//! state machine that is fed one directory listing at a time, and the
//! aggregation of subtree totals.

use crate::cli::Cli;
use crate::lang::NameSet;
use crate::model::{
    aggregate, aggregate_upto, child_ok, children_total, dirs_with_files, find_child, is_ancestor,
    lemma_count_with_files_bound, lemma_find_own_path, lemma_slot, lemma_subtree_le_total,
    lemma_with_child_counts, lemma_with_file_counts, linked, slot, subtree_total, total_direct,
    tree, valid_name, with_child, with_file, DirGraph, DirNode, ScanResult, TreeCounts,
};
use crate::text::{
    chars_of, contains, contains_exec, ends_with, ends_with_exec, lines, lines_exec, lower,
    lower_exec, push_text, same_text, slice_of, split, split_exec, starts_with, starts_with_exec,
    string_of, strings, texts, trim, trim_char, trim_whitespace, whitespace,
};
use vstd::hash_set::StringHashSet;
use vstd::prelude::*;

verus! {

/// Whether the path `path`, relative to the root of the scan, matches
/// the exclusion pattern `pattern`. The rules are coarse on purpose: `*`
/// matches every path; `prefix/*` matches the paths that begin with
/// `prefix`; `*.suffix` matches the paths that end with `.suffix`; any
/// other pattern matches the paths in which it occurs, once the `/` at
/// its ends are taken off.
pub open spec fn pattern_matches(path: Seq<char>, pattern: Seq<char>) -> bool {
    if pattern == seq!['*'] {
        true
    } else if ends_with(pattern, seq!['/', '*']) {
        starts_with(path, pattern.subrange(0, pattern.len() - 2))
    } else if starts_with(pattern, seq!['*', '.']) {
        ends_with(path, pattern.subrange(1, pattern.len() as int))
    } else {
        contains(path, trim(pattern, set!['/']))
    }
}

/// The pattern `*` matches every path.
pub proof fn lemma_star_matches_all(path: Seq<char>)
    ensures
        pattern_matches(path, seq!['*']),
{
}

/// Whether `path` matches `pattern`, both given by their characters.
pub fn matches_chars(path: &Vec<char>, pattern: &Vec<char>) -> (b: bool)
    ensures
        b == pattern_matches(path@, pattern@),
{
    let star: Vec<char> = vec!['*'];
    let slash_star: Vec<char> = vec!['/', '*'];
    let star_dot: Vec<char> = vec!['*', '.'];
    assert(star@ =~= seq!['*']);
    if same_text(pattern, &star) {
        true
    } else if ends_with_exec(pattern, &slash_star) {
        let prefix = slice_of(pattern, 0, pattern.len() - 2);
        starts_with_exec(path, &prefix)
    } else if starts_with_exec(pattern, &star_dot) {
        let suffix = slice_of(pattern, 1, pattern.len());
        ends_with_exec(path, &suffix)
    } else {
        let needle = trim_char(pattern, '/');
        contains_exec(path, &needle)
    }
}

/// Whether the relative path `path` matches the exclusion pattern
/// `pattern`.
pub fn simple_match(path: &str, pattern: &str) -> (b: bool)
    ensures
        b == pattern_matches(path@, pattern@),
{
    let p = chars_of(path);
    let q = chars_of(pattern);
    matches_chars(&p, &q)
}

/// A path component that begins with a dot.
pub open spec fn is_hidden(component: Seq<char>) -> bool {
    component.len() > 0 && component[0] == '.'
}

/// A directory name that is skipped in every scan.
pub open spec fn is_default_skip(component: Seq<char>) -> bool {
    ||| component == ".git"@
    ||| component == "target"@
    ||| component == "build"@
    ||| component == "out"@
    ||| component == "node_modules"@
    ||| component == "third_party"@
    ||| component == "dist"@
}

/// One of the components is hidden.
pub open spec fn any_hidden(components: Seq<Seq<char>>) -> bool {
    exists|k: int| 0 <= k < components.len() && is_hidden(#[trigger] components[k])
}

/// One of the components is a name that is always skipped.
pub open spec fn any_default_skip(components: Seq<Seq<char>>) -> bool {
    exists|k: int| 0 <= k < components.len() && is_default_skip(#[trigger] components[k])
}

/// One of the patterns matches the path.
pub open spec fn any_matches(path: Seq<char>, patterns: Seq<Seq<char>>) -> bool {
    exists|k: int| 0 <= k < patterns.len() && pattern_matches(path, #[trigger] patterns[k])
}

/// Whether the entry at the relative path `rel` is left out of the scan:
/// a component of the path is hidden and hidden entries are not asked
/// for, a component is a name that is always skipped, or one of the
/// patterns, the user's or those of the ignore file, matches the path.
pub open spec fn excluded(
    rel: Seq<char>,
    hidden: bool,
    exclude: Seq<Seq<char>>,
    gitignore: Seq<Seq<char>>,
) -> bool {
    ||| !hidden && any_hidden(split(rel, '/'))
    ||| any_default_skip(split(rel, '/'))
    ||| any_matches(rel, exclude)
    ||| any_matches(rel, gitignore)
}

/// Whether `component` is a name that is always skipped.
pub fn is_default_skip_exec(component: &Vec<char>) -> (b: bool)
    ensures
        b == is_default_skip(component@),
{
    let a = chars_of(".git");
    let b = chars_of("target");
    let c = chars_of("build");
    let d = chars_of("out");
    let e = chars_of("node_modules");
    let f = chars_of("third_party");
    let g = chars_of("dist");
    same_text(component, &a) || same_text(component, &b) || same_text(component, &c) || same_text(
        component,
        &d,
    ) || same_text(component, &e) || same_text(component, &f) || same_text(component, &g)
}

/// Whether one of `patterns` matches `path`.
pub fn any_matches_exec(path: &Vec<char>, patterns: &Vec<Vec<char>>) -> (b: bool)
    ensures
        b == any_matches(path@, texts(patterns@)),
{
    let mut k: usize = 0;
    while k < patterns.len()
        invariant
            k <= patterns.len(),
            forall|l: int| 0 <= l < k ==> !pattern_matches(path@, #[trigger] texts(patterns@)[l]),
        decreases patterns.len() - k,
    {
        if matches_chars(path, &patterns[k]) {
            assert(pattern_matches(path@, texts(patterns@)[k as int]));
            return true;
        }
        k += 1;
    }
    false
}

/// Whether the entry at the relative path `rel` is left out of the scan,
/// with the path and the patterns given by their characters.
pub fn excluded_chars(
    rel: &Vec<char>,
    hidden: bool,
    exclude: &Vec<Vec<char>>,
    gitignore: &Vec<Vec<char>>,
) -> (b: bool)
    ensures
        b == excluded(rel@, hidden, texts(exclude@), texts(gitignore@)),
{
    let components = split_exec(rel, '/');
    let mut k: usize = 0;
    while k < components.len()
        invariant
            k <= components.len(),
            texts(components@) == split(rel@, '/'),
            forall|l: int|
                0 <= l < k ==> !(!hidden && is_hidden(#[trigger] texts(components@)[l]))
                    && !is_default_skip(texts(components@)[l]),
        decreases components.len() - k,
    {
        let c = &components[k];
        assert(c@ == texts(components@)[k as int]);
        if !hidden && c.len() > 0 && c[0] == '.' {
            return true;
        }
        if is_default_skip_exec(c) {
            return true;
        }
        k += 1;
    }
    if any_matches_exec(rel, exclude) {
        return true;
    }
    any_matches_exec(rel, gitignore)
}

/// The character vectors of the strings of `v`.
pub fn chars_of_all(v: &Vec<String>) -> (r: Vec<Vec<char>>)
    ensures
        texts(r@) == strings(v@),
{
    let mut r: Vec<Vec<char>> = Vec::new();
    let mut i: usize = 0;
    while i < v.len()
        invariant
            i <= v.len(),
            texts(r@) == strings(v@.take(i as int)),
        decreases v.len() - i,
    {
        let ghost before = texts(r@);
        r.push(chars_of(v[i].as_str()));
        assert(texts(r@) =~= before.push(v@[i as int]@));
        i += 1;
    }
    r
}

/// Whether the entry at the relative path `rel` is left out of the scan
/// under the options `cli` and the patterns of the ignore file.
pub fn should_exclude(rel: &str, cli: &Cli, gitignore: &Vec<String>) -> (b: bool)
    ensures
        b == excluded(rel@, cli.hidden, strings(cli.exclude@), strings(gitignore@)),
{
    let path = chars_of(rel);
    let exclude = chars_of_all(&cli.exclude);
    let ignore = chars_of_all(gitignore);
    excluded_chars(&path, cli.hidden, &exclude, &ignore)
}

proof fn lemma_children_total_antitone(g: Seq<DirNode>, i: int, a: int, b: int)
    requires
        0 <= i < a <= b,
    ensures
        children_total(g, i, b) <= children_total(g, i, a),
    decreases b - a,
{
    if a < b {
        lemma_children_total_antitone(g, i, a + 1, b);
    }
}

proof fn lemma_children_total_beyond(g: Seq<DirNode>, i: int, from: int)
    requires
        from >= g.len(),
    ensures
        children_total(g, i, from) == 0,
{
}

/// What the files of node `k` and of the subtrees of its children at
/// index `t` or later come to.
spec fn partial_total(g: Seq<DirNode>, k: int, t: int) -> nat {
    g[k].direct_files + children_total(
        g,
        k,
        if t > k + 1 {
            t
        } else {
            k + 1
        },
    )
}

/// The subtree totals, indexed like the graph's nodes.
fn subtree_totals(dirs: &DirGraph) -> (totals: Vec<usize>)
    requires
        dirs.wf(),
    ensures
        totals@.len() == dirs@.len(),
        forall|i: int| 0 <= i < dirs@.len() ==> totals@[i] == subtree_total(dirs@, i),
{
    let n = dirs.len();
    let mut totals: Vec<usize> = Vec::new();
    let mut i: usize = 0;
    while i < n
        invariant
            i <= n,
            n == dirs@.len(),
            totals@.len() == i,
            forall|k: int| 0 <= k < i ==> totals@[k] == dirs@[k].direct_files,
        decreases n - i,
    {
        totals.push(dirs.get(i).direct_files);
        i += 1;
    }
    let ghost g = dirs@;
    assert forall|k: int| 0 <= k < n implies totals@[k] == #[trigger] partial_total(
        g,
        k,
        n as int,
    ) by {
        lemma_children_total_beyond(g, k, n as int);
        if k + 1 >= n {
            lemma_children_total_beyond(g, k, k + 1);
        }
    }
    let mut t: usize = n;
    while t > 1
        invariant
            1 <= t <= n,
            n == g.len(),
            g == dirs@,
            dirs.wf(),
            totals@.len() == n,
            forall|k: int| 0 <= k < n ==> totals@[k] == #[trigger] partial_total(g, k, t as int),
        decreases t,
    {
        let j: usize = t - 1;
        let p: usize = dirs.get(j).parent;
        proof {
            assert(linked(g, j as int));
            assert(totals@[j as int] == partial_total(g, j as int, t as int));
            assert(totals@[p as int] == partial_total(g, p as int, t as int));
            assert(totals@[j as int] == subtree_total(g, j as int));
            lemma_children_total_antitone(g, p as int, p + 1, j as int);
            lemma_subtree_le_total(g, p as int);
        }
        let ghost old_totals = totals@;
        let sum: usize = totals[p] + totals[j];
        totals.set(p, sum);
        t = j;
        proof {
            assert forall|k: int| 0 <= k < n implies totals@[k] == #[trigger] partial_total(
                g,
                k,
                t as int,
            ) by {
                assert(old_totals[k] == partial_total(g, k, j + 1));
            }
        }
    }
    assert forall|i: int| 0 <= i < n implies totals@[i] == subtree_total(g, i) by {
        assert(totals@[i] == partial_total(g, i, 1));
    }
    totals
}

/// For each node, whether it is the node `r` or stands below it.
fn below(dirs: &DirGraph, r: usize) -> (marks: Vec<bool>)
    requires
        dirs.wf(),
        r < dirs@.len(),
    ensures
        marks@.len() == dirs@.len(),
        forall|i: int| 0 <= i < dirs@.len() ==> marks@[i] == is_ancestor(dirs@, r as int, i),
{
    let n = dirs.len();
    let mut marks: Vec<bool> = Vec::new();
    let mut i: usize = 0;
    while i < n
        invariant
            i <= n,
            n == dirs@.len(),
            r < n,
            dirs.wf(),
            marks@.len() == i,
            forall|k: int| 0 <= k < i ==> marks@[k] == is_ancestor(dirs@, r as int, k),
        decreases n - i,
    {
        let mark = if i == r {
            true
        } else if i > 0 {
            assert(linked(dirs@, i as int));
            marks[dirs.get(i).parent]
        } else {
            false
        };
        marks.push(mark);
        i += 1;
    }
    marks
}

/// The subtree totals of the directory `root` and of the directories
/// below it, by path.
pub fn compute_tree_counts(root: &str, dirs: &DirGraph) -> (counts: TreeCounts)
    requires
        dirs.wf(),
    ensures
        counts@ == aggregate(dirs@, root@),
{
    let mut counts = TreeCounts::new();
    match dirs.find(root) {
        None => {
            counts.insert(root.to_owned(), 0);
        },
        Some(r) => {
            let totals = subtree_totals(dirs);
            let marks = below(dirs, r);
            let n = dirs.len();
            let mut i: usize = 0;
            while i < n
                invariant
                    i <= n,
                    n == dirs@.len(),
                    r < n,
                    dirs.wf(),
                    totals@.len() == n,
                    marks@.len() == n,
                    forall|k: int| 0 <= k < n ==> totals@[k] == subtree_total(dirs@, k),
                    forall|k: int| 0 <= k < n ==> marks@[k] == is_ancestor(dirs@, r as int, k),
                    counts@ == aggregate_upto(dirs@, r as int, i as int),
                decreases n - i,
            {
                if marks[i] {
                    let node = dirs.get(i);
                    counts.insert(node.path.clone(), totals[i]);
                    proof {
                        lemma_find_own_path(dirs@, i as int);
                    }
                }
                proof {
                    let g = dirs@;
                    let next = aggregate_upto(g, r as int, i + 1);
                    assert forall|p: Seq<char>| counts@.contains_key(p) implies next.contains_key(
                        p,
                    ) by {
                    }
                }
                i += 1;
            }
        },
    }
    counts
}

/// What a directory entry is.
#[derive(Debug, Clone, Copy, PartialEq, Eq, Structural)]
pub enum EntryKind {
    File,
    Dir,
    Symlink,
    Other,
}

/// One entry of a directory listing: its name, and what it is, if that
/// could be found out.
#[derive(Debug)]
pub struct Entry {
    pub name: String,
    pub kind: Option<EntryKind>,
}

/// An entry as the contracts see it.
pub struct EntryView {
    pub name: Seq<char>,
    pub kind: Option<EntryKind>,
}

impl View for Entry {
    type V = EntryView;

    open spec fn view(&self) -> EntryView {
        EntryView { name: self.name@, kind: self.kind }
    }
}

/// The entries of a listing as the contracts see them.
pub open spec fn entry_views(v: Seq<Entry>) -> Seq<EntryView> {
    v.map_values(|e: Entry| e@)
}

/// What the walk does with an entry.
#[derive(Debug, Clone, Copy, PartialEq, Eq, Structural)]
pub enum Verdict {
    /// The entry is passed over.
    Skip,
    /// The entry is counted as a matching file of its directory.
    Count,
    /// The entry is a directory that the walk goes into.
    Descend,
}

/// The rules of one scan.
pub struct Rules {
    /// The accepted extensions.
    pub extensions: Seq<Seq<char>>,
    /// The greatest depth of a directory that is gone into; the root has
    /// the depth zero.
    pub max_depth: Option<usize>,
    /// Whether hidden entries are scanned.
    pub hidden: bool,
    /// The user's exclusion patterns.
    pub exclude: Seq<Seq<char>>,
    /// The patterns of the ignore file.
    pub gitignore: Seq<Seq<char>>,
}

/// The path, relative to the root of the scan, of the entry `name` of
/// the directory whose relative path is `dir`; the root's is empty.
pub open spec fn rel_join(dir: Seq<char>, name: Seq<char>) -> Seq<char> {
    if dir.len() == 0 {
        name
    } else {
        dir.push('/') + name
    }
}

/// The position of the last dot of `name`; -1 if it has none.
pub open spec fn last_dot(name: Seq<char>) -> int
    decreases name.len(),
{
    if name.len() == 0 {
        -1
    } else if name.last() == '.' {
        name.len() - 1
    } else {
        last_dot(name.drop_last())
    }
}

/// The extension of the file name `name`: what follows its last dot,
/// unless the name has no dot or only the one it begins with.
pub open spec fn extension(name: Seq<char>) -> Option<Seq<char>> {
    let dot = last_dot(name);
    if dot <= 0 {
        None
    } else {
        Some(name.subrange(dot + 1, name.len() as int))
    }
}

/// The file `name` has an accepted extension, whatever the case of its
/// letters.
pub open spec fn accepted(extensions: Seq<Seq<char>>, name: Seq<char>) -> bool {
    match extension(name) {
        Some(x) => extensions.contains(lower(x)),
        None => false,
    }
}

/// What the walk does with the entry `entry`, whose relative path is
/// `rel`, of a directory at depth `depth`: it skips an entry whose name
/// is not one path component, an excluded one, one whose kind is
/// unknown, a symbolic link and anything that is neither file nor
/// directory; it goes into a directory unless that lies deeper than
/// allowed; it counts a file with an accepted extension.
pub open spec fn verdict(rules: Rules, depth: nat, rel: Seq<char>, entry: EntryView) -> Verdict {
    if !valid_name(entry.name) || excluded(rel, rules.hidden, rules.exclude, rules.gitignore) {
        Verdict::Skip
    } else {
        match entry.kind {
            Some(EntryKind::Dir) => {
                if rules.max_depth is Some && depth + 1 > rules.max_depth.unwrap() {
                    Verdict::Skip
                } else {
                    Verdict::Descend
                }
            },
            Some(EntryKind::File) => {
                if accepted(rules.extensions, entry.name) {
                    Verdict::Count
                } else {
                    Verdict::Skip
                }
            },
            _ => Verdict::Skip,
        }
    }
}

/// With hidden entries left out, a path is excluded if one of its
/// components is hidden or if it is excluded with hidden entries let in.
pub proof fn lemma_hidden_rule(rel: Seq<char>, exclude: Seq<Seq<char>>, gitignore: Seq<Seq<char>>)
    ensures
        excluded(rel, false, exclude, gitignore) == (any_hidden(split(rel, '/')) || excluded(
            rel,
            true,
            exclude,
            gitignore,
        )),
{
}

/// With the greatest depth zero, the walk goes into no directory.
pub proof fn lemma_depth_zero(rules: Rules, depth: nat, rel: Seq<char>, entry: EntryView)
    requires
        rules.max_depth == Some(0usize),
    ensures
        verdict(rules, depth, rel, entry) != Verdict::Descend,
{
}

/// Whether `name` can be one component of a path.
pub fn valid_name_exec(name: &Vec<char>) -> (b: bool)
    ensures
        b == valid_name(name@),
{
    if name.len() == 0 {
        return false;
    }
    let mut i: usize = 0;
    while i < name.len()
        invariant
            i <= name.len(),
            forall|k: int| 0 <= k < i ==> name@[k] != '/',
        decreases name.len() - i,
    {
        if name[i] == '/' {
            return false;
        }
        i += 1;
    }
    true
}

/// The extension of the file name `name`.
pub fn extension_exec(name: &Vec<char>) -> (r: Option<Vec<char>>)
    ensures
        match r {
            Some(x) => extension(name@) == Some(x@),
            None => extension(name@) is None,
        },
{
    let mut i: usize = name.len();
    assert(name@.subrange(0, i as int) =~= name@);
    while i > 0 && name[i - 1] != '.'
        invariant
            i <= name.len(),
            last_dot(name@) == last_dot(name@.subrange(0, i as int)),
        decreases i,
    {
        assert(name@.subrange(0, i as int).drop_last() =~= name@.subrange(0, i - 1));
        i -= 1;
    }
    if i <= 1 {
        None
    } else {
        Some(slice_of(name, i, name.len()))
    }
}

/// Whether the file `name` has one of the extensions `extensions`.
pub fn accepted_exec(extensions: &NameSet, name: &Vec<char>) -> (b: bool)
    requires
        extensions.wf(),
    ensures
        b == accepted(extensions@, name@),
{
    match extension_exec(name) {
        Some(x) => {
            let low = lower_exec(&x);
            let text = string_of(&low);
            extensions.contains(text.as_str())
        },
        None => false,
    }
}

/// The relative path of the entry `name` of the directory whose relative
/// path is `dir`.
pub fn rel_join_exec(dir: &Vec<char>, name: &Vec<char>) -> (r: Vec<char>)
    ensures
        r@ == rel_join(dir@, name@),
{
    let mut r: Vec<char> = Vec::new();
    if dir.len() > 0 {
        let mut i: usize = 0;
        while i < dir.len()
            invariant
                i <= dir.len(),
                r@ == dir@.take(i as int),
            decreases dir.len() - i,
        {
            r.push(dir[i]);
            i += 1;
        }
        r.push('/');
    }
    let ghost head = r@;
    let mut j: usize = 0;
    while j < name.len()
        invariant
            j <= name.len(),
            r@ == head + name@.take(j as int),
        decreases name.len() - j,
    {
        r.push(name[j]);
        j += 1;
    }
    r
}

/// Decides what the walk does with the entry `entry`, whose relative
/// path is `rel`, of a directory at depth `depth`.
pub fn classify(
    entry: &Entry,
    rel: &Vec<char>,
    depth: usize,
    extensions: &NameSet,
    max_depth: Option<usize>,
    hidden: bool,
    exclude: &Vec<Vec<char>>,
    gitignore: &Vec<Vec<char>>,
) -> (v: Verdict)
    requires
        extensions.wf(),
    ensures
        v == verdict(
            Rules {
                extensions: extensions@,
                max_depth,
                hidden,
                exclude: texts(exclude@),
                gitignore: texts(gitignore@),
            },
            depth as nat,
            rel@,
            entry@,
        ),
{
    let name = chars_of(entry.name.as_str());
    if !valid_name_exec(&name) {
        return Verdict::Skip;
    }
    if excluded_chars(rel, hidden, exclude, gitignore) {
        return Verdict::Skip;
    }
    match entry.kind {
        Some(EntryKind::Dir) => {
            match max_depth {
                Some(m) => {
                    if depth >= m {
                        Verdict::Skip
                    } else {
                        Verdict::Descend
                    }
                },
                None => Verdict::Descend,
            }
        },
        Some(EntryKind::File) => {
            if accepted_exec(extensions, &name) {
                Verdict::Count
            } else {
                Verdict::Skip
            }
        },
        _ => Verdict::Skip,
    }
}

/// A directory whose entries the walk is working through.
pub struct FrameView {
    /// The index of the directory in the graph.
    pub dir: int,
    /// The depth of the directory; the root has the depth zero.
    pub depth: nat,
    /// The path of the directory relative to the root.
    pub rel: Seq<char>,
    /// The entries of the directory.
    pub entries: Seq<EntryView>,
    /// The position of the first entry that has not been dealt with.
    pub next: int,
}

/// A directory whose listing the walk waits for.
pub struct PendingView {
    pub dir: int,
    pub depth: nat,
    pub rel: Seq<char>,
}

/// The state of a walk.
pub struct WalkView {
    /// The directories found so far.
    pub graph: Seq<DirNode>,
    /// The canonical paths of the directories gone into, kept while
    /// symbolic links are followed.
    pub visited: Set<Seq<char>>,
    /// The directories that the walk is inside of, the innermost last.
    pub stack: Seq<FrameView>,
    /// The directory whose listing is asked for next.
    pub pending: Option<PendingView>,
    /// Why the walk failed.
    pub error: Option<Seq<char>>,
}

/// Where working through a frame's entries leads.
pub struct FrameOutcome {
    /// The graph after the entries that were dealt with.
    pub graph: Seq<DirNode>,
    /// The position of the first entry not yet dealt with.
    pub next: int,
    /// The directory to go into next, if the frame is not finished.
    pub descend: Option<PendingView>,
}

/// The graph `g` with the directory `name` registered below node `p`.
pub open spec fn with_dir(g: Seq<DirNode>, p: int, name: Seq<char>) -> Seq<DirNode> {
    match find_child(g, p, name) {
        Some(c) => g,
        None => with_child(g, p, name),
    }
}

/// The index of the directory `name` below node `p` once it is
/// registered.
pub open spec fn dir_index(g: Seq<DirNode>, p: int, name: Seq<char>) -> int {
    match find_child(g, p, name) {
        Some(c) => c,
        None => g.len() as int,
    }
}

/// Works through the entries of the frame `f` from its position on, up
/// to the first directory to go into or to the end.
pub open spec fn run_frame(rules: Rules, g: Seq<DirNode>, f: FrameView) -> FrameOutcome
    decreases f.entries.len() - f.next,
{
    if 0 <= f.next < f.entries.len() {
        let e = f.entries[f.next];
        let rest = FrameView { next: f.next + 1, ..f };
        match verdict(rules, f.depth, rel_join(f.rel, e.name), e) {
            Verdict::Skip => run_frame(rules, g, rest),
            Verdict::Count => run_frame(rules, with_file(g, f.dir), rest),
            Verdict::Descend => FrameOutcome {
                graph: with_dir(g, f.dir, e.name),
                next: f.next + 1,
                descend: Some(
                    PendingView {
                        dir: dir_index(g, f.dir, e.name),
                        depth: f.depth + 1,
                        rel: rel_join(f.rel, e.name),
                    },
                ),
            },
        }
    } else {
        FrameOutcome { graph: g, next: f.next, descend: None }
    }
}

/// Carries the walk on until it needs the listing of a directory or has
/// nothing left to do.
pub open spec fn advance(rules: Rules, w: WalkView) -> WalkView
    decreases w.stack.len(),
{
    if w.stack.len() == 0 {
        w
    } else {
        let f = w.stack.last();
        let out = run_frame(rules, w.graph, f);
        match out.descend {
            Some(p) => WalkView {
                graph: out.graph,
                stack: w.stack.drop_last().push(FrameView { next: out.next, ..f }),
                pending: Some(p),
                ..w
            },
            None => advance(rules, WalkView { graph: out.graph, stack: w.stack.drop_last(), ..w }),
        }
    }
}

/// The message of a scan that failed to list the directory `path`.
pub open spec fn read_failure(path: Seq<char>, cause: Seq<char>) -> Seq<char> {
    "failed to read "@ + path + ": "@ + cause
}

/// The state after the awaited directory was entered: `canonical` is its
/// canonical path, `listing` its entries or the reason why they could
/// not be read. While symbolic links are followed, a directory whose
/// canonical path was seen before is not gone into again. A listing that
/// failed ends the walk with an error. `follow` says whether symbolic
/// links are followed.
pub open spec fn supplied(
    rules: Rules,
    follow: bool,
    w: WalkView,
    canonical: Seq<char>,
    listing: Result<Seq<EntryView>, Seq<char>>,
) -> WalkView {
    let p = w.pending.unwrap();
    if follow && w.visited.contains(canonical) {
        advance(rules, WalkView { pending: None, ..w })
    } else {
        let visited = if follow {
            w.visited.insert(canonical)
        } else {
            w.visited
        };
        match listing {
            Err(cause) => WalkView {
                visited,
                pending: None,
                stack: Seq::empty(),
                error: Some(read_failure(w.graph[p.dir].path, cause)),
                ..w
            },
            Ok(entries) => advance(
                rules,
                WalkView {
                    visited,
                    pending: None,
                    stack: w.stack.push(
                        FrameView { dir: p.dir, depth: p.depth, rel: p.rel, entries, next: 0 },
                    ),
                    ..w
                },
            ),
        }
    }
}

/// The entries of the frame `f` that have not been dealt with.
pub open spec fn remaining(f: FrameView) -> nat {
    if 0 <= f.next < f.entries.len() {
        (f.entries.len() - f.next) as nat
    } else {
        0
    }
}

/// The entries of all frames that have not been dealt with.
pub open spec fn pending_work(stack: Seq<FrameView>) -> nat
    decreases stack.len(),
{
    if stack.len() == 0 {
        0
    } else {
        pending_work(stack.drop_last()) + remaining(stack.last())
    }
}

/// A frame of a walk over the graph `g`: its directory is a node of the
/// graph, no deeper than its index, and its position is within its
/// entries.
pub open spec fn frame_ok(g: Seq<DirNode>, f: FrameView) -> bool {
    &&& 0 <= f.dir < g.len()
    &&& f.depth <= f.dir
    &&& 0 <= f.next <= f.entries.len()
}

/// The state of a walk is sound: its graph is a tree, its frames and the
/// awaited directory are nodes of it, and a walk that failed or waits
/// for nothing has left all directories.
pub open spec fn walk_ok(w: WalkView) -> bool {
    &&& tree(w.graph)
    &&& forall|k: int| 0 <= k < w.stack.len() ==> frame_ok(w.graph, #[trigger] w.stack[k])
    &&& match w.pending {
        Some(p) => 0 <= p.dir < w.graph.len() && p.depth <= p.dir && w.error is None,
        None => w.stack.len() == 0,
    }
}

struct Frame {
    dir: usize,
    depth: usize,
    rel: Vec<char>,
    entries: Vec<Entry>,
    next: usize,
}

impl View for Frame {
    type V = FrameView;

    closed spec fn view(&self) -> FrameView {
        FrameView {
            dir: self.dir as int,
            depth: self.depth as nat,
            rel: self.rel@,
            entries: entry_views(self.entries@),
            next: self.next as int,
        }
    }
}

struct Pending {
    dir: usize,
    depth: usize,
    rel: Vec<char>,
}

impl View for Pending {
    type V = PendingView;

    closed spec fn view(&self) -> PendingView {
        PendingView { dir: self.dir as int, depth: self.depth as nat, rel: self.rel@ }
    }
}

/// A walk over a directory tree. It asks for the listing of one
/// directory at a time and takes each listing in with `supply`.
pub struct Walk {
    graph: DirGraph,
    dirs_with_files: usize,
    extensions: NameSet,
    max_depth: Option<usize>,
    follow_symlinks: bool,
    hidden: bool,
    exclude: Vec<Vec<char>>,
    gitignore: Vec<Vec<char>>,
    visited: StringHashSet,
    stack: Vec<Frame>,
    pending: Option<Pending>,
    error: Option<String>,
    seen: usize,
}

impl View for Walk {
    type V = WalkView;

    closed spec fn view(&self) -> WalkView {
        WalkView {
            graph: self.graph@,
            visited: self.visited@,
            stack: self.stack@.map_values(|f: Frame| f@),
            pending: match self.pending {
                Some(p) => Some(p@),
                None => None,
            },
            error: match self.error {
                Some(e) => Some(e@),
                None => None,
            },
        }
    }
}

proof fn lemma_pending_work_push(stack: Seq<FrameView>, f: FrameView)
    ensures
        pending_work(stack.push(f)) == pending_work(stack) + remaining(f),
{
    assert(stack.push(f).drop_last() =~= stack);
}

impl Walk {
    /// The rules of the scan.
    pub closed spec fn rules(&self) -> Rules {
        Rules {
            extensions: self.extensions@,
            max_depth: self.max_depth,
            hidden: self.hidden,
            exclude: texts(self.exclude@),
            gitignore: texts(self.gitignore@),
        }
    }

    /// Whether symbolic links are followed.
    pub closed spec fn follows(&self) -> bool {
        self.follow_symlinks
    }

    /// The number of entries supplied so far.
    pub closed spec fn seen(&self) -> nat {
        self.seen as nat
    }

    spec fn sound(&self) -> bool {
        &&& self.graph.wf()
        &&& self.extensions.wf()
        &&& self.dirs_with_files == dirs_with_files(self.graph@)
        &&& forall|k: int|
            0 <= k < self@.stack.len() ==> frame_ok(self.graph@, #[trigger] self@.stack[k])
        &&& total_direct(self.graph@) + pending_work(self@.stack) <= self.seen
    }

    /// The walk is in a sound state, and it has not seen fewer entries
    /// than it has files counted or entries still to deal with.
    pub closed spec fn wf(&self) -> bool {
        &&& self.sound()
        &&& walk_ok(self@)
    }

    /// What `wf` says of the state.
    pub proof fn lemma_wf(&self)
        requires
            self.wf(),
        ensures
            walk_ok(self@),
            total_direct(self@.graph) <= self.seen(),
    {
    }

    /// A walk that waits for the listing of the root directory.
    pub fn start(
        root: &str,
        root_name: &str,
        extensions: &NameSet,
        cli: &Cli,
        gitignore: &Vec<String>,
    ) -> (w: Walk)
        requires
            extensions.wf(),
        ensures
            w.wf(),
            w.seen() == 0,
            w.follows() == cli.follow_symlinks,
            w.rules() == (Rules {
                extensions: extensions@,
                max_depth: cli.max_depth,
                hidden: cli.hidden,
                exclude: strings(cli.exclude@),
                gitignore: strings(gitignore@),
            }),
            w@ == (WalkView {
                graph: seq![
                    DirNode {
                        name: root_name@,
                        path: root@,
                        parent: 0,
                        children: Seq::empty(),
                        direct_files: 0,
                    },
                ],
                visited: Set::empty(),
                stack: Seq::empty(),
                pending: Some(PendingView { dir: 0, depth: 0, rel: Seq::empty() }),
                error: None,
            }),
    {
        let w = Walk {
            graph: DirGraph::new(root, root_name),
            dirs_with_files: 0,
            extensions: extensions.duplicate(),
            max_depth: cli.max_depth,
            follow_symlinks: cli.follow_symlinks,
            hidden: cli.hidden,
            exclude: chars_of_all(&cli.exclude),
            gitignore: chars_of_all(gitignore),
            visited: StringHashSet::new(),
            stack: Vec::new(),
            pending: Some(Pending { dir: 0, depth: 0, rel: Vec::new() }),
            error: None,
            seen: 0,
        };
        proof {
            assert(w@.stack =~= Seq::empty());
        }
        w
    }

    /// The path of the directory whose listing the walk waits for; none
    /// when the walk is over.
    pub fn pending_dir(&self) -> (r: Option<String>)
        requires
            self.wf(),
        ensures
            match r {
                Some(path) => self@.pending is Some && path@
                    == self@.graph[self@.pending.unwrap().dir].path,
                None => self@.pending is None,
            },
    {
        match &self.pending {
            Some(p) => Some(self.graph.get(p.dir).path.clone()),
            None => None,
        }
    }

    /// The number of entries supplied so far.
    pub fn entries_seen(&self) -> (n: usize)
        ensures
            n == self.seen(),
    {
        self.seen
    }

    /// Whether the walk has failed.
    pub fn has_failed(&self) -> (b: bool)
        ensures
            b == self@.error is Some,
    {
        self.error.is_some()
    }

    fn run(&mut self)
        requires
            old(self).sound(),
            old(self).pending is None,
            old(self).error is None,
        ensures
            final(self).sound(),
            walk_ok(final(self)@),
            final(self)@ == advance(old(self).rules(), old(self)@),
            final(self).rules() == old(self).rules(),
            final(self).follows() == old(self).follows(),
            final(self).seen == old(self).seen,
    {
        while self.stack.len() > 0
            invariant
                self.sound(),
                self.pending is None,
                self.error is None,
                advance(self.rules(), self@) == advance(old(self).rules(), old(self)@),
                self.rules() == old(self).rules(),
                self.follows() == old(self).follows(),
                self.seen == old(self).seen,
            decreases self.stack.len(),
        {
            let ghost w = self@;
            let ghost rules = self.rules();
            let mut frame = self.stack.pop().unwrap();
            let ghost f0 = frame@;
            let ghost g0 = self.graph@;
            let ghost below = self@.stack;
            proof {
                assert(below =~= w.stack.drop_last());
                assert forall|k: int| 0 <= k < below.len() implies frame_ok(
                    g0,
                    #[trigger] below[k],
                ) by {
                }
            }
            let mut descend: Option<Pending> = None;
            while frame.next < frame.entries.len() && descend.is_none()
                invariant
                    self.graph.wf(),
                    self.extensions.wf(),
                    self.dirs_with_files == dirs_with_files(self.graph@),
                    self.pending is None,
                    self.error is None,
                    self.rules() == rules,
                    self.follows() == old(self).follows(),
                    self.seen == old(self).seen,
                    self@.stack == below,
                    self@.visited == w.visited,
                    g0.len() <= self.graph@.len(),
                    frame_ok(self.graph@, frame@),
                    frame@.dir == f0.dir,
                    frame@.depth == f0.depth,
                    frame@.rel == f0.rel,
                    frame@.entries == f0.entries,
                    total_direct(self.graph@) + remaining(frame@) + pending_work(below)
                        <= self.seen,
                    match descend {
                        Some(p) => run_frame(rules, g0, f0) == (FrameOutcome {
                            graph: self.graph@,
                            next: frame@.next,
                            descend: Some(p@),
                        }) && 0 <= p@.dir < self.graph@.len() && p@.depth <= p@.dir,
                        None => run_frame(rules, g0, f0) == run_frame(rules, self.graph@, frame@),
                    },
                decreases frame.entries.len() - frame.next + if descend is None {
                    1int
                } else {
                    0int
                },
            {
                let i: usize = frame.next;
                let ghost g = self.graph@;
                let ghost f = frame@;
                let entry = &frame.entries[i];
                let name = chars_of(entry.name.as_str());
                let rel = rel_join_exec(&frame.rel, &name);
                let v = classify(
                    entry,
                    &rel,
                    frame.depth,
                    &self.extensions,
                    self.max_depth,
                    self.hidden,
                    &self.exclude,
                    &self.gitignore,
                );
                match v {
                    Verdict::Skip => {},
                    Verdict::Count => {
                        let was: usize = self.graph.get(frame.dir).direct_files;
                        proof {
                            self.graph.lemma_len_fits();
                            lemma_with_file_counts(g, f.dir);
                            lemma_count_with_files_bound(
                                with_file(g, f.dir),
                                g.len() as int,
                            );
                        }
                        self.graph.add_file(frame.dir);
                        if frame.dir != 0 && was == 0 {
                            self.dirs_with_files = self.dirs_with_files + 1;
                        }
                    },
                    Verdict::Descend => {
                        proof {
                            lemma_with_child_counts(g, f.dir, entry@.name);
                            lemma_slot(g, f.dir, entry@.name);
                            if find_child(g, f.dir, entry@.name) is Some {
                                assert(child_ok(g, f.dir, slot(g, f.dir, entry@.name)));
                            }
                        }
                        let child = self.graph.add_dir(frame.dir, entry.name.as_str());
                        descend = Some(Pending { dir: child, depth: frame.depth + 1, rel });
                    },
                }
                frame.next = i + 1;
            }
            match descend {
                Some(p) => {
                    self.stack.push(frame);
                    self.pending = Some(p);
                    proof {
                        let top = FrameView { next: frame@.next, ..f0 };
                        assert(self@.stack =~= below.push(top));
                        lemma_pending_work_push(below, top);
                        assert forall|k: int| 0 <= k < self@.stack.len() implies frame_ok(
                            self.graph@,
                            #[trigger] self@.stack[k],
                        ) by {
                        }
                    }
                    return ;
                },
                None => {
                    proof {
                        assert forall|k: int| 0 <= k < self@.stack.len() implies frame_ok(
                            self.graph@,
                            #[trigger] self@.stack[k],
                        ) by {
                        }
                    }
                },
            }
        }
    }
}

/// The listing of a directory as the contracts see it.
pub open spec fn listing_view(listing: Result<Vec<Entry>, String>) -> Result<
    Seq<EntryView>,
    Seq<char>,
> {
    match listing {
        Ok(entries) => Ok(entry_views(entries@)),
        Err(cause) => Err(cause@),
    }
}

impl Walk {
    /// Takes in what was found of the awaited directory: its canonical
    /// path, and its entries or the reason why they could not be read.
    pub fn supply(&mut self, canonical: &str, listing: Result<Vec<Entry>, String>)
        requires
            old(self).wf(),
            old(self)@.pending is Some,
            listing is Ok ==> old(self).seen() + listing.unwrap().len() <= usize::MAX,
        ensures
            final(self).wf(),
            final(self)@ == supplied(
                old(self).rules(),
                old(self).follows(),
                old(self)@,
                canonical@,
                listing_view(listing),
            ),
            final(self).rules() == old(self).rules(),
            final(self).follows() == old(self).follows(),
            final(self).seen() == old(self).seen() + match listing {
                Ok(entries) => if old(self).follows() && old(self)@.visited.contains(canonical@) {
                    0
                } else {
                    entries.len() as int
                },
                Err(_) => 0,
            },
    {
        let awaited = self.pending.take().unwrap();
        if self.follow_symlinks {
            if self.visited.contains(canonical) {
                self.run();
                return ;
            }
            self.visited.insert(canonical.to_owned());
        }
        match listing {
            Err(cause) => {
                let mut message = String::new();
                push_text(&mut message, "failed to read ");
                push_text(&mut message, self.graph.get(awaited.dir).path.as_str());
                push_text(&mut message, ": ");
                push_text(&mut message, cause.as_str());
                self.error = Some(message);
                self.stack.clear();
                proof {
                    assert(self@.stack =~= Seq::empty());
                }
            },
            Ok(entries) => {
                let ghost below = self@.stack;
                let ghost top = FrameView {
                    dir: awaited@.dir,
                    depth: awaited@.depth,
                    rel: awaited@.rel,
                    entries: entry_views(entries@),
                    next: 0,
                };
                self.seen = self.seen + entries.len();
                self.stack.push(
                    Frame {
                        dir: awaited.dir,
                        depth: awaited.depth,
                        rel: awaited.rel,
                        entries,
                        next: 0,
                    },
                );
                proof {
                    assert(self@.stack =~= below.push(top));
                    lemma_pending_work_push(below, top);
                    assert forall|k: int| 0 <= k < self@.stack.len() implies frame_ok(
                        self.graph@,
                        #[trigger] self@.stack[k],
                    ) by {
                    }
                }
                self.run();
            },
        }
    }

    /// The outcome of a walk that is over: the scan's result, or the
    /// reason why the scan failed.
    pub fn finish(self) -> (r: Result<ScanResult, String>)
        requires
            self.wf(),
            self@.pending is None,
        ensures
            match r {
                Ok(scan) => self@.error is None && scan.wf() && scan.dirs@ == self@.graph,
                Err(message) => self@.error == Some(message@),
            },
    {
        match self.error {
            Some(message) => Err(message),
            None => {
                let root = self.graph.get(0).path.clone();
                let total_files = self.graph.total_files();
                Ok(
                    ScanResult {
                        root,
                        dirs: self.graph,
                        total_files,
                        dirs_with_files: self.dirs_with_files,
                    },
                )
            },
        }
    }
}

/// The patterns among the lines `lines` of an ignore file: each line
/// without the white space around it, but for the blank lines and those
/// that begin with `#`.
pub open spec fn ignore_patterns(lines: Seq<Seq<char>>) -> Seq<Seq<char>>
    decreases lines.len(),
{
    if lines.len() == 0 {
        Seq::empty()
    } else {
        let before = ignore_patterns(lines.drop_last());
        let pattern = trim(lines.last(), whitespace());
        if pattern.len() == 0 || pattern[0] == '#' {
            before
        } else {
            before.push(pattern)
        }
    }
}

/// The patterns of an ignore file with the content `content`.
pub fn parse_gitignore(content: &str) -> (patterns: Vec<String>)
    ensures
        strings(patterns@) == ignore_patterns(lines(content@)),
{
    let rows = lines_exec(&chars_of(content));
    let mut patterns: Vec<String> = Vec::new();
    let mut i: usize = 0;
    while i < rows.len()
        invariant
            i <= rows.len(),
            strings(patterns@) == ignore_patterns(texts(rows@).take(i as int)),
        decreases rows.len() - i,
    {
        assert(texts(rows@).take(i + 1).drop_last() =~= texts(rows@).take(i as int));
        let pattern = trim_whitespace(&rows[i]);
        if !(pattern.len() == 0 || pattern[0] == '#') {
            patterns.push(string_of(&pattern));
        }
        i += 1;
    }
    assert(texts(rows@).take(rows.len() as int) =~= texts(rows@));
    patterns
}

} // verus!
