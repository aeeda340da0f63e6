//! The directory graph that a scan builds: one node for each directory,
//! kept in the order in which the directories were found, so that every
//! directory stands after its parent.

use crate::text::{chars_of, lex_lt, precedence_exec, push_chars, Precedence};
use crate::text::{lemma_lex_irreflexive, lemma_lex_transitive};
use vstd::hash_map::StringHashMap;
use vstd::prelude::*;

verus! {

/// What the graph records of one directory.
pub struct DirNode {
    /// The last component of the directory's path.
    pub name: Seq<char>,
    /// The directory's path.
    pub path: Seq<char>,
    /// The index of the parent directory; the root is its own parent.
    pub parent: int,
    /// The indices of the child directories, in the order of their names.
    pub children: Seq<int>,
    /// The number of matching files directly inside the directory.
    pub direct_files: nat,
}

/// One directory of the graph.
#[derive(Debug)]
pub struct DirData {
    pub name: String,
    pub path: String,
    pub parent: usize,
    pub children: Vec<usize>,
    pub direct_files: usize,
}

impl View for DirData {
    type V = DirNode;

    open spec fn view(&self) -> DirNode {
        DirNode {
            name: self.name@,
            path: self.path@,
            parent: self.parent as int,
            children: self.children@.map_values(|c: usize| c as int),
            direct_files: self.direct_files as nat,
        }
    }
}

/// A name that can be one component of a path: not empty, without `/`.
pub open spec fn valid_name(name: Seq<char>) -> bool {
    name.len() > 0 && !name.contains('/')
}

/// The path of the entry `name` of the directory `dir`: a `/` is put
/// between the two unless `dir` is empty or ends with one.
pub open spec fn join(dir: Seq<char>, name: Seq<char>) -> Seq<char> {
    if dir.len() == 0 || dir.last() == '/' {
        dir + name
    } else {
        dir.push('/') + name
    }
}

/// Node `j` hangs below an earlier node that lists it as a child, and its
/// path is its parent's path joined with its name.
pub open spec fn linked(g: Seq<DirNode>, j: int) -> bool {
    &&& 0 <= g[j].parent < j
    &&& valid_name(g[j].name)
    &&& g[j].path == join(g[g[j].parent].path, g[j].name)
    &&& g[g[j].parent].children.contains(j)
}

/// The `k`-th child of node `i` is a later node whose parent is `i`.
pub open spec fn child_ok(g: Seq<DirNode>, i: int, k: int) -> bool {
    let c = g[i].children[k];
    i < c < g.len() && g[c].parent == i
}

/// The name of the `k`-th child of node `i`.
pub open spec fn child_name(g: Seq<DirNode>, i: int, k: int) -> Seq<char> {
    g[g[i].children[k]].name
}

/// The graph is a tree rooted at node 0: every other node has one parent,
/// which stands before it, and each node's children are exactly the nodes
/// whose parent it is, strictly ordered by name.
pub open spec fn tree(g: Seq<DirNode>) -> bool {
    &&& g.len() > 0
    &&& g[0].parent == 0
    &&& forall|j: int| 0 < j < g.len() ==> #[trigger] linked(g, j)
    &&& forall|i: int, k: int|
        0 <= i < g.len() && 0 <= k < g[i].children.len() ==> #[trigger] child_ok(g, i, k)
    &&& forall|i: int, k: int, l: int|
        0 <= i < g.len() && 0 <= k < l < g[i].children.len() ==> lex_lt(
            #[trigger] child_name(g, i, k),
            #[trigger] child_name(g, i, l),
        )
}

/// The number of matching files in the subtree of node `i`: its own and
/// those of the subtrees of its children.
pub open spec fn subtree_total(g: Seq<DirNode>, i: int) -> nat
    decreases g.len() - i, g.len() + 1,
{
    if 0 <= i < g.len() {
        g[i].direct_files + children_total(g, i, i + 1)
    } else {
        0
    }
}

/// The sum of the subtree totals of the children of node `i` that stand
/// at index `from` or later.
pub open spec fn children_total(g: Seq<DirNode>, i: int, from: int) -> nat
    decreases g.len() - i, g.len() - from,
{
    if 0 <= i < from < g.len() {
        (if g[from].parent == i {
            subtree_total(g, from)
        } else {
            0
        }) + children_total(g, i, from + 1)
    } else {
        0
    }
}

/// The number of matching files directly inside the first `upto` nodes.
pub open spec fn sum_direct(g: Seq<DirNode>, upto: int) -> nat
    decreases upto,
{
    if 0 < upto <= g.len() {
        sum_direct(g, upto - 1) + g[upto - 1].direct_files
    } else {
        0
    }
}

/// The number of nodes other than the root, among the first `upto`, that
/// hold a matching file directly.
pub open spec fn count_with_files(g: Seq<DirNode>, upto: int) -> nat
    decreases upto,
{
    if 1 < upto <= g.len() {
        count_with_files(g, upto - 1) + if g[upto - 1].direct_files > 0 {
            1nat
        } else {
            0nat
        }
    } else {
        0
    }
}

/// The number of matching files directly inside all nodes together.
pub open spec fn total_direct(g: Seq<DirNode>) -> nat {
    sum_direct(g, g.len() as int)
}

/// The number of nodes other than the root that hold a matching file
/// directly.
pub open spec fn dirs_with_files(g: Seq<DirNode>) -> nat {
    count_with_files(g, g.len() as int)
}

/// The first position, at `k` or later, among the children of node `p`
/// whose name does not come before `name`.
pub open spec fn slot_from(g: Seq<DirNode>, p: int, name: Seq<char>, k: int) -> int
    decreases g[p].children.len() - k,
{
    if 0 <= k < g[p].children.len() && lex_lt(child_name(g, p, k), name) {
        slot_from(g, p, name, k + 1)
    } else {
        k
    }
}

/// The position among the children of node `p` at which a child called
/// `name` stands or would be put.
pub open spec fn slot(g: Seq<DirNode>, p: int, name: Seq<char>) -> int {
    slot_from(g, p, name, 0)
}

/// The child of node `p` called `name`, if there is one.
pub open spec fn find_child(g: Seq<DirNode>, p: int, name: Seq<char>) -> Option<int> {
    let k = slot(g, p, name);
    if 0 <= k < g[p].children.len() && child_name(g, p, k) == name {
        Some(g[p].children[k])
    } else {
        None
    }
}

/// The graph `g` with a new, empty directory `name` below node `p`.
pub open spec fn with_child(g: Seq<DirNode>, p: int, name: Seq<char>) -> Seq<DirNode> {
    g.update(
        p,
        DirNode { children: g[p].children.insert(slot(g, p, name), g.len() as int), ..g[p] },
    ).push(
        DirNode {
            name,
            path: join(g[p].path, name),
            parent: p,
            children: Seq::empty(),
            direct_files: 0,
        },
    )
}

/// The graph `g` with one more matching file directly inside node `d`.
pub open spec fn with_file(g: Seq<DirNode>, d: int) -> Seq<DirNode> {
    g.update(d, DirNode { direct_files: g[d].direct_files + 1, ..g[d] })
}

/// The first index of a node whose path is `path`, from `k` on; the
/// number of nodes if there is none.
pub open spec fn index_of_path_from(g: Seq<DirNode>, path: Seq<char>, k: int) -> int
    decreases g.len() - k,
{
    if 0 <= k < g.len() && g[k].path != path {
        index_of_path_from(g, path, k + 1)
    } else {
        k
    }
}

/// The node whose path is `path`, if there is one.
pub open spec fn find_path(g: Seq<DirNode>, path: Seq<char>) -> Option<int> {
    let k = index_of_path_from(g, path, 0);
    if 0 <= k < g.len() {
        Some(k)
    } else {
        None
    }
}

proof fn lemma_slot_from(g: Seq<DirNode>, p: int, name: Seq<char>, k: int)
    requires
        0 <= k <= g[p].children.len(),
    ensures
        k <= slot_from(g, p, name, k) <= g[p].children.len(),
        forall|l: int| k <= l < slot_from(g, p, name, k) ==> lex_lt(child_name(g, p, l), name),
        slot_from(g, p, name, k) < g[p].children.len() ==> !lex_lt(
            child_name(g, p, slot_from(g, p, name, k)),
            name,
        ),
    decreases g[p].children.len() - k,
{
    if k < g[p].children.len() && lex_lt(child_name(g, p, k), name) {
        lemma_slot_from(g, p, name, k + 1);
    }
}

/// Where `name` stands among the children of node `p`: the children
/// before its slot come before it, and the one at its slot does not.
pub proof fn lemma_slot(g: Seq<DirNode>, p: int, name: Seq<char>)
    ensures
        0 <= slot(g, p, name) <= g[p].children.len(),
        forall|l: int| 0 <= l < slot(g, p, name) ==> lex_lt(child_name(g, p, l), name),
        slot(g, p, name) < g[p].children.len() ==> !lex_lt(
            child_name(g, p, slot(g, p, name)),
            name,
        ),
{
    lemma_slot_from(g, p, name, 0);
}

/// Adding a directory that is not yet there keeps the graph a tree.
pub proof fn lemma_with_child_tree(g: Seq<DirNode>, p: int, name: Seq<char>)
    requires
        tree(g),
        0 <= p < g.len(),
        valid_name(name),
        find_child(g, p, name) is None,
    ensures
        tree(with_child(g, p, name)),
{
    let h = with_child(g, p, name);
    let n = g.len() as int;
    let s = slot(g, p, name);
    lemma_slot(g, p, name);
    let kids = g[p].children;
    let kids2 = kids.insert(s, n);
    assert forall|j: int| 0 < j < h.len() implies #[trigger] linked(h, j) by {
        if j < n {
            assert(linked(g, j));
            let q = g[j].parent;
            if q == p {
                let k = choose|k: int| 0 <= k < kids.len() && kids[k] == j;
                if k < s {
                    assert(kids2[k] == j);
                } else {
                    assert(kids2[k + 1] == j);
                }
            }
        } else {
            assert(kids2[s] == n);
        }
    }
    assert forall|i: int, k: int|
        0 <= i < h.len() && 0 <= k < h[i].children.len() implies #[trigger] child_ok(h, i, k) by {
        if i == p {
            if k < s {
                assert(child_ok(g, i, k));
            } else if k > s {
                assert(child_ok(g, i, k - 1));
            }
        } else {
            assert(child_ok(g, i, k));
        }
    }
    assert forall|i: int, k: int, l: int|
        0 <= i < h.len() && 0 <= k < l < h[i].children.len() implies lex_lt(
        #[trigger] child_name(h, i, k),
        #[trigger] child_name(h, i, l),
    ) by {
        if i == p {
            let a = if k < s {
                k
            } else {
                k - 1
            };
            let b = if l < s {
                l
            } else {
                l - 1
            };
            if k != s {
                assert(child_ok(g, p, a));
                assert(child_name(h, i, k) == child_name(g, p, a));
            }
            if l != s {
                assert(child_ok(g, p, b));
                assert(child_name(h, i, l) == child_name(g, p, b));
            }
            if k == s {
                crate::text::lemma_lex_total(child_name(g, p, s), name);
                if b > s {
                    lemma_lex_transitive(name, child_name(g, p, s), child_name(g, p, b));
                }
            }
        } else {
            assert(child_ok(g, i, k));
            assert(child_ok(g, i, l));
            assert(child_name(h, i, k) == child_name(g, i, k));
            assert(child_name(h, i, l) == child_name(g, i, l));
        }
    }
}

/// Counting a file keeps the graph a tree.
pub proof fn lemma_with_file_tree(g: Seq<DirNode>, d: int)
    requires
        tree(g),
        0 <= d < g.len(),
    ensures
        tree(with_file(g, d)),
{
    let h = with_file(g, d);
    assert forall|j: int| 0 < j < h.len() implies #[trigger] linked(h, j) by {
        assert(linked(g, j));
    }
    assert forall|i: int, k: int|
        0 <= i < h.len() && 0 <= k < h[i].children.len() implies #[trigger] child_ok(h, i, k) by {
        assert(child_ok(g, i, k));
    }
    assert forall|i: int, k: int, l: int|
        0 <= i < h.len() && 0 <= k < l < h[i].children.len() implies lex_lt(
        #[trigger] child_name(h, i, k),
        #[trigger] child_name(h, i, l),
    ) by {
        assert(child_ok(g, i, k));
        assert(child_ok(g, i, l));
        assert(child_name(h, i, k) == child_name(g, i, k));
        assert(child_name(h, i, l) == child_name(g, i, l));
    }
}

proof fn lemma_sum_direct_same(g: Seq<DirNode>, h: Seq<DirNode>, upto: int)
    requires
        0 <= upto <= g.len(),
        upto <= h.len(),
        forall|i: int| 0 <= i < upto ==> g[i].direct_files == h[i].direct_files,
    ensures
        sum_direct(g, upto) == sum_direct(h, upto),
        count_with_files(g, upto) == count_with_files(h, upto),
    decreases upto,
{
    if upto > 0 {
        lemma_sum_direct_same(g, h, upto - 1);
    }
}

/// A new directory holds no file: the counts stay as they were.
pub proof fn lemma_with_child_counts(g: Seq<DirNode>, p: int, name: Seq<char>)
    requires
        0 <= p < g.len(),
    ensures
        total_direct(with_child(g, p, name)) == total_direct(g),
        dirs_with_files(with_child(g, p, name)) == dirs_with_files(g),
{
    lemma_sum_direct_same(g, with_child(g, p, name), g.len() as int);
}

proof fn lemma_with_file_counts_upto(g: Seq<DirNode>, d: int, upto: int)
    requires
        0 <= d < g.len(),
        0 <= upto <= g.len(),
    ensures
        sum_direct(with_file(g, d), upto) == sum_direct(g, upto) + if d < upto {
            1nat
        } else {
            0nat
        },
        count_with_files(with_file(g, d), upto) == count_with_files(g, upto) + if 0 < d < upto
            && g[d].direct_files == 0 {
            1nat
        } else {
            0nat
        },
    decreases upto,
{
    if upto > 0 {
        lemma_with_file_counts_upto(g, d, upto - 1);
    }
}

/// One more file in node `d` raises the number of files by one, and the
/// number of directories with files by one if `d` is not the root and
/// held none before.
pub proof fn lemma_with_file_counts(g: Seq<DirNode>, d: int)
    requires
        0 <= d < g.len(),
    ensures
        total_direct(with_file(g, d)) == total_direct(g) + 1,
        dirs_with_files(with_file(g, d)) == dirs_with_files(g) + if 0 < d && g[d].direct_files
            == 0 {
            1nat
        } else {
            0nat
        },
{
    lemma_with_file_counts_upto(g, d, g.len() as int);
}

/// The directories found by a scan, each with its files counted.
#[derive(Debug)]
pub struct DirGraph {
    nodes: Vec<DirData>,
    total: usize,
}

impl View for DirGraph {
    type V = Seq<DirNode>;

    closed spec fn view(&self) -> Seq<DirNode> {
        self.nodes@.map_values(|d: DirData| d@)
    }
}

/// The path of the entry `name` of the directory `dir`.
pub fn join_paths(dir: &str, name: &str) -> (path: String)
    ensures
        path@ == join(dir@, name@),
{
    let d = chars_of(dir);
    let mut path = String::new();
    push_chars(&mut path, &d);
    if d.len() > 0 && d[d.len() - 1] != '/' {
        path.push('/');
    }
    let n = chars_of(name);
    push_chars(&mut path, &n);
    path
}

impl DirGraph {
    /// The number of matching files that the graph has recorded.
    pub closed spec fn recorded_total(&self) -> usize {
        self.total
    }

    /// The graph is a tree, and the files of all its nodes together are
    /// as many as it has recorded.
    pub open spec fn wf(&self) -> bool {
        &&& tree(self@)
        &&& self.recorded_total() == total_direct(self@)
    }

    /// A graph that holds the root directory alone.
    pub fn new(root_path: &str, root_name: &str) -> (g: DirGraph)
        ensures
            g.wf(),
            g@ == seq![
                DirNode {
                    name: root_name@,
                    path: root_path@,
                    parent: 0,
                    children: Seq::empty(),
                    direct_files: 0,
                },
            ],
            total_direct(g@) == 0,
            dirs_with_files(g@) == 0,
    {
        let mut nodes: Vec<DirData> = Vec::new();
        nodes.push(
            DirData {
                name: root_name.to_owned(),
                path: root_path.to_owned(),
                parent: 0,
                children: Vec::new(),
                direct_files: 0,
            },
        );
        let g = DirGraph { nodes, total: 0 };
        proof {
            assert(g@[0].children =~= Seq::<int>::empty());
            assert(sum_direct(g@, 0) == 0);
        }
        g
    }

    /// The number of directories fits a `usize`.
    pub proof fn lemma_len_fits(&self)
        ensures
            self@.len() <= usize::MAX,
    {
        assert(self@.len() == self.nodes.len());
    }

    /// The number of directories.
    pub fn len(&self) -> (n: usize)
        ensures
            n == self@.len(),
    {
        self.nodes.len()
    }

    /// The directory at index `i`.
    pub fn get(&self, i: usize) -> (d: &DirData)
        requires
            i < self@.len(),
        ensures
            d@ == self@[i as int],
    {
        &self.nodes[i]
    }

    /// The number of matching files in all directories together.
    pub fn total_files(&self) -> (n: usize)
        requires
            self.wf(),
        ensures
            n == total_direct(self@),
    {
        self.total
    }

    /// The index of the directory whose path is `path`.
    pub fn find(&self, path: &str) -> (r: Option<usize>)
        ensures
            match r {
                Some(i) => find_path(self@, path@) == Some(i as int),
                None => find_path(self@, path@) is None,
            },
    {
        let needle: String = path.to_owned();
        let mut k: usize = 0;
        while k < self.nodes.len()
            invariant
                k <= self.nodes.len(),
                needle@ == path@,
                index_of_path_from(self@, path@, 0) == index_of_path_from(self@, path@, k as int),
            decreases self.nodes.len() - k,
        {
            if self.nodes[k].path == needle {
                return Some(k);
            }
            k += 1;
        }
        None
    }

    /// Registers the directory `name` below the directory at index
    /// `parent`, unless it is there already, and gives its index.
    pub fn add_dir(&mut self, parent: usize, name: &str) -> (child: usize)
        requires
            old(self).wf(),
            parent < old(self)@.len(),
            valid_name(name@),
        ensures
            final(self).wf(),
            match find_child(old(self)@, parent as int, name@) {
                Some(c) => child == c && final(self)@ == old(self)@,
                None => child == old(self)@.len() && final(self)@ == with_child(
                    old(self)@,
                    parent as int,
                    name@,
                ),
            },
    {
        let wanted = chars_of(name);
        let n: usize = self.nodes.len();
        let count: usize = self.nodes[parent].children.len();
        let mut k: usize = 0;
        let mut passed: bool = false;
        while k < count && !passed
            invariant
                k <= count,
                n == self.nodes.len(),
                parent < n,
                count == self.nodes[parent as int].children.len(),
                self.wf(),
                *self == *old(self),
                wanted@ == name@,
                slot(self@, parent as int, name@) == slot_from(
                    self@,
                    parent as int,
                    name@,
                    k as int,
                ),
                passed ==> k < count && !lex_lt(child_name(self@, parent as int, k as int), name@)
                    && child_name(self@, parent as int, k as int) != name@,
            decreases count - k + if passed { 0int } else { 1int },
        {
            let c: usize = self.nodes[parent].children[k];
            assert(child_ok(self@, parent as int, k as int));
            let have = chars_of(self.nodes[c].name.as_str());
            match precedence_exec(&have, &wanted) {
                Precedence::Before => {
                    k += 1;
                },
                Precedence::Same => {
                    return c;
                },
                Precedence::After => {
                    passed = true;
                },
            }
        }
        let path = join_paths(self.nodes[parent].path.as_str(), name);
        let ghost before = self@;
        self.nodes.push(
            DirData {
                name: name.to_owned(),
                path,
                parent,
                children: Vec::new(),
                direct_files: 0,
            },
        );
        self.nodes[parent].children.insert(k, n);
        proof {
            let after = with_child(before, parent as int, name@);
            assert forall|i: int| 0 <= i < after.len() implies self@[i] == after[i] by {
                assert(self@[i].children =~= after[i].children);
            }
            assert(self@ =~= after);
            lemma_with_child_tree(before, parent as int, name@);
            lemma_with_child_counts(before, parent as int, name@);
        }
        n
    }

    /// Counts one more matching file directly inside the directory at
    /// index `dir`.
    pub fn add_file(&mut self, dir: usize)
        requires
            old(self).wf(),
            dir < old(self)@.len(),
            total_direct(old(self)@) < usize::MAX,
        ensures
            final(self).wf(),
            final(self)@ == with_file(old(self)@, dir as int),
    {
        proof {
            lemma_direct_le_sum(self@, dir as int, self@.len() as int);
        }
        let ghost before = self@;
        self.nodes[dir].direct_files += 1;
        self.total += 1;
        proof {
            let after = with_file(before, dir as int);
            assert forall|i: int| 0 <= i < after.len() implies self@[i] == after[i] by {
            }
            assert(self@ =~= after);
            lemma_with_file_tree(before, dir as int);
            lemma_with_file_counts(before, dir as int);
        }
    }
}

/// There are fewer directories with files than directories.
pub proof fn lemma_count_with_files_bound(g: Seq<DirNode>, upto: int)
    requires
        1 <= upto <= g.len(),
    ensures
        count_with_files(g, upto) < upto,
    decreases upto,
{
    if upto > 1 {
        lemma_count_with_files_bound(g, upto - 1);
    }
}

/// The files of one node are among the files of all of them.
pub proof fn lemma_direct_le_sum(g: Seq<DirNode>, d: int, upto: int)
    requires
        0 <= d < upto <= g.len(),
    ensures
        g[d].direct_files <= sum_direct(g, upto),
    decreases upto,
{
    if d < upto - 1 {
        lemma_direct_le_sum(g, d, upto - 1);
    }
}

/// The sum of the subtree totals of the nodes at index `from` or later
/// whose parent stands before index `t`.
pub open spec fn frontier(g: Seq<DirNode>, t: int, from: int) -> nat
    decreases g.len() - from,
{
    if 0 <= from < g.len() {
        (if g[from].parent < t {
            subtree_total(g, from)
        } else {
            0
        }) + frontier(g, t, from + 1)
    } else {
        0
    }
}

proof fn lemma_frontier_none(g: Seq<DirNode>, from: int)
    requires
        tree(g),
        1 <= from,
    ensures
        frontier(g, 0, from) == 0,
    decreases g.len() - from,
{
    if from < g.len() {
        assert(linked(g, from));
        lemma_frontier_none(g, from + 1);
    }
}

proof fn lemma_frontier_split(g: Seq<DirNode>, t: int, from: int)
    requires
        tree(g),
        0 <= t < from,
    ensures
        frontier(g, t + 1, from) == children_total(g, t, from) + frontier(g, t, from),
    decreases g.len() - from,
{
    if from < g.len() {
        lemma_frontier_split(g, t, from + 1);
    }
}

proof fn lemma_front(g: Seq<DirNode>, t: int)
    requires
        tree(g),
        1 <= t <= g.len(),
    ensures
        sum_direct(g, t) + frontier(g, t, t) == subtree_total(g, 0),
    decreases t,
{
    if t == 1 {
        assert(sum_direct(g, 0) == 0);
        lemma_frontier_split(g, 0, 1);
        lemma_frontier_none(g, 1);
    } else {
        lemma_front(g, t - 1);
        assert(linked(g, t - 1));
        lemma_frontier_split(g, t - 1, t);
    }
}

/// The files of all directories together are the subtree total of the
/// root.
pub proof fn lemma_total_is_root_subtree(g: Seq<DirNode>)
    requires
        tree(g),
    ensures
        total_direct(g) == subtree_total(g, 0),
{
    lemma_front(g, g.len() as int);
}

proof fn lemma_children_total_holds(g: Seq<DirNode>, i: int, from: int, j: int)
    requires
        0 <= i < from <= j < g.len(),
        g[j].parent == i,
    ensures
        subtree_total(g, j) <= children_total(g, i, from),
    decreases j - from,
{
    if from < j {
        lemma_children_total_holds(g, i, from + 1, j);
    }
}

/// A directory's subtree total is at least its own files and at least
/// the subtree total of each directory below it: totals grow towards the
/// root.
pub proof fn lemma_subtree_total_monotonic(g: Seq<DirNode>, j: int)
    requires
        tree(g),
        0 <= j < g.len(),
    ensures
        g[j].direct_files <= subtree_total(g, j),
        subtree_total(g, j) <= subtree_total(g, g[j].parent),
{
    if j > 0 {
        assert(linked(g, j));
        lemma_children_total_holds(g, g[j].parent, g[j].parent + 1, j);
    }
}

/// No subtree holds more files than all directories together.
pub proof fn lemma_subtree_le_total(g: Seq<DirNode>, i: int)
    requires
        tree(g),
        0 <= i < g.len(),
    ensures
        subtree_total(g, i) <= total_direct(g),
    decreases i,
{
    if i == 0 {
        lemma_total_is_root_subtree(g);
    } else {
        assert(linked(g, i));
        lemma_subtree_total_monotonic(g, i);
        lemma_subtree_le_total(g, g[i].parent);
    }
}

/// A path that takes a `/` before the name of an entry.
pub open spec fn plain(path: Seq<char>) -> bool {
    path.len() > 0 && path.last() != '/'
}

/// Two entries with the same path have the same name, and their
/// directories are the same up to the `/` that `join` adds.
pub proof fn lemma_join_injective(x: Seq<char>, a: Seq<char>, y: Seq<char>, b: Seq<char>)
    requires
        valid_name(a),
        valid_name(b),
        join(x, a) == join(y, b),
    ensures
        a == b,
        plain(x) && plain(y) ==> x == y,
        !plain(x) && !plain(y) ==> x == y,
        plain(x) && !plain(y) ==> y == x.push('/'),
        !plain(x) && plain(y) ==> x == y.push('/'),
{
    let sx = if plain(x) {
        x.push('/')
    } else {
        x
    };
    let sy = if plain(y) {
        y.push('/')
    } else {
        y
    };
    let s = join(x, a);
    if sx.len() < sy.len() {
        let k = sy.len() - 1;
        assert((sy + b)[k] == '/');
    } else if sy.len() < sx.len() {
        let k = sx.len() - 1;
        assert(sx[k] == '/');
    }
    assert(sx =~= s.subrange(0, sx.len() as int));
    assert(a =~= s.subrange(sx.len() as int, s.len() as int));
    if plain(x) && plain(y) {
        assert(x =~= sx.drop_last());
    }
}

/// The path of every directory below the root is longer than the root's
/// and does not end with `/`.
pub proof fn lemma_path_shape(g: Seq<DirNode>, j: int)
    requires
        tree(g),
        0 <= j < g.len(),
    ensures
        g[0].path.len() <= g[j].path.len(),
        j > 0 ==> g[0].path.len() < g[j].path.len() && plain(g[j].path),
    decreases j,
{
    if j > 0 {
        assert(linked(g, j));
        lemma_path_shape(g, g[j].parent);
        let name = g[j].name;
        assert(name.last() != '/') by {
        }
    }
}

/// No two directories of a tree have the same path.
pub proof fn lemma_paths_differ(g: Seq<DirNode>, i: int, j: int)
    requires
        tree(g),
        0 <= i < j < g.len(),
    ensures
        g[i].path != g[j].path,
    decreases j,
{
    lemma_path_shape(g, j);
    if i > 0 && g[i].path == g[j].path {
        assert(linked(g, i));
        assert(linked(g, j));
        let pi = g[i].parent;
        let pj = g[j].parent;
        lemma_join_injective(g[pi].path, g[i].name, g[pj].path, g[j].name);
        lemma_path_shape(g, pi);
        lemma_path_shape(g, pj);
        if pi < pj {
            lemma_paths_differ(g, pi, pj);
        } else if pj < pi {
            lemma_paths_differ(g, pj, pi);
        } else {
            let ki = choose|k: int| 0 <= k < g[pi].children.len() && g[pi].children[k] == i;
            let kj = choose|k: int| 0 <= k < g[pi].children.len() && g[pi].children[k] == j;
            lemma_lex_irreflexive(g[i].name);
            if ki < kj {
                assert(lex_lt(child_name(g, pi, ki), child_name(g, pi, kj)));
            } else {
                assert(lex_lt(child_name(g, pi, kj), child_name(g, pi, ki)));
            }
        }
    }
}

/// In a tree, the node found for the path of node `i` is node `i`.
pub proof fn lemma_find_own_path(g: Seq<DirNode>, i: int)
    requires
        tree(g),
        0 <= i < g.len(),
    ensures
        find_path(g, g[i].path) == Some(i),
{
    lemma_index_of_path(g, g[i].path, 0);
    let k = index_of_path_from(g, g[i].path, 0);
    if k < i {
        lemma_paths_differ(g, k, i);
    }
}

/// What `index_of_path_from` gives: the nodes from `k` up to it have
/// other paths, and the node at it, if it is one, has the path.
pub proof fn lemma_index_of_path(g: Seq<DirNode>, path: Seq<char>, k: int)
    requires
        0 <= k <= g.len(),
    ensures
        k <= index_of_path_from(g, path, k) <= g.len(),
        forall|l: int| k <= l < index_of_path_from(g, path, k) ==> g[l].path != path,
        index_of_path_from(g, path, k) < g.len() ==> g[index_of_path_from(g, path, k)].path
            == path,
    decreases g.len() - k,
{
    if k < g.len() && g[k].path != path {
        lemma_index_of_path(g, path, k + 1);
    }
}

/// Node `a` is node `d` or stands above it.
pub open spec fn is_ancestor(g: Seq<DirNode>, a: int, d: int) -> bool
    decreases d,
{
    if d == a {
        0 <= a < g.len()
    } else if 0 < d < g.len() && 0 <= g[d].parent < d {
        is_ancestor(g, a, g[d].parent)
    } else {
        false
    }
}

/// The subtree totals of the directory `root` and of all directories
/// below it, by path; a `root` that the graph does not hold has the total
/// zero.
pub open spec fn aggregate(g: Seq<DirNode>, root: Seq<char>) -> Map<Seq<char>, usize> {
    match find_path(g, root) {
        Some(r) => aggregate_upto(g, r, g.len() as int),
        None => map![root => 0usize],
    }
}

/// The part of `aggregate` that the first `upto` nodes make up.
pub open spec fn aggregate_upto(g: Seq<DirNode>, r: int, upto: int) -> Map<Seq<char>, usize> {
    Map::new(
        |p: Seq<char>|
            exists|i: int| 0 <= i < upto && is_ancestor(g, r, i) && #[trigger] g[i].path == p,
        |p: Seq<char>| subtree_total(g, find_path(g, p).unwrap()) as usize,
    )
}

/// A table of subtree totals, by the path of the directory.
pub struct TreeCounts {
    map: StringHashMap<usize>,
}

impl View for TreeCounts {
    type V = Map<Seq<char>, usize>;

    closed spec fn view(&self) -> Map<Seq<char>, usize> {
        self.map@
    }
}

impl TreeCounts {
    /// An empty table.
    pub fn new() -> (t: TreeCounts)
        ensures
            t@ == Map::<Seq<char>, usize>::empty(),
    {
        TreeCounts { map: StringHashMap::new() }
    }

    /// Records `total` for `path`, in place of what was recorded for it.
    pub fn insert(&mut self, path: String, total: usize)
        ensures
            final(self)@ == old(self)@.insert(path@, total),
    {
        self.map.insert(path, total);
    }

    /// The total recorded for `path`.
    pub fn get(&self, path: &str) -> (r: Option<usize>)
        ensures
            r == if self@.contains_key(path@) {
                Some(self@[path@])
            } else {
                None
            },
    {
        match self.map.get(path) {
            Some(v) => Some(*v),
            None => None,
        }
    }
}

/// The outcome of a scan.
pub struct ScanResult {
    /// The path of the directory that was scanned.
    pub root: String,
    /// The directories that were found.
    pub dirs: DirGraph,
    /// The number of matching files.
    pub total_files: usize,
    /// The number of directories other than the root that hold a
    /// matching file directly.
    pub dirs_with_files: usize,
}

impl ScanResult {
    /// The graph is a tree below `root`, and the two counts are those of
    /// the graph.
    pub open spec fn wf(&self) -> bool {
        &&& self.dirs.wf()
        &&& self.root@ == self.dirs@[0].path
        &&& self.total_files == total_direct(self.dirs@)
        &&& self.dirs_with_files == dirs_with_files(self.dirs@)
    }
}

/// The sum of the subtree totals of the first `upto` of the nodes
/// `kids`.
pub open spec fn list_total(g: Seq<DirNode>, kids: Seq<int>, upto: int) -> nat
    decreases upto,
{
    if 0 < upto <= kids.len() {
        list_total(g, kids, upto - 1) + subtree_total(g, kids[upto - 1])
    } else {
        0
    }
}

spec fn list_from(g: Seq<DirNode>, kids: Seq<int>, from: int, upto: int) -> nat
    decreases upto,
{
    if 0 < upto <= kids.len() {
        list_from(g, kids, from, upto - 1) + if kids[upto - 1] >= from {
            subtree_total(g, kids[upto - 1])
        } else {
            0
        }
    } else {
        0
    }
}

spec fn listed(kids: Seq<int>, t: int, upto: int) -> bool {
    exists|k: int| 0 <= k < upto && k < kids.len() && #[trigger] kids[k] == t
}

proof fn lemma_list_from_step(g: Seq<DirNode>, kids: Seq<int>, t: int, upto: int)
    requires
        0 <= upto <= kids.len(),
        forall|k: int, l: int| 0 <= k < l < kids.len() ==> kids[k] != kids[l],
    ensures
        list_from(g, kids, t, upto) == list_from(g, kids, t + 1, upto) + if listed(kids, t, upto) {
            subtree_total(g, t)
        } else {
            0
        },
    decreases upto,
{
    if upto > 0 {
        lemma_list_from_step(g, kids, t, upto - 1);
    }
}

proof fn lemma_list_from_none(g: Seq<DirNode>, kids: Seq<int>, from: int, upto: int)
    requires
        0 <= upto <= kids.len(),
        forall|k: int| 0 <= k < kids.len() ==> kids[k] < from,
    ensures
        list_from(g, kids, from, upto) == 0,
    decreases upto,
{
    if upto > 0 {
        lemma_list_from_none(g, kids, from, upto - 1);
    }
}

proof fn lemma_list_from_all(g: Seq<DirNode>, kids: Seq<int>, from: int, upto: int)
    requires
        0 <= upto <= kids.len(),
        forall|k: int| 0 <= k < kids.len() ==> kids[k] >= from,
    ensures
        list_from(g, kids, from, upto) == list_total(g, kids, upto),
    decreases upto,
{
    if upto > 0 {
        lemma_list_from_all(g, kids, from, upto - 1);
    }
}

proof fn lemma_children_total_is_list(g: Seq<DirNode>, i: int, t: int)
    requires
        tree(g),
        0 <= i < t <= g.len(),
    ensures
        children_total(g, i, t) == list_from(
            g,
            g[i].children,
            t,
            g[i].children.len() as int,
        ),
    decreases g.len() - t,
{
    let kids = g[i].children;
    assert forall|k: int| 0 <= k < kids.len() implies i < #[trigger] kids[k] < g.len()
        && g[kids[k]].parent == i by {
        assert(child_ok(g, i, k));
    }
    if t == g.len() {
        lemma_list_from_none(g, kids, t, kids.len() as int);
    } else {
        lemma_children_total_is_list(g, i, t + 1);
        assert forall|k: int, l: int| 0 <= k < l < kids.len() implies kids[k] != kids[l] by {
            lemma_lex_irreflexive(child_name(g, i, k));
            assert(lex_lt(child_name(g, i, k), child_name(g, i, l)));
        }
        lemma_list_from_step(g, kids, t, kids.len() as int);
        assert(linked(g, t));
    }
}

/// A directory's subtree total is the number of its own files and the
/// subtree totals of its children together.
pub proof fn lemma_subtree_total_by_children(g: Seq<DirNode>, i: int)
    requires
        tree(g),
        0 <= i < g.len(),
    ensures
        subtree_total(g, i) == g[i].direct_files + list_total(
            g,
            g[i].children,
            g[i].children.len() as int,
        ),
{
    let kids = g[i].children;
    lemma_children_total_is_list(g, i, i + 1);
    assert forall|k: int| 0 <= k < kids.len() implies kids[k] >= i + 1 by {
        assert(child_ok(g, i, k));
    }
    lemma_list_from_all(g, kids, i + 1, kids.len() as int);
}

/// The nodes other than the root, among the first `upto`, that hold a
/// matching file directly.
pub open spec fn nodes_with_files(g: Seq<DirNode>, upto: int) -> Set<int> {
    Set::new(|i: int| 0 < i < upto && g[i].direct_files > 0)
}

/// `count_with_files` counts the nodes of `nodes_with_files`.
pub proof fn lemma_count_is_cardinality(g: Seq<DirNode>, upto: int)
    requires
        0 <= upto <= g.len(),
    ensures
        nodes_with_files(g, upto).finite(),
        nodes_with_files(g, upto).len() == count_with_files(g, upto),
    decreases upto,
{
    if upto <= 1 {
        assert(nodes_with_files(g, upto) =~= Set::<int>::empty());
    } else {
        lemma_count_is_cardinality(g, upto - 1);
        if g[upto - 1].direct_files > 0 {
            assert(nodes_with_files(g, upto) =~= nodes_with_files(g, upto - 1).insert(upto - 1));
        } else {
            assert(nodes_with_files(g, upto) =~= nodes_with_files(g, upto - 1));
        }
    }
}

/// The root stands above every directory.
pub proof fn lemma_root_is_ancestor(g: Seq<DirNode>, i: int)
    requires
        tree(g),
        0 <= i < g.len(),
    ensures
        is_ancestor(g, 0, i),
    decreases i,
{
    if i > 0 {
        assert(linked(g, i));
        lemma_root_is_ancestor(g, g[i].parent);
    }
}

/// The table of the whole tree holds, for every directory, its subtree
/// total.
pub proof fn lemma_aggregate_of_root(g: Seq<DirNode>, i: int)
    requires
        tree(g),
        total_direct(g) <= usize::MAX,
        0 <= i < g.len(),
    ensures
        aggregate(g, g[0].path).contains_key(g[i].path),
        aggregate(g, g[0].path)[g[i].path] == subtree_total(g, i),
{
    lemma_find_own_path(g, 0);
    lemma_find_own_path(g, i);
    lemma_root_is_ancestor(g, i);
    lemma_subtree_le_total(g, i);
}

impl ScanResult {
    /// The number of matching files of a scan is the subtree total of
    /// the root, which is also what the table of the tree holds for it.
    pub proof fn lemma_total_files(&self)
        requires
            self.wf(),
        ensures
            self.total_files == subtree_total(self.dirs@, 0),
            aggregate(self.dirs@, self.root@).contains_key(self.root@),
            aggregate(self.dirs@, self.root@)[self.root@] == self.total_files,
    {
        lemma_total_is_root_subtree(self.dirs@);
        lemma_aggregate_of_root(self.dirs@, 0);
    }

    /// The number of directories with files of a scan is the number of
    /// directories other than the root that hold a matching file
    /// directly.
    pub proof fn lemma_dirs_with_files(&self)
        requires
            self.wf(),
        ensures
            nodes_with_files(self.dirs@, self.dirs@.len() as int).finite(),
            self.dirs_with_files == nodes_with_files(self.dirs@, self.dirs@.len() as int).len(),
    {
        lemma_count_is_cardinality(self.dirs@, self.dirs@.len() as int);
    }
}

} // verus!
