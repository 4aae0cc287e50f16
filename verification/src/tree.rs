//! The arena tree: every entry lives in one `Vec`, addressed by index.
use vstd::prelude::*;
use crate::mode::SizeMode;
use crate::model::{
    anc, cnt, ind, kids_sum, lemma_cnt_le_one, lemma_cnt_nonneg,
    lemma_anc_le, lemma_detach, lemma_ind_nonneg, lemma_kids_sum_mono, lemma_listed, lemma_nonneg, lemma_reach_anc, lemma_reach_between, nonneg, shaped, sub_sum,
};
use crate::sort::{in_range, merge_sort, ranks_before};
use crate::sums::{lemma_without_absent, lemma_without_contains, lemma_without_no_dup, lemma_without_push, without};

verus! {

/// A single filesystem entry (file or directory) in the arena.
///
/// Nodes refer to each other by their index into the tree's node list.
/// `name` is only the final path component, as raw bytes.
pub struct Node {
    pub name: Vec<u8>,
    /// This entry's own apparent bytes, or 0 for a directory.
    pub own_apparent: u64,
    /// This entry's own allocated bytes, or 0 for a directory.
    pub own_allocated: u64,
    /// The current mode's own size plus every descendant's.
    pub total_size: u64,
    pub children: Vec<usize>,
    /// `None` only for the root.
    pub parent: Option<usize>,
}

/// A node's own size under `mode`.
pub open spec fn own_of(n: Node, mode: SizeMode) -> u64 {
    match mode {
        SizeMode::Apparent => n.own_apparent,
        SizeMode::Allocated => n.own_allocated,
    }
}

pub open spec fn kids_of(nodes: Seq<Node>) -> Seq<Seq<usize>> {
    Seq::new(nodes.len(), |j: int| nodes[j].children@)
}

pub open spec fn parents_of(nodes: Seq<Node>) -> Seq<Option<usize>> {
    Seq::new(nodes.len(), |j: int| nodes[j].parent)
}

pub open spec fn weights(nodes: Seq<Node>, mode: SizeMode) -> Seq<int> {
    Seq::new(nodes.len(), |j: int| own_of(nodes[j], mode) as int)
}

/// Own size of `i` plus the sizes of everything listed below it.
pub open spec fn subtree_size(nodes: Seq<Node>, i: int, mode: SizeMode) -> int {
    sub_sum(kids_of(nodes), weights(nodes, mode), i)
}

/// `k` is `i` or lies below it, following children lists.
pub open spec fn reaches(nodes: Seq<Node>, i: int, k: int) -> bool {
    cnt(kids_of(nodes), k, i) > 0
}

/// Node 0 is the root and the only node without a parent; children lie above
/// their parent, point back to it and are listed once.
pub open spec fn arena_ok(nodes: Seq<Node>) -> bool {
    &&& nodes.len() >= 1
    &&& shaped(kids_of(nodes), parents_of(nodes))
    &&& forall|j: int| 0 <= j < nodes.len() ==> ((#[trigger] nodes[j]).parent is None <==> j == 0)
}

/// Every node the root reaches holds the size of its subtree.
pub open spec fn totals_consistent(nodes: Seq<Node>, mode: SizeMode) -> bool {
    forall|j: int|
        0 <= j < nodes.len() && #[trigger] reaches(nodes, 0, j) ==> nodes[j].total_size as int
            == subtree_size(nodes, j, mode)
}

/// The grand total fits in a `u64` in both modes.
pub open spec fn totals_fit(nodes: Seq<Node>) -> bool {
    &&& subtree_size(nodes, 0, SizeMode::Apparent) <= u64::MAX
    &&& subtree_size(nodes, 0, SizeMode::Allocated) <= u64::MAX
}

pub open spec fn with_total(n: Node, t: u64) -> Node {
    Node { total_size: t, ..n }
}

/// `b` is `a` with only `total_size` fields changed.
pub open spec fn same_shape(a: Seq<Node>, b: Seq<Node>) -> bool {
    &&& a.len() == b.len()
    &&& forall|j: int| 0 <= j < a.len() ==> #[trigger] b[j] == with_total(a[j], b[j].total_size)
}

/// `nodes` after recomputing, under `mode`, the total of every node that
/// `from` reaches.
pub open spec fn recomputed(nodes: Seq<Node>, from: int, mode: SizeMode) -> Seq<Node> {
    Seq::new(
        nodes.len(),
        |j: int|
            if reaches(nodes, from, j) {
                with_total(nodes[j], subtree_size(nodes, j, mode) as u64)
            } else {
                nodes[j]
            },
    )
}

pub proof fn lemma_same_shape(a: Seq<Node>, b: Seq<Node>)
    requires
        same_shape(a, b),
    ensures
        kids_of(a) == kids_of(b),
        parents_of(a) == parents_of(b),
        weights(a, SizeMode::Apparent) == weights(b, SizeMode::Apparent),
        weights(a, SizeMode::Allocated) == weights(b, SizeMode::Allocated),
        arena_ok(a) == arena_ok(b),
        forall|i: int, m: SizeMode| #[trigger]
            subtree_size(a, i, m) == subtree_size(b, i, m),
        forall|i: int, k: int| #[trigger] reaches(a, i, k) == reaches(b, i, k),
{
    assert forall|j: int| 0 <= j < a.len() implies #[trigger] a[j].children == b[j].children && a[j].parent
        == b[j].parent && own_of(a[j], SizeMode::Apparent) == own_of(b[j], SizeMode::Apparent) && own_of(
        a[j],
        SizeMode::Allocated,
    ) == own_of(b[j], SizeMode::Allocated) by {
        assert(b[j] == with_total(a[j], b[j].total_size));
    }
    assert(kids_of(a) =~= kids_of(b));
    assert(parents_of(a) =~= parents_of(b));
    assert(weights(a, SizeMode::Apparent) =~= weights(b, SizeMode::Apparent));
    assert(weights(a, SizeMode::Allocated) =~= weights(b, SizeMode::Allocated));
    assert forall|i: int, m: SizeMode| #[trigger] subtree_size(a, i, m) == subtree_size(b, i, m) by {
        assert(weights(a, m) == weights(b, m));
    }
    if arena_ok(a) {
        assert forall|j: int| 0 <= j < b.len() implies ((#[trigger] b[j]).parent is None <==> j == 0) by {
            assert(a[j].parent == b[j].parent);
        }
    }
    if arena_ok(b) {
        assert forall|j: int| 0 <= j < a.len() implies ((#[trigger] a[j]).parent is None <==> j == 0) by {
            assert(a[j].parent == b[j].parent);
        }
    }
}

pub proof fn lemma_weights_nonneg(nodes: Seq<Node>, mode: SizeMode)
    ensures
        nonneg(weights(nodes, mode)),
        weights(nodes, mode).len() == kids_of(nodes).len(),
{
}

/// `r` lists the children `cs` largest total first; children with equal
/// totals keep the order in which `cs` lists them.
pub open spec fn by_size(nodes: Seq<Node>, cs: Seq<usize>, r: Seq<usize>) -> bool {
    &&& r.len() == cs.len()
    &&& r.no_duplicates()
    &&& forall|i: int| 0 <= i < r.len() ==> cs.contains(#[trigger] r[i])
    &&& forall|i: int, j: int, a: int, b: int|
        #![trigger cs[a], cs[b], r[i], r[j]]
        0 <= i < j < r.len() && 0 <= a < cs.len() && 0 <= b < cs.len() && cs[a] == r[i]
            && cs[b] == r[j] ==> nodes[r[i] as int].total_size > nodes[r[j] as int].total_size
            || (nodes[r[i] as int].total_size == nodes[r[j] as int].total_size && a < b)
}

/// A listing without repeats that holds every element of `cs` (which has no
/// repeats) exactly once.
pub proof fn lemma_by_size_covers(nodes: Seq<Node>, cs: Seq<usize>, r: Seq<usize>, x: usize)
    requires
        by_size(nodes, cs, r),
        cs.no_duplicates(),
        cs.contains(x),
    ensures
        r.contains(x),
{
    cs.unique_seq_to_set();
    r.unique_seq_to_set();
    assert(r.to_set().subset_of(cs.to_set())) by {
        assert forall|y: usize| r.to_set().contains(y) implies cs.to_set().contains(y) by {
            let i = choose|i: int| 0 <= i < r.len() && r[i] == y;
            assert(cs.contains(r[i]));
        }
    }
    vstd::set_lib::lemma_subset_equality(r.to_set(), cs.to_set());
    assert(cs.to_set().contains(x));
}

/// The largest-first order fixes the listing: two listings of the same
/// children are the same.
pub proof fn lemma_by_size_unique(nodes: Seq<Node>, cs: Seq<usize>, r1: Seq<usize>, r2: Seq<usize>)
    requires
        by_size(nodes, cs, r1),
        by_size(nodes, cs, r2),
        cs.no_duplicates(),
    ensures
        r1 == r2,
{
    assert forall|i: int| 0 <= i < r1.len() implies r1[i] == r2[i] by {
        lemma_by_size_agree(nodes, cs, r1, r2, i);
    }
    assert(r1 =~= r2);
}

proof fn lemma_by_size_agree(nodes: Seq<Node>, cs: Seq<usize>, r1: Seq<usize>, r2: Seq<usize>, i: int)
    requires
        by_size(nodes, cs, r1),
        by_size(nodes, cs, r2),
        cs.no_duplicates(),
        0 <= i < r1.len(),
    ensures
        r1[i] == r2[i],
    decreases i,
{
    if i > 0 {
        lemma_by_size_agree(nodes, cs, r1, r2, i - 1);
    }
    let x = r1[i];
    let y = r2[i];
    if x != y {
        assert(cs.contains(x));
        assert(cs.contains(y));
        lemma_by_size_covers(nodes, cs, r2, x);
        lemma_by_size_covers(nodes, cs, r1, y);
        let j2 = choose|j: int| 0 <= j < r2.len() && r2[j] == x;
        let j1 = choose|j: int| 0 <= j < r1.len() && r1[j] == y;
        let a = choose|a: int| 0 <= a < cs.len() && cs[a] == x;
        let b = choose|b: int| 0 <= b < cs.len() && cs[b] == y;
        if j2 < i {
            assert forall|k: int| 0 <= k < i implies r1[k] == r2[k] by {
                if k < i {
                    lemma_by_size_agree(nodes, cs, r1, r2, k);
                }
            }
            assert(r1[j2] == x);
        } else if j1 < i {
            assert forall|k: int| 0 <= k < i implies r1[k] == r2[k] by {
                lemma_by_size_agree(nodes, cs, r1, r2, k);
            }
            assert(r2[j1] == y);
        } else {
            assert(j2 != i && j1 != i);
            assert(cs[a] == r1[i] && cs[b] == r1[j1]);
            assert(cs[b] == r2[i] && cs[a] == r2[j2]);
        }
    }
}

/// The names on the path from the root down to `i`.
pub open spec fn path_names(nodes: Seq<Node>, i: int) -> Seq<Seq<u8>>
    decreases i,
{
    if 0 <= i < nodes.len() && nodes[i].parent is Some && nodes[i].parent.unwrap() < i {
        path_names(nodes, nodes[i].parent.unwrap() as int).push(nodes[i].name@)
    } else {
        seq![nodes[i].name@]
    }
}

pub open spec fn names_of(parts: Seq<Vec<u8>>) -> Seq<Seq<u8>> {
    parts.map_values(|v: Vec<u8>| v@)
}

pub open spec fn sat_sub(x: u64, y: u64) -> u64 {
    if x >= y {
        (x - y) as u64
    } else {
        0
    }
}

/// `b` is `a` after unlinking `idx` from its parent's children and taking
/// `idx`'s total off every node on its parent's chain up to the root (never
/// going below zero). Nothing happens to a node without a parent.
pub open spec fn detached(a: Seq<Node>, b: Seq<Node>, idx: usize) -> bool {
    let p = a[idx as int].parent;
    let freed = a[idx as int].total_size;
    &&& a.len() == b.len()
    &&& forall|j: int|
        0 <= j < a.len() ==> {
            &&& (#[trigger] b[j]).name == a[j].name
            &&& b[j].own_apparent == a[j].own_apparent
            &&& b[j].own_allocated == a[j].own_allocated
            &&& b[j].parent == a[j].parent
            &&& b[j].children@ == if p is Some && p.unwrap() as int == j {
                without(a[j].children@, idx)
            } else {
                a[j].children@
            }
            &&& b[j].total_size == if p is Some && anc(parents_of(a), j, p.unwrap() as int) {
                sat_sub(a[j].total_size, freed)
            } else {
                a[j].total_size
            }
        }
}

/// Every node's parent chain ends at the root.
pub proof fn lemma_rooted(nodes: Seq<Node>, j: int)
    requires
        arena_ok(nodes),
        0 <= j < nodes.len(),
    ensures
        anc(parents_of(nodes), 0, j),
    decreases j,
{
    let ps = parents_of(nodes);
    assert(ps[j] == nodes[j].parent);
    if j != 0 {
        assert(nodes[j].parent is Some);
        lemma_rooted(nodes, ps[j].unwrap() as int);
    }
}

/// Unlinking a node that the root reaches, and taking its total off its
/// ancestors, leaves every total the root still reaches equal to what a full
/// recompute would give; and no subtree grows.
pub proof fn lemma_detach_keeps_totals(a: Seq<Node>, b: Seq<Node>, idx: usize, mode: SizeMode)
    requires
        arena_ok(a),
        0 <= idx < a.len(),
        detached(a, b, idx),
    ensures
        arena_ok(b),
        forall|m: SizeMode| #[trigger] subtree_size(b, 0, m) <= subtree_size(a, 0, m),
        totals_consistent(a, mode) && reaches(a, 0, idx as int) ==> totals_consistent(b, mode),
{
    let i0 = idx as int;
    let ka = kids_of(a);
    let kb = kids_of(b);
    let ps = parents_of(a);
    assert(parents_of(b) =~= ps);
    assert forall|m: SizeMode| #[trigger] weights(b, m) == weights(a, m) by {
        assert(weights(b, m) =~= weights(a, m));
    }
    assert(ps[i0] == a[i0].parent);
    match a[i0].parent {
        None => {
            assert(kb =~= ka);
            assert forall|j: int| 0 <= j < b.len() implies ((#[trigger] b[j]).parent is None <==> j == 0) by {
                assert(a[j].parent == b[j].parent);
            }
            assert(totals_consistent(a, mode) ==> totals_consistent(b, mode)) by {
                if totals_consistent(a, mode) {
                    assert forall|j: int|
                        0 <= j < b.len() && #[trigger] reaches(b, 0, j) implies b[j].total_size as int
                            == subtree_size(b, j, mode) by {
                        assert(reaches(a, 0, j));
                        assert(weights(b, mode) == weights(a, mode));
                    }
                }
            }
        },
        Some(p0) => {
            let p = p0 as int;
            assert(p < i0);
            assert(kb =~= ka.update(p, without(ka[p], idx)));
            // shape is kept
            lemma_without_no_dup(ka[p], idx);
            assert forall|i: int, j: int|
                #![trigger kb[i][j]]
                0 <= i < kb.len() && 0 <= j < kb[i].len() implies i < kb[i][j] < kb.len() && parents_of(
                    b,
                )[kb[i][j] as int] is Some && parents_of(b)[kb[i][j] as int].unwrap() as int == i by {
                if i == p {
                    assert(without(ka[p], idx).contains(kb[i][j]));
                    lemma_without_contains(ka[p], idx, kb[i][j]);
                    let m = choose|m: int| 0 <= m < ka[p].len() && ka[p][m] == kb[i][j];
                    assert(ka[p][m] == kb[i][j]);
                } else {
                    assert(kb[i][j] == ka[i][j]);
                }
            }
            assert forall|i: int| 0 <= i < kb.len() implies (#[trigger] kb[i]).no_duplicates() by {
                if i != p {
                    assert(kb[i] == ka[i]);
                }
            }
            assert forall|j: int| 0 <= j < b.len() implies ((#[trigger] b[j]).parent is None <==> j == 0) by {
                assert(a[j].parent == b[j].parent);
            }
            assert(shaped(kb, parents_of(b)));
            if !ka[p].contains(idx) {
                lemma_without_absent(ka[p], idx);
                assert(kb =~= ka);
                if totals_consistent(a, mode) && reaches(a, 0, i0) {
                    lemma_listed(ka, ps, i0, 0);
                }
            } else {
                assert forall|m: SizeMode| #[trigger] subtree_size(b, 0, m) <= subtree_size(a, 0, m) by {
                    let w = weights(a, m);
                    lemma_detach(ka, ps, w, p, idx, kb, 0);
                    lemma_cnt_nonneg(ka, p, 0);
                    lemma_weights_nonneg(a, m);
                    lemma_nonneg(ka, w, i0);
                    let q = cnt(ka, p, 0);
                    let s = sub_sum(ka, w, i0);
                    assert(q * s >= 0) by (nonlinear_arith)
                        requires
                            q >= 0,
                            s >= 0,
                    ;
                }
                if totals_consistent(a, mode) && reaches(a, 0, i0) {
                    let w = weights(a, mode);
                    let big = sub_sum(ka, w, i0);
                    lemma_listed(ka, ps, i0, 0);
                    assert(a[i0].total_size as int == big);
                    assert forall|j: int|
                        0 <= j < b.len() && #[trigger] reaches(b, 0, j) implies b[j].total_size as int
                            == subtree_size(b, j, mode) by {
                        let e = ind(ka.len() as int, j);
                        lemma_detach(ka, ps, e, p, idx, kb, 0);
                        lemma_cnt_nonneg(ka, p, 0);
                        lemma_cnt_nonneg(ka, j, i0);
                        let q0 = cnt(ka, p, 0);
                        let r0 = cnt(ka, j, i0);
                        assert(q0 * r0 >= 0) by (nonlinear_arith)
                            requires
                                q0 >= 0,
                                r0 >= 0,
                        ;
                        assert(reaches(a, 0, j));
                        lemma_detach(ka, ps, w, p, idx, kb, j);
                        lemma_weights_nonneg(a, mode);
                        lemma_weights_nonneg(b, mode);
                        lemma_nonneg(kb, w, j);
                        if anc(ps, j, p) {
                            lemma_rooted(a, j);
                            lemma_reach_between(ka, ps, p, 0, j);
                            lemma_cnt_le_one(ka, ps, p, j);
                            assert(cnt(ka, p, j) == 1);
                            assert(1 * big == big);
                        } else {
                            lemma_cnt_nonneg(ka, p, j);
                            if cnt(ka, p, j) > 0 {
                                lemma_reach_anc(ka, ps, p, j);
                            }
                            assert(cnt(ka, p, j) == 0);
                            assert(0 * big == 0);
                        }
                    }
                }
            }
        },
    }
}

/// Toggling the mode twice on a tree whose totals are right gives back the
/// same tree.
pub proof fn lemma_toggle_round_trip(nodes: Seq<Node>, mode: SizeMode)
    requires
        arena_ok(nodes),
        totals_consistent(nodes, mode),
    ensures
        recomputed(recomputed(nodes, 0, mode.spec_toggled()), 0, mode) == nodes,
{
    let once = recomputed(nodes, 0, mode.spec_toggled());
    let twice = recomputed(once, 0, mode);
    lemma_recomputed_shape(nodes, 0, mode.spec_toggled());
    lemma_same_shape(nodes, once);
    assert forall|j: int| 0 <= j < nodes.len() implies #[trigger] twice[j] == nodes[j] by {
        if reaches(once, 0, j) {
            assert(reaches(nodes, 0, j));
            assert(nodes[j].total_size as int == subtree_size(nodes, j, mode));
        }
    }
    assert(twice =~= nodes);
}

impl Node {
    /// A node is a directory if it has children. Empty directories look like
    /// files here: there is nothing to descend into either way.
    pub fn is_dir(&self) -> (b: bool)
        ensures
            b == (self.children@.len() > 0),
    {
        !self.children.is_empty()
    }

    /// This node's own size under `mode`.
    pub fn own_size(&self, mode: SizeMode) -> (s: u64)
        ensures
            s == own_of(*self, mode),
    {
        match mode {
            SizeMode::Apparent => self.own_apparent,
            SizeMode::Allocated => self.own_allocated,
        }
    }
}

/// Arena-backed tree: all nodes live in one `Vec`, addressed by `usize`.
pub struct Tree {
    pub(crate) nodes: Vec<Node>,
    pub(crate) root_idx: usize,
    /// Which size the totals currently reflect.
    pub(crate) mode: SizeMode,
}

impl View for Tree {
    type V = Seq<Node>;

    closed spec fn view(&self) -> Seq<Node> {
        self.nodes@
    }
}

impl Tree {
    /// The size mode the totals reflect.
    pub closed spec fn spec_mode(&self) -> SizeMode {
        self.mode
    }

    pub closed spec fn spec_root_idx(&self) -> usize {
        self.root_idx
    }

    /// The root is node 0 and the arena is a well-shaped tree.
    pub open spec fn wf(&self) -> bool {
        &&& arena_ok(self@)
        &&& self.spec_root_idx() == 0
    }

    /// Every node the root reaches holds its subtree's size in the current mode.
    pub open spec fn consistent(&self) -> bool {
        totals_consistent(self@, self.spec_mode())
    }

    /// All nodes, indexed as the tree refers to them.
    pub fn nodes(&self) -> (r: &Vec<Node>)
        ensures
            r@ == self@,
    {
        &self.nodes
    }

    /// Index of the root node.
    pub fn root_idx(&self) -> (r: usize)
        ensures
            r == self.spec_root_idx(),
    {
        self.root_idx
    }

    /// The size mode the totals currently reflect.
    pub fn mode(&self) -> (m: SizeMode)
        ensures
            m == self.spec_mode(),
    {
        self.mode
    }

    /// A tree holding only the root, called `name`.
    pub(crate) fn with_root(name: Vec<u8>, mode: SizeMode) -> (t: Tree)
        ensures
            t.wf(),
            t.spec_mode() == mode,
            t@.len() == 1,
            t@[0].name == name,
            t@[0].own_apparent == 0,
            t@[0].own_allocated == 0,
            t@[0].total_size == 0,
            t@[0].children@.len() == 0,
            t@[0].parent is None,
    {
        let root = Node {
            name,
            own_apparent: 0,
            own_allocated: 0,
            total_size: 0,
            children: Vec::new(),
            parent: None,
        };
        let mut nodes: Vec<Node> = Vec::new();
        nodes.push(root);
        let t = Tree { nodes, root_idx: 0, mode };
        proof {
            assert(kids_of(t@)[0].len() == 0);
        }
        t
    }

    /// Append a new childless node called `name` under `parent`.
    pub(crate) fn push_child(&mut self, parent: usize, name: Vec<u8>) -> (idx: usize)
        requires
            old(self).wf(),
            parent < old(self)@.len(),
            old(self)@.len() < usize::MAX,
        ensures
            final(self).wf(),
            idx == old(self)@.len(),
            final(self)@.len() == old(self)@.len() + 1,
            final(self).spec_mode() == old(self).spec_mode(),
            final(self).spec_root_idx() == old(self).spec_root_idx(),
            final(self)@[idx as int].name == name,
            final(self)@[idx as int].own_apparent == 0,
            final(self)@[idx as int].own_allocated == 0,
            final(self)@[idx as int].total_size == 0,
            final(self)@[idx as int].children@.len() == 0,
            final(self)@[idx as int].parent == Some(parent),
            forall|j: int|
                0 <= j < old(self)@.len() ==> {
                    &&& (#[trigger] final(self)@[j]).name == old(self)@[j].name
                    &&& final(self)@[j].own_apparent == old(self)@[j].own_apparent
                    &&& final(self)@[j].own_allocated == old(self)@[j].own_allocated
                    &&& final(self)@[j].total_size == old(self)@[j].total_size
                    &&& final(self)@[j].parent == old(self)@[j].parent
                    &&& final(self)@[j].children@ == if j == parent {
                        old(self)@[j].children@.push(idx)
                    } else {
                        old(self)@[j].children@
                    }
                },
    {
        let idx = self.nodes.len();
        let node = Node {
            name,
            own_apparent: 0,
            own_allocated: 0,
            total_size: 0,
            children: Vec::new(),
            parent: Some(parent),
        };
        self.nodes.push(node);
        self.nodes[parent].children.push(idx);
        proof {
            let a = old(self)@;
            let b = self@;
            let ka = kids_of(a);
            let kb = kids_of(b);
            assert(kb =~= ka.update(parent as int, ka[parent as int].push(idx)).push(Seq::<usize>::empty()));
            assert(parents_of(b) =~= parents_of(a).push(Some(parent)));
            assert forall|i: int, j: int|
                #![trigger kb[i][j]]
                0 <= i < kb.len() && 0 <= j < kb[i].len() implies i < kb[i][j] < kb.len() && parents_of(
                    b,
                )[kb[i][j] as int] is Some && parents_of(b)[kb[i][j] as int].unwrap() as int == i by {
                if i == parent && j == ka[i].len() {
                } else {
                    assert(kb[i][j] == ka[i][j]);
                }
            }
            assert forall|i: int| 0 <= i < kb.len() implies (#[trigger] kb[i]).no_duplicates() by {
                if i == parent {
                    assert forall|x: int, y: int| 0 <= x < kb[i].len() && 0 <= y < kb[i].len() && x != y implies kb[i][x]
                        != kb[i][y] by {
                        if x < ka[i].len() && y < ka[i].len() {
                            assert(kb[i][x] == ka[i][x] && kb[i][y] == ka[i][y]);
                        } else if x < ka[i].len() {
                            assert(kb[i][x] == ka[i][x]);
                        } else if y < ka[i].len() {
                            assert(kb[i][y] == ka[i][y]);
                        }
                    }
                } else if i < a.len() {
                    assert(kb[i] == ka[i]);
                }
            }
            assert forall|j: int| 0 <= j < b.len() implies ((#[trigger] b[j]).parent is None <==> j == 0) by {
                if j < a.len() {
                    assert(b[j].parent == a[j].parent);
                }
            }
        }
        idx
    }

    /// Set a node's own sizes.
    pub(crate) fn set_own(&mut self, idx: usize, apparent: u64, allocated: u64)
        requires
            old(self).wf(),
            idx < old(self)@.len(),
        ensures
            final(self).wf(),
            final(self)@.len() == old(self)@.len(),
            final(self).spec_mode() == old(self).spec_mode(),
            final(self)@[idx as int].own_apparent == apparent,
            final(self)@[idx as int].own_allocated == allocated,
            forall|j: int|
                0 <= j < old(self)@.len() ==> {
                    &&& (#[trigger] final(self)@[j]).name == old(self)@[j].name
                    &&& final(self)@[j].total_size == old(self)@[j].total_size
                    &&& final(self)@[j].parent == old(self)@[j].parent
                    &&& final(self)@[j].children == old(self)@[j].children
                    &&& j != idx ==> final(self)@[j].own_apparent == old(self)@[j].own_apparent
                        && final(self)@[j].own_allocated == old(self)@[j].own_allocated
                },
    {
        self.nodes[idx].own_apparent = apparent;
        self.nodes[idx].own_allocated = allocated;
        proof {
            assert(kids_of(self@) =~= kids_of(old(self)@));
            assert(parents_of(self@) =~= parents_of(old(self)@));
            assert forall|j: int| 0 <= j < self@.len() implies ((#[trigger] self@[j]).parent is None <==> j
                == 0) by {
                assert(self@[j].parent == old(self)@[j].parent);
            }
        }
    }

    /// Post-order pass: a node's total is its own size plus the totals of all
    /// its children. Returns the subtotal so the parent can accumulate it.
    pub(crate) fn compute_totals(&mut self, idx: usize) -> (total: u64)
        requires
            old(self).wf(),
            idx < old(self)@.len(),
            subtree_size(old(self)@, idx as int, old(self).spec_mode()) <= u64::MAX,
        ensures
            final(self)@ == recomputed(old(self)@, idx as int, old(self).spec_mode()),
            final(self).spec_mode() == old(self).spec_mode(),
            final(self).spec_root_idx() == old(self).spec_root_idx(),
            total == subtree_size(old(self)@, idx as int, old(self).spec_mode()),
        decreases old(self)@.len() - idx,
    {
        let ghost old_nodes = self.nodes@;
        let ghost n = old_nodes.len() as int;
        let ghost kids = kids_of(old_nodes);
        let ghost w = weights(old_nodes, self.mode);
        let ghost i = idx as int;
        let ghost m0 = self.mode;
        proof {
            lemma_weights_nonneg(old_nodes, self.mode);
        }
        let mut total: u64 = self.nodes[idx].own_size(self.mode);
        let child_count = self.nodes[idx].children.len();
        let mut k: usize = 0;
        assert(same_shape(old_nodes, self.nodes@)) by {
            assert forall|j: int| 0 <= j < n implies #[trigger] self.nodes@[j] == with_total(
                old_nodes[j],
                self.nodes@[j].total_size,
            ) by {}
        }
        while k < child_count
            invariant
                old_nodes.len() == n,
                old(self)@ == old_nodes,
                kids == kids_of(old_nodes),
                w == weights(old_nodes, self.mode),
                i == idx,
                self.mode == m0,
                arena_ok(old_nodes),
                self.root_idx == 0,
                nonneg(w),
                w.len() == kids.len(),
                0 <= i < n,
                child_count == kids[i].len(),
                k <= child_count,
                sub_sum(kids, w, i) <= u64::MAX,
                same_shape(old_nodes, self.nodes@),
                total == w[i] + kids_sum(kids, w, i, k as int),
                forall|j: int|
                    0 <= j < n ==> #[trigger] self.nodes@[j] == (if kids_sum(kids, ind(n, j), i, k as int)
                        > 0 {
                        with_total(old_nodes[j], subtree_size(old_nodes, j, self.mode) as u64)
                    } else {
                        old_nodes[j]
                    }),
            decreases child_count - k,
        {
            let ghost prev = self.nodes@;
            proof {
                lemma_same_shape(old_nodes, prev);
                assert(kids_of(prev)[i] == kids[i]);
            }
            let child = self.nodes[idx].children[k];
            let ghost c = child as int;
            proof {
                assert(kids[i][k as int] == child);
                assert(i < c < n);
                assert(self.nodes@.len() == n);
                lemma_kids_sum_mono(kids, w, i, k as int, (k + 1) as int);
                lemma_kids_sum_mono(kids, w, i, (k + 1) as int, child_count as int);
                lemma_nonneg(kids, w, c);
                assert(sub_sum(kids, w, i) == w[i] + kids_sum(kids, w, i, kids[i].len() as int));
                assert(w[i] >= 0);
            }
            let sub = self.compute_totals(child);
            proof {
                assert(sub as int == sub_sum(kids, w, c));
            }
            total = total + sub;
            k = k + 1;
            proof {
                let cur = self.nodes@;
                assert forall|j: int| 0 <= j < n implies #[trigger] cur[j] == (if kids_sum(
                    kids,
                    ind(n, j),
                    i,
                    k as int,
                ) > 0 {
                    with_total(old_nodes[j], subtree_size(old_nodes, j, self.mode) as u64)
                } else {
                    old_nodes[j]
                }) by {
                    lemma_ind_nonneg(n, j);
                    lemma_kids_sum_mono(kids, ind(n, j), i, (k - 1) as int, (k - 1) as int);
                    lemma_cnt_nonneg(kids, j, c);
                    assert(kids_sum(kids, ind(n, j), i, k as int) == kids_sum(
                        kids,
                        ind(n, j),
                        i,
                        (k - 1) as int,
                    ) + cnt(kids, j, c));
                }
                assert forall|j: int| 0 <= j < n implies #[trigger] cur[j] == with_total(
                    old_nodes[j],
                    cur[j].total_size,
                ) by {}
            }
        }
        let ghost prev = self.nodes@;
        self.nodes[idx].total_size = total;
        proof {
            let cur = self.nodes@;
            let target = recomputed(old_nodes, i, self.mode);
            assert(total == sub_sum(kids, w, i));
            assert forall|j: int| 0 <= j < n implies #[trigger] cur[j] == target[j] by {
                lemma_ind_nonneg(n, j);
                lemma_kids_sum_mono(kids, ind(n, j), i, child_count as int, child_count as int);
                if j == i {
                    assert(reaches(old_nodes, i, i));
                } else {
                    assert(cnt(kids, j, i) == kids_sum(kids, ind(n, j), i, child_count as int));
                }
            }
            assert(cur =~= target);
        }
        total
    }

    /// Flip between apparent and allocated size and recompute every total the
    /// root reaches from the already-captured per-node sizes.
    pub fn toggle_mode(&mut self)
        requires
            old(self).wf(),
            subtree_size(old(self)@, 0, old(self).spec_mode().spec_toggled()) <= u64::MAX,
        ensures
            final(self).wf(),
            final(self).spec_mode() == old(self).spec_mode().spec_toggled(),
            final(self)@ == recomputed(old(self)@, 0, final(self).spec_mode()),
    {
        self.mode = self.mode.toggled();
        let root = self.root_idx;
        self.compute_totals(root);
        proof {
            lemma_recomputed_shape(old(self)@, 0, self.mode);
            lemma_same_shape(old(self)@, self@);
        }
    }

    /// A node's children, largest total first: the order in which they are
    /// listed. Children with equal totals keep the order in which they were
    /// found.
    pub fn children_by_size(&self, idx: usize) -> (r: Vec<usize>)
        requires
            self.wf(),
            idx < self@.len(),
        ensures
            by_size(self@, self@[idx as int].children@, r@),
    {
        broadcast use vstd::seq_lib::group_to_multiset_ensures;

        let children = &self.nodes[idx].children;
        let n = children.len();
        let ghost cs = children@;
        proof {
            assert(kids_of(self@)[idx as int] == cs);
        }
        let mut keys: Vec<u64> = Vec::new();
        let mut pos: Vec<usize> = Vec::new();
        let mut k: usize = 0;
        while k < n
            invariant
                self.wf(),
                idx < self@.len(),
                cs == self@[idx as int].children@,
                children@ == cs,
                n == cs.len(),
                k <= n,
                keys@.len() == k,
                pos@.len() == k,
                forall|t: int| 0 <= t < k ==> #[trigger] pos@[t] == t,
                forall|t: int| 0 <= t < k ==> #[trigger] keys@[t] == self@[cs[t] as int].total_size,
            decreases n - k,
        {
            let c = children[k];
            proof {
                assert(kids_of(self@)[idx as int][k as int] == c);
            }
            keys.push(self.nodes[c].total_size);
            pos.push(k);
            k = k + 1;
        }
        let perm = merge_sort(&keys, &pos);
        proof {
            assert(perm@.to_multiset().len() == pos@.to_multiset().len());
            assert(pos@.no_duplicates());
            pos@.lemma_multiset_has_no_duplicates();
            perm@.lemma_multiset_has_no_duplicates_conv();
        }
        let mut r: Vec<usize> = Vec::new();
        let mut t: usize = 0;
        while t < n
            invariant
                cs == self@[idx as int].children@,
                children@ == cs,
                n == cs.len(),
                perm@.len() == n,
                in_range(keys@, perm@),
                keys@.len() == n,
                t <= n,
                r@.len() == t,
                forall|u: int| 0 <= u < t ==> #[trigger] r@[u] == cs[perm@[u] as int],
            decreases n - t,
        {
            let p = perm[t];
            r.push(children[p]);
            t = t + 1;
        }
        proof {
            let nodes = self@;
            assert(cs.no_duplicates()) by {
                assert(kids_of(nodes)[idx as int] == cs);
            }
            assert forall|i: int| 0 <= i < r@.len() implies cs.contains(#[trigger] r@[i]) by {
                assert(cs[perm@[i] as int] == r@[i]);
            }
            assert forall|i: int, j: int| 0 <= i < r@.len() && 0 <= j < r@.len() && i != j implies r@[i]
                != r@[j] by {
                assert(perm@[i] != perm@[j]);
            }
            assert forall|i: int, j: int, a: int, b: int|
                #![trigger cs[a], cs[b], r@[i], r@[j]]
                0 <= i < j < r@.len() && 0 <= a < cs.len() && 0 <= b < cs.len() && cs[a]
                    == r@[i] && cs[b] == r@[j] implies nodes[r@[i] as int].total_size
                > nodes[r@[j] as int].total_size || (nodes[r@[i] as int].total_size
                == nodes[r@[j] as int].total_size && a < b) by {
                assert(a == perm@[i]);
                assert(b == perm@[j]);
                assert(ranks_before(keys@, perm@[i], perm@[j]));
                assert(perm@[i] != perm@[j]);
            }
        }
        r
    }

    /// The names on the path from the root down to `idx`: the root's name,
    /// then each component below it.
    pub fn path_of(&self, idx: usize) -> (r: Vec<Vec<u8>>)
        requires
            self.wf(),
            idx < self@.len(),
        ensures
            names_of(r@) == path_names(self@, idx as int),
        decreases idx,
    {
        let name = copy_bytes(&self.nodes[idx].name);
        match self.nodes[idx].parent {
            Some(p) => {
                proof {
                    assert(parents_of(self@)[idx as int] == Some(p));
                }
                let mut r = self.path_of(p);
                let ghost before = r@;
                r.push(name);
                proof {
                    assert(names_of(r@) =~= names_of(before).push(name@));
                }
                r
            },
            None => {
                let mut r: Vec<Vec<u8>> = Vec::new();
                r.push(name);
                proof {
                    assert(names_of(r@) =~= seq![name@]);
                }
                r
            },
        }
    }

    /// Drop `idx` from the tree once it is gone from disk: unlink it from its
    /// parent and take its total off every ancestor, so that the totals stay
    /// right without a rescan. The node itself stays in the arena,
    /// unreferenced: indices elsewhere remain valid.
    pub fn delete(&mut self, idx: usize)
        requires
            old(self).wf(),
            idx < old(self)@.len(),
        ensures
            final(self).wf(),
            final(self).spec_mode() == old(self).spec_mode(),
            detached(old(self)@, final(self)@, idx),
            totals_fit(old(self)@) ==> totals_fit(final(self)@),
            old(self).consistent() && reaches(old(self)@, 0, idx as int) ==> final(self).consistent(),
    {
        let ghost a = self.nodes@;
        let ghost ps = parents_of(a);
        let freed = self.nodes[idx].total_size;
        match self.nodes[idx].parent {
            None => {},
            Some(parent) => {
                proof {
                    assert(ps[idx as int] == Some(parent));
                }
                let kept = without_vec(&self.nodes[parent].children, idx);
                self.nodes[parent].children = kept;
                let mut cur: Option<usize> = Some(parent);
                let ghost p = parent as int;
                while cur.is_some()
                    invariant
                        arena_ok(a),
                        ps == parents_of(a),
                        0 <= p < a.len(),
                        a[idx as int].parent == Some(p as usize),
                        freed == a[idx as int].total_size,
                        self.root_idx == 0,
                        self.mode == old(self).mode,
                        self.nodes@.len() == a.len(),
                        cur matches Some(i) ==> 0 <= i < a.len() && anc(ps, i as int, p),
                        forall|j: int|
                            0 <= j < a.len() ==> {
                                &&& (#[trigger] self.nodes@[j]).name == a[j].name
                                &&& self.nodes@[j].own_apparent == a[j].own_apparent
                                &&& self.nodes@[j].own_allocated == a[j].own_allocated
                                &&& self.nodes@[j].parent == a[j].parent
                                &&& self.nodes@[j].children@ == if j == p {
                                    without(a[j].children@, idx)
                                } else {
                                    a[j].children@
                                }
                                &&& self.nodes@[j].total_size == if anc(ps, j, p) && match cur {
                                    Some(i) => !anc(ps, j, i as int),
                                    None => true,
                                } {
                                    sat_sub(a[j].total_size, freed)
                                } else {
                                    a[j].total_size
                                }
                            },
                    decreases match cur {
                        Some(i) => i as int + 1,
                        None => 0,
                    },
                {
                    let i = cur.unwrap();
                    let ghost before = self.nodes@;
                    let t = self.nodes[i].total_size;
                    self.nodes[i].total_size = t.saturating_sub(freed);
                    let next = self.nodes[i].parent;
                    proof {
                        assert(ps[i as int] == a[i as int].parent);
                        assert(next == a[i as int].parent);
                        if let Some(q) = next {
                            assert(q < i);
                            assert(anc(ps, q as int, q as int));
                            assert(anc(ps, q as int, i as int));
                            crate::model::lemma_anc_trans(ps, q as int, i as int, p);
                        }
                        assert(t == a[i as int].total_size);
                        let cur2 = next;
                        assert forall|j: int| 0 <= j < a.len() implies {
                            &&& (#[trigger] self.nodes@[j]).name == a[j].name
                            &&& self.nodes@[j].own_apparent == a[j].own_apparent
                            &&& self.nodes@[j].own_allocated == a[j].own_allocated
                            &&& self.nodes@[j].parent == a[j].parent
                            &&& self.nodes@[j].children@ == if j == p {
                                without(a[j].children@, idx)
                            } else {
                                a[j].children@
                            }
                            &&& self.nodes@[j].total_size == if anc(ps, j, p) && match cur2 {
                                Some(q) => !anc(ps, j, q as int),
                                None => true,
                            } {
                                sat_sub(a[j].total_size, freed)
                            } else {
                                a[j].total_size
                            }
                        } by {
                            assert(before[j].name == a[j].name);
                            if j == i {
                                if let Some(q) = cur2 {
                                    if anc(ps, j, q as int) {
                                        lemma_anc_le(ps, j, q as int);
                                    }
                                }
                            } else {
                                assert(self.nodes@[j] == before[j]);
                                if anc(ps, j, p) {
                                    if anc(ps, j, i as int) {
                                        assert(anc(ps, j, ps[i as int].unwrap() as int));
                                    } else if let Some(q) = cur2 {
                                        if anc(ps, j, q as int) {
                                            crate::model::lemma_anc_trans(ps, j, q as int, i as int);
                                        }
                                    }
                                }
                            }
                        }
                    }
                    cur = next;
                }
                proof {
                    assert(detached(a, self.nodes@, idx));
                }
            },
        }
        proof {
            if a[idx as int].parent is None {
                assert(self.nodes@ =~= a) by {
                    assert forall|j: int| 0 <= j < a.len() implies #[trigger] self.nodes@[j] == a[j] by {}
                }
            }
            assert(detached(a, self.nodes@, idx));
            lemma_detach_keeps_totals(a, self.nodes@, idx, self.mode);
        }
    }
}

/// A copy of a byte string.
pub(crate) fn copy_bytes(v: &Vec<u8>) -> (r: Vec<u8>)
    ensures
        r@ == v@,
{
    let mut r: Vec<u8> = Vec::new();
    let mut i: usize = 0;
    while i < v.len()
        invariant
            i <= v.len(),
            r@ == v@.take(i as int),
        decreases v.len() - i,
    {
        r.push(v[i]);
        i = i + 1;
        assert(r@ =~= v@.take(i as int));
    }
    assert(v@.take(v.len() as int) =~= v@);
    r
}

/// `v` without any occurrence of `c`, in order.
fn without_vec(v: &Vec<usize>, c: usize) -> (r: Vec<usize>)
    ensures
        r@ == without(v@, c),
{
    let mut r: Vec<usize> = Vec::new();
    let mut i: usize = 0;
    assert(v@.take(0) =~= Seq::<usize>::empty());
    proof {
        reveal_with_fuel(Seq::filter, 1);
    }
    while i < v.len()
        invariant
            i <= v.len(),
            r@ == without(v@.take(i as int), c),
        decreases v.len() - i,
    {
        let x = v[i];
        proof {
            assert(v@.take(i + 1) =~= v@.take(i as int).push(x));
            lemma_without_push(v@.take(i as int), x, c);
        }
        if x != c {
            r.push(x);
        }
        i = i + 1;
    }
    assert(v@.take(v.len() as int) =~= v@);
    r
}

/// Recomputing totals changes nothing but totals.
pub proof fn lemma_recomputed_shape(nodes: Seq<Node>, from: int, mode: SizeMode)
    ensures
        same_shape(nodes, recomputed(nodes, from, mode)),
{
    let r = recomputed(nodes, from, mode);
    assert forall|j: int| 0 <= j < nodes.len() implies #[trigger] r[j] == with_total(
        nodes[j],
        r[j].total_size,
    ) by {}
}

} // verus!
