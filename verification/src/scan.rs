//! Building a [`Tree`] from the entries of a filesystem walk, one record at
//! a time, with hard links counted once.
use vstd::prelude::*;
use std::collections::{HashMap, HashSet};
use crate::mode::SizeMode;
use crate::model::{attached, lemma_add_leaf, lemma_anc_reach, lemma_weight_change};
use crate::tree::{
    reaches, copy_bytes, arena_ok, kids_of, lemma_recomputed_shape, lemma_rooted, lemma_same_shape, lemma_weights_nonneg,
    parents_of, path_names, recomputed, subtree_size, totals_fit, weights, with_total,
    Node, Tree,
};

verus! {

/// A running snapshot of scan progress.
#[derive(Clone, Copy, Debug)]
pub struct Progress {
    /// Entries seen so far (files and directories).
    pub entries: u64,
    /// Deduplicated bytes counted so far, in the scan's mode.
    pub bytes: u64,
}

impl Default for Progress {
    fn default() -> (p: Progress)
        ensures
            p.entries == 0,
            p.bytes == 0,
    {
        Progress { entries: 0, bytes: 0 }
    }
}

/// What the walk learned about a regular file.
#[derive(Clone, Copy, Debug)]
pub struct FileInfo {
    /// Device of the file system holding the file.
    pub dev: u64,
    /// Inode number on that device.
    pub ino: u64,
    /// Logical size in bytes.
    pub apparent: u64,
    /// Allocated size in bytes.
    pub allocated: u64,
}

pub open spec fn file_size(f: FileInfo, mode: SizeMode) -> u64 {
    match mode {
        SizeMode::Apparent => f.apparent,
        SizeMode::Allocated => f.allocated,
    }
}

/// One step of the name hash.
pub open spec fn mix(h: u64, b: u8) -> u64 {
    h.wrapping_mul(0x100000001b3).wrapping_add(b as u64).wrapping_add(1)
}

pub open spec fn fold_bytes(h: u64, s: Seq<u8>) -> u64
    decreases s.len(),
{
    if s.len() == 0 {
        h
    } else {
        mix(fold_bytes(h, s.drop_last()), s.last())
    }
}

/// The index key of a child called `name` under `parent`.
pub open spec fn name_key(parent: usize, name: Seq<u8>) -> u64 {
    fold_bytes(parent as u64, name)
}

pub open spec fn node_key(nodes: Seq<Node>, j: int) -> u64 {
    name_key(nodes[j].parent.unwrap(), nodes[j].name@)
}

/// No two nodes under the same parent share a name.
pub open spec fn siblings_unique(nodes: Seq<Node>) -> bool {
    forall|i: int, j: int|
        1 <= i < nodes.len() && 1 <= j < nodes.len() && i != j && (#[trigger] nodes[i]).parent == (
        #[trigger] nodes[j]).parent ==> nodes[i].name@ != nodes[j].name@
}

/// `heads` maps each key to the newest node with that key, and `chain` links
/// every node to the next older node with the same key.
pub open spec fn index_ok(nodes: Seq<Node>, heads: Map<u64, usize>, chain: Seq<Option<usize>>) -> bool {
    &&& chain.len() == nodes.len()
    &&& forall|j: int|
        1 <= j < nodes.len() ==> match #[trigger] chain[j] {
            Some(k) => 1 <= k < j && node_key(nodes, k as int) == node_key(nodes, j) && forall|m: int|
                k < m < j ==> #[trigger] node_key(nodes, m) != node_key(nodes, j),
            None => forall|m: int| 1 <= m < j ==> #[trigger] node_key(nodes, m) != node_key(nodes, j),
        }
    &&& forall|j: int| 1 <= j < nodes.len() ==> heads.contains_key(#[trigger] node_key(nodes, j))
    &&& forall|h: u64|
        #[trigger] heads.contains_key(h) ==> 1 <= heads[h] < nodes.len() && node_key(nodes, heads[h] as int)
            == h && forall|m: int| heads[h] < m < nodes.len() ==> #[trigger] node_key(nodes, m) != h
}

/// The names of the first `n` nodes and their parent links agree.
pub open spec fn same_prefix(a: Seq<Node>, b: Seq<Node>, n: int) -> bool {
    forall|j: int|
        0 <= j < n ==> (#[trigger] b[j]).name == a[j].name && b[j].parent == a[j].parent && b[j].own_apparent
            == a[j].own_apparent && b[j].own_allocated == a[j].own_allocated && b[j].total_size
            == a[j].total_size
}

/// A pair (device, inode) as one 128-bit key.
pub open spec fn file_id(dev: u64, ino: u64) -> u128 {
    (dev as int * 0x1_0000_0000_0000_0000 + ino as int) as u128
}

proof fn lemma_file_id(d1: u64, i1: u64, d2: u64, i2: u64)
    ensures
        d1 as int * 0x1_0000_0000_0000_0000 + i1 as int <= u128::MAX,
        file_id(d1, i1) == file_id(d2, i2) ==> d1 == d2 && i1 == i2,
{
    let b: int = 0x1_0000_0000_0000_0000;
    assert(d1 as int * b + i1 as int <= u128::MAX) by (nonlinear_arith)
        requires
            0 <= d1 < b,
            0 <= i1 < b,
            b == 0x1_0000_0000_0000_0000int,
    ;
    assert(d2 as int * b + i2 as int <= u128::MAX) by (nonlinear_arith)
        requires
            0 <= d2 < b,
            0 <= i2 < b,
            b == 0x1_0000_0000_0000_0000int,
    ;
    if file_id(d1, i1) == file_id(d2, i2) {
        assert(d1 == d2 && i1 == i2) by (nonlinear_arith)
            requires
                d1 as int * b + i1 as int == d2 as int * b + i2 as int,
                0 <= i1 < b,
                0 <= i2 < b,
                b > 0,
        ;
    }
}

/// The root's path is its name alone; every other path ends with the node's
/// own name after its parent's path.
pub proof fn lemma_path_shape(nodes: Seq<Node>, j: int)
    requires
        arena_ok(nodes),
        0 <= j < nodes.len(),
    ensures
        path_names(nodes, j).len() >= 1,
        path_names(nodes, j).last() == nodes[j].name@,
        j == 0 <==> path_names(nodes, j).len() == 1,
        j != 0 ==> path_names(nodes, j).drop_last() == path_names(nodes, nodes[j].parent.unwrap() as int),
    decreases j,
{
    let ps = parents_of(nodes);
    assert(ps[j] == nodes[j].parent);
    if j != 0 {
        let p = nodes[j].parent.unwrap() as int;
        lemma_path_shape(nodes, p);
        assert(path_names(nodes, j).drop_last() =~= path_names(nodes, p));
    }
}

/// Under unique sibling names, a path names exactly one node.
pub proof fn lemma_path_injective(nodes: Seq<Node>, x: int, y: int)
    requires
        arena_ok(nodes),
        siblings_unique(nodes),
        0 <= x < nodes.len(),
        0 <= y < nodes.len(),
        path_names(nodes, x) == path_names(nodes, y),
    ensures
        x == y,
    decreases x + y,
{
    lemma_path_shape(nodes, x);
    lemma_path_shape(nodes, y);
    if x != 0 && y != 0 {
        let px = nodes[x].parent.unwrap() as int;
        let py = nodes[y].parent.unwrap() as int;
        let ps = parents_of(nodes);
        assert(ps[x] == nodes[x].parent);
        assert(ps[y] == nodes[y].parent);
        lemma_path_injective(nodes, px, py);
        assert(nodes[x].name@ == nodes[y].name@);
    }
}

/// Every prefix of a node's path is the path of one of its ancestors.
pub proof fn lemma_path_prefix(nodes: Seq<Node>, j: int, d: int) -> (a: int)
    requires
        arena_ok(nodes),
        0 <= j < nodes.len(),
        0 <= d < path_names(nodes, j).len(),
    ensures
        0 <= a <= j,
        path_names(nodes, a) == path_names(nodes, j).take(d + 1),
    decreases j,
{
    lemma_path_shape(nodes, j);
    if d == path_names(nodes, j).len() - 1 {
        assert(path_names(nodes, j).take(d + 1) =~= path_names(nodes, j));
        j
    } else {
        let p = nodes[j].parent.unwrap() as int;
        let ps = parents_of(nodes);
        assert(ps[j] == nodes[j].parent);
        let a = lemma_path_prefix(nodes, p, d);
        assert(path_names(nodes, j).take(d + 1) =~= path_names(nodes, p).take(d + 1));
        a
    }
}

/// The names and parent links of the first `n` nodes agree.
pub open spec fn same_links(a: Seq<Node>, b: Seq<Node>, n: int) -> bool {
    forall|j: int| 0 <= j < n ==> (#[trigger] b[j]).name == a[j].name && b[j].parent == a[j].parent
}

/// Paths only read names and parent links, so they survive appending nodes.
pub proof fn lemma_path_frame(a: Seq<Node>, b: Seq<Node>, n: int, x: int)
    requires
        n <= a.len(),
        n <= b.len(),
        same_links(a, b, n),
        0 <= x < n,
    ensures
        path_names(b, x) == path_names(a, x),
    decreases x,
{
    assert(b[x].name == a[x].name && b[x].parent == a[x].parent);
    if a[x].parent is Some && a[x].parent.unwrap() < x {
        lemma_path_frame(a, b, n, a[x].parent.unwrap() as int);
    }
}

/// The path that a record names: the root, then each component.
pub open spec fn target_path(root_name: Seq<u8>, comps: Seq<Vec<u8>>) -> Seq<Seq<u8>> {
    seq![root_name] + comps.map_values(|v: Vec<u8>| v@)
}

/// `p` is one of the paths from the root down to `target`: a nonempty
/// prefix of it.
pub open spec fn prefix_of(p: Seq<Seq<u8>>, target: Seq<Seq<u8>>) -> bool {
    1 <= p.len() <= target.len() && p == target.take(p.len() as int)
}

/// The first `upto` prefixes of `target` each name a node.
pub open spec fn prefixes_present(nodes: Seq<Node>, target: Seq<Seq<u8>>, upto: int) -> bool {
    forall|d: int|
        #![trigger target.take(d + 1)]
        0 <= d < upto ==> exists|j: int| 0 <= j < nodes.len() && #[trigger] path_names(nodes, j) == target.take(d + 1)
}

/// `new` is `old` with nodes appended for prefixes of `target`, one below the
/// other: the first hangs under an old node and is appended to its children;
/// each further one is the only child of the one before; the last has no
/// children. New nodes start with total 0. Old nodes keep names, parents and
/// totals, and no other children list changes.
pub open spec fn grown_part(old: Seq<Node>, new: Seq<Node>, target: Seq<Seq<u8>>) -> bool {
    let n0 = old.len() as int;
    &&& n0 <= new.len()
    &&& forall|j: int|
        0 <= j < n0 ==> {
            &&& (#[trigger] new[j]).name == old[j].name
            &&& new[j].parent == old[j].parent
            &&& new[j].total_size == old[j].total_size
            &&& new[j].children@ == if n0 < new.len() && new[n0].parent is Some && new[n0].parent.unwrap()
                as int == j {
                old[j].children@.push(n0 as usize)
            } else {
                old[j].children@
            }
        }
    &&& forall|k: int|
        n0 <= k < new.len() ==> {
            &&& (#[trigger] new[k]).total_size == 0
            &&& new[k].children@.len() == if k + 1 < new.len() {
                1int
            } else {
                0int
            }
            &&& k + 1 < new.len() ==> new[k].children@[0] as int == k + 1
            &&& new[k].parent is Some
            &&& if k == n0 {
                new[k].parent.unwrap() < n0
            } else {
                new[k].parent.unwrap() as int == k - 1
            }
            &&& prefix_of(path_names(new, k), target)
        }
}

/// `new` is `old` after interning `target`: grown by nodes for the prefixes
/// of `target` that had none, so that every prefix now names a node; when
/// `target` already named one, nothing was added.
pub open spec fn grown(old: Seq<Node>, new: Seq<Node>, target: Seq<Seq<u8>>) -> bool {
    &&& grown_part(old, new, target)
    &&& prefixes_present(new, target, target.len() as int)
    &&& (exists|j: int| 0 <= j < old.len() && path_names(old, j) == target) ==> new.len() == old.len()
}

/// Folds walk records into a tree. Each record is a path below the root,
/// given as its components, plus, for a regular file, its identity and sizes.
pub struct Scan {
    tree: Tree,
    heads: HashMap<u64, usize>,
    chain: Vec<Option<usize>>,
    seen: HashSet<u128>,
    progress: Progress,
    bytes_apparent: u64,
    bytes_allocated: u64,
    exact: Ghost<bool>,
}

impl Scan {
    pub closed spec fn spec_tree(&self) -> Tree {
        self.tree
    }

    pub closed spec fn spec_progress(&self) -> Progress {
        self.progress
    }

    /// Deduplicated bytes recorded so far under `mode`.
    pub closed spec fn spec_bytes(&self, mode: SizeMode) -> u64 {
        match mode {
            SizeMode::Apparent => self.bytes_apparent,
            SizeMode::Allocated => self.bytes_allocated,
        }
    }

    /// The (device, inode) pairs counted so far.
    pub closed spec fn spec_seen(&self) -> Set<(u64, u64)> {
        Set::new(|p: (u64, u64)| self.seen@.contains(file_id(p.0, p.1)))
    }

    /// No file's sizes have been recorded twice.
    pub closed spec fn spec_exact(&self) -> bool {
        self.exact@
    }

    pub closed spec fn wf(&self) -> bool {
        let nodes = self.tree@;
        &&& self.tree.wf()
        &&& attached(kids_of(nodes), parents_of(nodes))
        &&& siblings_unique(nodes)
        &&& index_ok(nodes, self.heads@, self.chain@)
        &&& nodes.len() < usize::MAX
        &&& self.progress.bytes == self.spec_bytes(self.tree.spec_mode())
        &&& subtree_size(nodes, 0, SizeMode::Apparent) <= self.bytes_apparent
        &&& subtree_size(nodes, 0, SizeMode::Allocated) <= self.bytes_allocated
        &&& self.exact@ ==> subtree_size(nodes, 0, SizeMode::Apparent) == self.bytes_apparent
            && subtree_size(nodes, 0, SizeMode::Allocated) == self.bytes_allocated
    }

    /// A scan that so far knows only the root, called `root_name`.
    pub fn new(root_name: Vec<u8>, mode: SizeMode) -> (s: Scan)
        ensures
            s.wf(),
            s.spec_tree()@.len() == 1,
            s.spec_tree()@[0].name@ == root_name@,
            s.spec_tree()@[0].parent is None,
            s.spec_tree()@[0].children@.len() == 0,
            s.spec_tree()@[0].own_apparent == 0,
            s.spec_tree()@[0].own_allocated == 0,
            s.spec_tree().spec_mode() == mode,
            s.spec_progress().entries == 0,
            s.spec_progress().bytes == 0,
            s.spec_bytes(SizeMode::Apparent) == 0,
            s.spec_bytes(SizeMode::Allocated) == 0,
            s.spec_seen() == Set::<(u64, u64)>::empty(),
            s.spec_exact(),
    {
        broadcast use vstd::std_specs::hash::group_hash_axioms;

        let tree = Tree::with_root(root_name, mode);
        let mut chain: Vec<Option<usize>> = Vec::new();
        chain.push(None);
        let s = Scan {
            tree,
            heads: HashMap::new(),
            chain,
            seen: HashSet::new(),
            progress: Progress::default(),
            bytes_apparent: 0,
            bytes_allocated: 0,
            exact: Ghost(true),
        };
        proof {
            let ns = s.tree@;
            assert(kids_of(ns)[0] == ns[0].children@);
            assert(s.spec_seen() =~= Set::<(u64, u64)>::empty());
            let w = weights(ns, SizeMode::Apparent);
            crate::model::lemma_unfold(kids_of(ns), w, 0);
            let w2 = weights(ns, SizeMode::Allocated);
            crate::model::lemma_unfold(kids_of(ns), w2, 0);
            assert(attached(kids_of(ns), parents_of(ns))) by {
                assert(parents_of(ns)[0] is None);
            }
        }
        s
    }

    /// The tree built so far.
    pub fn tree(&self) -> (t: &Tree)
        ensures
            *t == self.spec_tree(),
    {
        &self.tree
    }

    /// Progress so far.
    pub fn progress(&self) -> (p: Progress)
        ensures
            p == self.spec_progress(),
    {
        self.progress
    }

    /// Whether a file with this (device, inode) was already counted.
    pub fn has_seen(&self, dev: u64, ino: u64) -> (b: bool)
        ensures
            b == self.spec_seen().contains((dev, ino)),
    {
        broadcast use vstd::std_specs::hash::group_hash_axioms;

        proof {
            lemma_file_id(dev, ino, dev, ino);
        }
        let id: u128 = (dev as u128) * 0x1_0000_0000_0000_0000u128 + (ino as u128);
        self.seen.contains(&id)
    }

    /// Deduplicated bytes recorded so far under `mode`.
    pub fn bytes(&self, mode: SizeMode) -> (b: u64)
        ensures
            b == self.spec_bytes(mode),
    {
        match mode {
            SizeMode::Apparent => self.bytes_apparent,
            SizeMode::Allocated => self.bytes_allocated,
        }
    }

    fn key_of(parent: usize, name: &Vec<u8>) -> (h: u64)
        ensures
            h == name_key(parent, name@),
    {
        let mut h: u64 = parent as u64;
        let mut i: usize = 0;
        assert(name@.take(0) =~= Seq::<u8>::empty());
        while i < name.len()
            invariant
                i <= name.len(),
                h == fold_bytes(parent as u64, name@.take(i as int)),
            decreases name.len() - i,
        {
            let b = name[i];
            assert(name@.take(i + 1).drop_last() =~= name@.take(i as int));
            h = h.wrapping_mul(0x100000001b3).wrapping_add(b as u64).wrapping_add(1);
            i = i + 1;
        }
        assert(name@.take(name.len() as int) =~= name@);
        h
    }

    /// The child of `parent` called `name`, if there is one.
    fn find_child(&self, parent: usize, name: &Vec<u8>) -> (r: Option<usize>)
        requires
            self.wf(),
            parent < self.tree@.len(),
        ensures
            match r {
                Some(j) => 1 <= j < self.tree@.len() && self.tree@[j as int].parent == Some(parent)
                    && self.tree@[j as int].name@ == name@,
                None => forall|j: int|
                    1 <= j < self.tree@.len() ==> !((#[trigger] self.tree@[j]).parent == Some(parent)
                        && self.tree@[j].name@ == name@),
            },
    {
        broadcast use vstd::std_specs::hash::group_hash_axioms;

        let ghost nodes = self.tree@;
        let h = Self::key_of(parent, name);
        let mut cur: Option<usize> = match self.heads.get(&h) {
            Some(j) => Some(*j),
            None => None,
        };
        proof {
            assert forall|j: int|
                1 <= j < nodes.len() && (#[trigger] nodes[j]).parent == Some(parent) && nodes[j].name@
                    == name@ implies node_key(nodes, j) == h && self.heads@.contains_key(h) by {
                assert(node_key(nodes, j) == h);
            }
        }
        let all = self.tree.nodes();
        while cur.is_some()
            invariant
                index_ok(nodes, self.heads@, self.chain@),
                nodes == self.tree@,
                all@ == nodes,
                h == name_key(parent, name@),
                match cur {
                    Some(c) => 1 <= c < nodes.len() && node_key(nodes, c as int) == h,
                    None => true,
                },
                forall|j: int|
                    1 <= j < nodes.len() && (#[trigger] nodes[j]).parent == Some(parent) && nodes[j].name@
                        == name@ ==> match cur {
                        Some(c) => j <= c,
                        None => false,
                    },
            decreases match cur {
                Some(c) => c as int + 1,
                None => 0,
            },
        {
            let c = cur.unwrap();
            let node = &all[c];
            if node.parent == Some(parent) && bytes_eq(&node.name, name) {
                return Some(c);
            }
            let next = self.chain[c];
            proof {
                assert forall|j: int|
                    1 <= j < nodes.len() && (#[trigger] nodes[j]).parent == Some(parent) && nodes[j].name@
                        == name@ implies match next {
                    Some(c2) => j <= c2,
                    None => false,
                } by {
                    assert(node_key(nodes, j) == h);
                    assert(j != c);
                    match next {
                        Some(c2) => {
                            if c2 < j && j < c {
                                assert(node_key(nodes, j) != node_key(nodes, c as int));
                            }
                        },
                        None => {
                            if j < c {
                                assert(node_key(nodes, j) != node_key(nodes, c as int));
                            }
                        },
                    }
                }
            }
            cur = next;
        }
        None
    }
}

impl Scan {
    /// Append a node called `name` under `parent`, which has no child of that name.
    fn add_child(&mut self, parent: usize, name: Vec<u8>) -> (idx: usize)
        requires
            old(self).wf(),
            parent < old(self).spec_tree()@.len(),
            old(self).spec_tree()@.len() + 1 < usize::MAX,
            forall|j: int|
                1 <= j < old(self).spec_tree()@.len() ==> !((#[trigger] old(self).spec_tree()@[j]).parent
                    == Some(parent) && old(self).spec_tree()@[j].name@ == name@),
        ensures
            final(self).wf(),
            idx == old(self).spec_tree()@.len(),
            final(self).spec_tree()@.len() == old(self).spec_tree()@.len() + 1,
            same_prefix(old(self).spec_tree()@, final(self).spec_tree()@, old(self).spec_tree()@.len() as int),
            final(self).spec_tree()@[idx as int].own_apparent == 0,
            final(self).spec_tree()@[idx as int].own_allocated == 0,
            final(self).spec_tree()@[idx as int].total_size == 0,
            final(self).spec_tree()@[idx as int].children@.len() == 0,
            final(self).spec_tree()@[idx as int].parent == Some(parent),
            forall|j: int|
                0 <= j < old(self).spec_tree()@.len() ==> (#[trigger] final(self).spec_tree()@[j]).children@
                    == if j == parent {
                    old(self).spec_tree()@[j].children@.push(idx)
                } else {
                    old(self).spec_tree()@[j].children@
                },
            path_names(final(self).spec_tree()@, idx as int) == path_names(
                old(self).spec_tree()@,
                parent as int,
            ).push(name@),
            forall|m: SizeMode| #[trigger]
                subtree_size(final(self).spec_tree()@, 0, m) == subtree_size(old(self).spec_tree()@, 0, m),
            final(self).spec_tree().spec_mode() == old(self).spec_tree().spec_mode(),
            final(self).spec_progress() == old(self).spec_progress(),
            final(self).spec_bytes(SizeMode::Apparent) == old(self).spec_bytes(SizeMode::Apparent),
            final(self).spec_bytes(SizeMode::Allocated) == old(self).spec_bytes(SizeMode::Allocated),
            final(self).spec_seen() == old(self).spec_seen(),
            final(self).spec_exact() == old(self).spec_exact(),
    {
        broadcast use vstd::std_specs::hash::group_hash_axioms;

        let ghost a = self.tree@;
        let ghost n = a.len() as int;
        let h = Self::key_of(parent, &name);
        let prev: Option<usize> = match self.heads.get(&h) {
            Some(j) => Some(*j),
            None => None,
        };
        let ghost old_heads = self.heads@;
        let ghost old_chain = self.chain@;
        let idx = self.tree.push_child(parent, name);
        self.chain.push(prev);
        self.heads.insert(h, idx);
        proof {
            let b = self.tree@;
            assert forall|j: int| 0 <= j < n implies node_key(b, j) == node_key(a, j) by {
                assert(b[j].name == a[j].name && b[j].parent == a[j].parent);
            }
            assert(node_key(b, n) == h);
            // index
            assert forall|j: int| 1 <= j < b.len() implies match #[trigger] self.chain@[j] {
                Some(k) => 1 <= k < j && node_key(b, k as int) == node_key(b, j) && forall|m: int|
                    k < m < j ==> #[trigger] node_key(b, m) != node_key(b, j),
                None => forall|m: int| 1 <= m < j ==> #[trigger] node_key(b, m) != node_key(b, j),
            } by {
                if j < n {
                    assert(self.chain@[j] == old_chain[j]);
                } else {
                    match prev {
                        Some(k) => {
                            assert(old_heads.contains_key(h) && old_heads[h] == k);
                        },
                        None => {
                            assert forall|m: int| 1 <= m < j implies #[trigger] node_key(b, m) != node_key(
                                b,
                                j,
                            ) by {
                                assert(old_heads.contains_key(node_key(a, m)));
                            }
                        },
                    }
                }
            }
            assert forall|j: int| 1 <= j < b.len() implies self.heads@.contains_key(
                #[trigger] node_key(b, j),
            ) by {
                if j < n {
                    assert(old_heads.contains_key(node_key(a, j)));
                }
            }
            assert forall|h2: u64| #[trigger] self.heads@.contains_key(h2) implies 1 <= self.heads@[h2]
                < b.len() && node_key(b, self.heads@[h2] as int) == h2 && forall|m: int|
                self.heads@[h2] < m < b.len() ==> #[trigger] node_key(b, m) != h2 by {
                if h2 != h {
                    assert(old_heads.contains_key(h2));
                }
            }
            assert(index_ok(b, self.heads@, self.chain@));
            // siblings
            assert forall|i: int, j: int|
                1 <= i < b.len() && 1 <= j < b.len() && i != j && (#[trigger] b[i]).parent == (
                #[trigger] b[j]).parent implies b[i].name@ != b[j].name@ by {
                if i < n && j < n {
                    assert(a[i].parent == b[i].parent && a[j].parent == b[j].parent);
                    assert(a[i].name == b[i].name && a[j].name == b[j].name);
                } else if i < n {
                    assert(a[i].parent == b[i].parent && a[i].name == b[i].name);
                } else {
                    assert(a[j].parent == b[j].parent && a[j].name == b[j].name);
                }
            }
            // attachment and subtree sums
            let ka = kids_of(a);
            let kb = kids_of(b);
            let p = parent as int;
            assert(kb =~= ka.update(p, ka[p].push(n as usize)).push(Seq::<usize>::empty())) by {
                assert forall|j: int| 0 <= j < kb.len() implies #[trigger] kb[j] == ka.update(
                    p,
                    ka[p].push(n as usize),
                ).push(Seq::<usize>::empty())[j] by {
                    if j == n {
                        assert(kb[j] =~= Seq::<usize>::empty());
                    }
                }
            }
            assert forall|j: int|
                0 <= j < parents_of(b).len() && (#[trigger] parents_of(b)[j]) is Some implies exists|m: int|
                0 <= m < kb[parents_of(b)[j].unwrap() as int].len() && kb[parents_of(
                    b,
                )[j].unwrap() as int][m] as int == j by {
                if j < n {
                    assert(parents_of(a)[j] == a[j].parent);
                    let q = a[j].parent.unwrap() as int;
                    let m = choose|m: int| 0 <= m < ka[q].len() && ka[q][m] as int == j;
                    assert(kb[q][m] == ka[q][m]);
                } else {
                    assert(kb[p][ka[p].len() as int] == n);
                }
            }
            assert forall|m: SizeMode| #[trigger] subtree_size(b, 0, m) == subtree_size(a, 0, m) by {
                let wa = weights(a, m);
                let wb = weights(b, m);
                lemma_add_leaf(ka, wa, kb, wb, p, 0);
            }
            lemma_path_frame(a, b, n, p);
            assert(parents_of(b)[n] == b[n].parent);
            assert(self.spec_seen() =~= old(self).spec_seen());
        }
        idx
    }

    /// The node for the path `comps` below the root, created together with
    /// any missing ancestors on first sight. Order-independent: a path that
    /// already has a node gets that node, and nothing changes.
    #[verifier::rlimit(60)]
    fn intern(&mut self, comps: &Vec<Vec<u8>>) -> (idx: usize)
        requires
            old(self).wf(),
            old(self).spec_tree()@.len() + comps.len() + 1 < usize::MAX,
        ensures
            final(self).wf(),
            idx < final(self).spec_tree()@.len(),
            path_names(final(self).spec_tree()@, idx as int) == target_path(
                old(self).spec_tree()@[0].name@,
                comps@,
            ),
            old(self).spec_tree()@.len() <= final(self).spec_tree()@.len() <= old(self).spec_tree()@.len()
                + comps.len(),
            same_prefix(old(self).spec_tree()@, final(self).spec_tree()@, old(self).spec_tree()@.len() as int),
            grown(
                old(self).spec_tree()@,
                final(self).spec_tree()@,
                target_path(old(self).spec_tree()@[0].name@, comps@),
            ),
            forall|j: int|
                old(self).spec_tree()@.len() <= j < final(self).spec_tree()@.len() ==> (#[trigger] final(self).spec_tree()@[j]).own_apparent == 0 && final(self).spec_tree()@[j].own_allocated == 0,
            forall|m: SizeMode| #[trigger]
                subtree_size(final(self).spec_tree()@, 0, m) == subtree_size(old(self).spec_tree()@, 0, m),
            forall|j: int|
                0 <= j < old(self).spec_tree()@.len() && path_names(old(self).spec_tree()@, j) == target_path(
                    old(self).spec_tree()@[0].name@,
                    comps@,
                ) ==> idx == j && final(self).spec_tree()@.len() == old(self).spec_tree()@.len(),
            final(self).spec_tree().spec_mode() == old(self).spec_tree().spec_mode(),
            final(self).spec_progress() == old(self).spec_progress(),
            final(self).spec_bytes(SizeMode::Apparent) == old(self).spec_bytes(SizeMode::Apparent),
            final(self).spec_bytes(SizeMode::Allocated) == old(self).spec_bytes(SizeMode::Allocated),
            final(self).spec_seen() == old(self).spec_seen(),
            final(self).spec_exact() == old(self).spec_exact(),
    {
        let ghost a = self.tree@;
        let ghost target = target_path(a[0].name@, comps@);
        let ghost ex = exists|j: int| 0 <= j < a.len() && path_names(a, j) == target;
        let mut cur: usize = 0;
        let mut k: usize = 0;
        proof {
            lemma_path_shape(a, 0);
            assert(target.take(1) =~= seq![a[0].name@]);
            assert(path_names(a, 0) =~= seq![a[0].name@]);
        }
        while k < comps.len()
            invariant
                self.wf(),
                a == old(self).spec_tree()@,
                target == target_path(a[0].name@, comps@),
                ex == exists|j: int| 0 <= j < a.len() && path_names(a, j) == target,
                k <= comps.len(),
                cur < self.spec_tree()@.len(),
                path_names(self.spec_tree()@, cur as int) == target.take(k + 1),
                a.len() <= self.spec_tree()@.len() <= a.len() + k,
                a.len() + comps.len() + 1 < usize::MAX,
                same_prefix(a, self.spec_tree()@, a.len() as int),
                grown_part(a, self.spec_tree()@, target),
                prefixes_present(self.spec_tree()@, target, k + 1),
                self.spec_tree()@.len() > a.len() ==> cur == self.spec_tree()@.len() - 1,
                forall|j: int|
                    a.len() <= j < self.spec_tree()@.len() ==> (#[trigger] self.spec_tree()@[j]).own_apparent
                        == 0 && self.spec_tree()@[j].own_allocated == 0,
                forall|m: SizeMode| #[trigger] subtree_size(self.spec_tree()@, 0, m) == subtree_size(a, 0, m),
                ex ==> self.spec_tree()@.len() == a.len(),
                self.spec_tree().spec_mode() == old(self).spec_tree().spec_mode(),
                self.spec_progress() == old(self).spec_progress(),
                self.spec_bytes(SizeMode::Apparent) == old(self).spec_bytes(SizeMode::Apparent),
                self.spec_bytes(SizeMode::Allocated) == old(self).spec_bytes(SizeMode::Allocated),
                self.spec_seen() == old(self).spec_seen(),
                self.spec_exact() == old(self).spec_exact(),
            decreases comps.len() - k,
        {
            let name = &comps[k];
            let ghost mid = self.spec_tree()@;
            proof {
                assert(target[k + 1] == comps@[k as int]@);
                assert(target.take(k + 2) =~= target.take(k + 1).push(name@));
            }
            match self.find_child(cur, name) {
                Some(c) => {
                    proof {
                        lemma_path_shape(mid, c as int);
                        assert(path_names(mid, c as int) =~= target.take(k + 2));
                        if mid.len() > a.len() {
                            assert(parents_of(mid)[c as int] == mid[c as int].parent);
                            if c >= a.len() {
                                assert(mid[c as int] == mid[c as int]);
                            }
                        }
                        assert forall|d: int|
                            #![trigger target.take(d + 1)]
                            0 <= d < k + 2 implies exists|j: int|
                            0 <= j < mid.len() && #[trigger] path_names(mid, j) == target.take(d + 1) by {
                            if d == k + 1 {
                                assert(path_names(mid, c as int) == target.take(d + 1));
                            }
                        }
                    }
                    cur = c;
                },
                None => {
                    proof {
                        if ex {
                            let j = choose|j: int| 0 <= j < a.len() && path_names(a, j) == target;
                            lemma_path_frame(a, mid, a.len() as int, j);
                            let x = lemma_path_prefix(mid, j, k + 1);
                            lemma_path_shape(mid, x);
                            assert(path_names(mid, x).len() == k + 2);
                            let y = mid[x].parent.unwrap() as int;
                            assert(path_names(mid, y) =~= target.take(k + 1));
                            lemma_path_injective(mid, y, cur as int);
                            assert(mid[x].name@ == name@);
                            assert(false);
                        }
                    }
                    let nc = copy_bytes(name);
                    let ghost pc = cur as int;
                    cur = self.add_child(cur, nc);
                    proof {
                        let nw = self.spec_tree()@;
                        let n0 = a.len() as int;
                        assert forall|x: int| 0 <= x < mid.len() implies path_names(nw, x) == path_names(mid, x) by {
                            lemma_path_frame(mid, nw, mid.len() as int, x);
                        }
                        assert forall|j: int| 0 <= j < n0 implies {
                            &&& (#[trigger] nw[j]).name == a[j].name
                            &&& nw[j].parent == a[j].parent
                            &&& nw[j].total_size == a[j].total_size
                            &&& nw[j].children@ == if n0 < nw.len() && nw[n0].parent is Some
                                && nw[n0].parent.unwrap() as int == j {
                                a[j].children@.push(n0 as usize)
                            } else {
                                a[j].children@
                            }
                        } by {
                            assert(mid[j].name == a[j].name);
                            if mid.len() > n0 {
                                assert(nw[n0].parent == mid[n0].parent);
                            }
                        }
                        assert forall|q: int| n0 <= q < nw.len() implies {
                            &&& (#[trigger] nw[q]).total_size == 0
                            &&& nw[q].children@.len() == if q + 1 < nw.len() {
                                1int
                            } else {
                                0int
                            }
                            &&& q + 1 < nw.len() ==> nw[q].children@[0] as int == q + 1
                            &&& nw[q].parent is Some
                            &&& if q == n0 {
                                nw[q].parent.unwrap() < n0
                            } else {
                                nw[q].parent.unwrap() as int == q - 1
                            }
                            &&& prefix_of(path_names(nw, q), target)
                        } by {
                            if q < mid.len() {
                                assert(mid[q].parent == nw[q].parent);
                                if q == pc {
                                    assert(mid[q].children@.len() == 0);
                                }
                            } else {
                                assert(path_names(nw, q) == target.take(k + 2));
                            }
                        }
                        assert forall|d: int|
                            #![trigger target.take(d + 1)]
                            0 <= d < k + 2 implies exists|j: int|
                            0 <= j < nw.len() && #[trigger] path_names(nw, j) == target.take(d + 1) by {
                            if d == k + 1 {
                                assert(path_names(nw, cur as int) == target.take(d + 1));
                            } else {
                                let j = choose|j: int| 0 <= j < mid.len() && #[trigger] path_names(mid, j) == target.take(d + 1);
                                assert(path_names(nw, j) == path_names(mid, j));
                            }
                        }
                    }
                },
            }
            k = k + 1;
        }
        proof {
            assert(target.take(comps.len() + 1) =~= target);
            let b = self.spec_tree()@;
            assert(target.len() == comps.len() + 1);
            assert forall|j: int|
                0 <= j < a.len() && path_names(a, j) == target implies cur == j && b.len() == a.len() by {
                lemma_path_frame(a, b, a.len() as int, j);
                lemma_path_injective(b, cur as int, j);
            }
        }
        cur
    }

    /// Fold one walk entry into the tree: the path `comps` below the root,
    /// and, for a regular file, its identity and sizes. A file whose
    /// (device, inode) was already counted adds no bytes: hard links are
    /// counted once. Returns the progress after this entry.
    #[verifier::rlimit(40)]
    pub fn record(&mut self, comps: &Vec<Vec<u8>>, file: Option<FileInfo>) -> (p: Progress)
        requires
            old(self).wf(),
            old(self).spec_tree()@.len() + comps.len() + 1 < usize::MAX,
            old(self).spec_progress().entries < u64::MAX,
            counts(file, old(self).spec_seen()) ==> old(self).spec_bytes(SizeMode::Apparent)
                + file.unwrap().apparent <= u64::MAX && old(self).spec_bytes(SizeMode::Allocated)
                + file.unwrap().allocated <= u64::MAX,
        ensures
            final(self).wf(),
            p == final(self).spec_progress(),
            p.entries == old(self).spec_progress().entries + 1,
            final(self).spec_tree().spec_mode() == old(self).spec_tree().spec_mode(),
            final(self).spec_tree()@.len() <= old(self).spec_tree()@.len() + comps.len(),
            final(self).spec_tree()@[0].name == old(self).spec_tree()@[0].name,
            grown(
                old(self).spec_tree()@,
                final(self).spec_tree()@,
                target_path(old(self).spec_tree()@[0].name@, comps@),
            ),
            exists|j: int|
                0 <= j < final(self).spec_tree()@.len() && path_names(final(self).spec_tree()@, j)
                    == target_path(old(self).spec_tree()@[0].name@, comps@),
            sizes_after(
                old(self).spec_tree()@,
                final(self).spec_tree()@,
                target_path(old(self).spec_tree()@[0].name@, comps@),
                if counts(file, old(self).spec_seen()) {
                    file
                } else {
                    None
                },
            ),
            final(self).spec_seen() == match file {
                Some(f) => old(self).spec_seen().insert((f.dev, f.ino)),
                None => old(self).spec_seen(),
            },
            counts(file, old(self).spec_seen()) ==> {
                &&& final(self).spec_bytes(SizeMode::Apparent) == old(self).spec_bytes(SizeMode::Apparent)
                    + file.unwrap().apparent
                &&& final(self).spec_bytes(SizeMode::Allocated) == old(self).spec_bytes(SizeMode::Allocated)
                    + file.unwrap().allocated
                &&& p.bytes == old(self).spec_progress().bytes + file_size(
                    file.unwrap(),
                    old(self).spec_tree().spec_mode(),
                )
            },
            !counts(file, old(self).spec_seen()) ==> {
                &&& final(self).spec_bytes(SizeMode::Apparent) == old(self).spec_bytes(SizeMode::Apparent)
                &&& final(self).spec_bytes(SizeMode::Allocated) == old(self).spec_bytes(SizeMode::Allocated)
                &&& p.bytes == old(self).spec_progress().bytes
                &&& final(self).spec_exact() == old(self).spec_exact()
            },
            old(self).spec_exact() && (forall|j: int|
                0 <= j < old(self).spec_tree()@.len() && path_names(old(self).spec_tree()@, j) == target_path(
                    old(self).spec_tree()@[0].name@,
                    comps@,
                ) ==> (#[trigger] old(self).spec_tree()@[j]).own_apparent == 0
                    && old(self).spec_tree()@[j].own_allocated == 0) ==> final(self).spec_exact(),
    {
        broadcast use vstd::std_specs::hash::group_hash_axioms;

        let ghost a = self.tree@;
        let ghost target = target_path(a[0].name@, comps@);
        let idx = self.intern(comps);
        let ghost b = self.tree@;
        proof {
            assert(b[0].name == a[0].name);
            assert(target.take(target.len() as int) =~= target);
            lemma_interned_sizes(a, b, target);
        }
        self.progress.entries = self.progress.entries + 1;
        if let Some(f) = file {
            proof {
                lemma_file_id(f.dev, f.ino, f.dev, f.ino);
            }
            let id: u128 = (f.dev as u128) * 0x1_0000_0000_0000_0000u128 + (f.ino as u128);
            let ghost seen0 = self.spec_seen();
            let fresh = self.seen.insert(id);
            proof {
                assert forall|q: (u64, u64)| #[trigger] self.spec_seen().contains(q) == seen0.insert(
                    (f.dev, f.ino),
                ).contains(q) by {
                    lemma_file_id(q.0, q.1, f.dev, f.ino);
                }
                assert(self.spec_seen() =~= seen0.insert((f.dev, f.ino)));
                assert(fresh == !seen0.contains((f.dev, f.ino)));
            }
            if fresh {
                let ghost old_app = b[idx as int].own_apparent as int;
                let ghost old_all = b[idx as int].own_allocated as int;
                self.tree.set_own(idx, f.apparent, f.allocated);
                self.bytes_apparent = self.bytes_apparent + f.apparent;
                self.bytes_allocated = self.bytes_allocated + f.allocated;
                let add = match self.tree.mode() {
                    SizeMode::Apparent => f.apparent,
                    SizeMode::Allocated => f.allocated,
                };
                self.progress.bytes = self.progress.bytes + add;
                proof {
                    self.exact@ = self.exact@ && old_app == 0 && old_all == 0;
                    lemma_own_change(b, self.tree@, idx as int);
                    lemma_sized(a, b, self.tree@, target, idx as int, f);
                    assert(subtree_size(self.tree@, 0, SizeMode::Apparent) == subtree_size(
                        b,
                        0,
                        SizeMode::Apparent,
                    ) - old_app + f.apparent);
                    assert(subtree_size(self.tree@, 0, SizeMode::Allocated) == subtree_size(
                        b,
                        0,
                        SizeMode::Allocated,
                    ) - old_all + f.allocated);
                    if old(self).spec_exact() && (forall|j: int|
                        0 <= j < a.len() && path_names(a, j) == target ==> (#[trigger] a[j]).own_apparent
                            == 0 && a[j].own_allocated == 0) {
                        if idx < a.len() {
                            lemma_path_frame(a, b, a.len() as int, idx as int);
                        }
                    }
                }
            }
        }
        self.progress
    }

    /// Finish the scan: compute every total in the scan's mode and hand over
    /// the tree. When no file was recorded twice, the root's total is the
    /// deduplicated byte count.
    pub fn finish(self) -> (t: Tree)
        requires
            self.wf(),
        ensures
            t.wf(),
            t.consistent(),
            totals_fit(t@),
            t.spec_mode() == self.spec_tree().spec_mode(),
            t@ == recomputed(self.spec_tree()@, 0, self.spec_tree().spec_mode()),
            attached(kids_of(t@), parents_of(t@)),
            forall|j: int| 0 <= j < t@.len() ==> #[trigger] reaches(t@, 0, j),
            forall|j: int|
                0 <= j < t@.len() ==> #[trigger] path_names(t@, j) == path_names(self.spec_tree()@, j),
            self.spec_exact() ==> t@[0].total_size == self.spec_progress().bytes,
    {
        let ghost nodes = self.tree@;
        let ghost mode = self.tree.spec_mode();
        let mut tree = self.tree;
        proof {
            assert(subtree_size(nodes, 0, mode) <= self.spec_bytes(mode));
        }
        tree.compute_totals(0);
        proof {
            let t = tree@;
            lemma_recomputed_shape(nodes, 0, mode);
            lemma_same_shape(nodes, t);
            lemma_rooted(nodes, 0);
            lemma_anc_reach(kids_of(nodes), parents_of(nodes), 0, 0);
            assert(reaches(nodes, 0, 0));
            assert forall|j: int|
                0 <= j < t.len() && #[trigger] crate::tree::reaches(t, 0, j) implies t[j].total_size as int
                    == subtree_size(t, j, mode) by {
                assert(crate::tree::reaches(nodes, 0, j));
                crate::model::lemma_nonneg(kids_of(nodes), weights(nodes, mode), j);
                lemma_weights_nonneg(nodes, mode);
                crate::model::lemma_reach_le(kids_of(nodes), weights(nodes, mode), j, 0);
            }
            assert forall|j: int| 0 <= j < t.len() implies #[trigger] reaches(t, 0, j) by {
                lemma_rooted(nodes, j);
                lemma_anc_reach(kids_of(nodes), parents_of(nodes), 0, j);
                assert(reaches(nodes, 0, j));
            }
            assert forall|j: int| 0 <= j < t.len() implies #[trigger] path_names(t, j) == path_names(nodes, j) by {
                assert forall|i: int| 0 <= i < t.len() implies (#[trigger] t[i]).name == nodes[i].name && t[i].parent
                    == nodes[i].parent by {
                    assert(t[i] == crate::tree::with_total(nodes[i], t[i].total_size));
                }
                lemma_path_frame(nodes, t, t.len() as int, j);
            }
        }
        tree
    }
}

/// In a scan's tree a path names at most one node: recording the same path
/// again, in whatever order the walk delivers it, finds the same node.
pub proof fn lemma_scan_paths_unique(s: Scan, x: int, y: int)
    requires
        s.wf(),
        0 <= x < s.spec_tree()@.len(),
        0 <= y < s.spec_tree()@.len(),
        path_names(s.spec_tree()@, x) == path_names(s.spec_tree()@, y),
    ensures
        x == y,
{
    lemma_path_injective(s.spec_tree()@, x, y);
}

/// Two trees alike in everything but totals: names, own sizes, parent links
/// and children lists agree node by node.
pub open spec fn same_view(x: Seq<Node>, y: Seq<Node>) -> bool {
    &&& x.len() == y.len()
    &&& forall|j: int|
        0 <= j < x.len() ==> {
            &&& (#[trigger] x[j]).name@ == y[j].name@
            &&& x[j].parent == y[j].parent
            &&& x[j].own_apparent == y[j].own_apparent
            &&& x[j].own_allocated == y[j].own_allocated
            &&& x[j].children@ == y[j].children@
        }
}

/// Names and parent links alone decide paths.
proof fn lemma_same_view_paths(x: Seq<Node>, y: Seq<Node>, j: int)
    requires
        x.len() == y.len(),
        forall|i: int| 0 <= i < x.len() ==> (#[trigger] x[i]).name@ == y[i].name@ && x[i].parent == y[i].parent,
        0 <= j < x.len(),
    ensures
        path_names(x, j) == path_names(y, j),
    decreases j,
{
    if x[j].parent is Some && x[j].parent.unwrap() < j {
        lemma_same_view_paths(x, y, x[j].parent.unwrap() as int);
    }
}

/// Along the chain of nodes a record creates, each path is one longer than
/// the one before.
proof fn lemma_chain_depth(a: Seq<Node>, b: Seq<Node>, t: Seq<Seq<u8>>, k: int)
    requires
        arena_ok(b),
        grown_part(a, b, t),
        a.len() <= k < b.len(),
    ensures
        path_names(b, k).len() == path_names(b, a.len() as int).len() + (k - a.len()),
    decreases k,
{
    if k > a.len() {
        lemma_chain_depth(a, b, t, k - 1);
        lemma_path_shape(b, k);
        assert(b[k].parent.unwrap() as int == k - 1);
    }
}

/// A prefix of a path that names a node names one too.
proof fn lemma_prefix_closed(a: Seq<Node>, t: Seq<Seq<u8>>, j: int, d: int) -> (q: int)
    requires
        arena_ok(a),
        0 <= j < a.len(),
        prefix_of(path_names(a, j), t),
        1 <= d <= path_names(a, j).len(),
    ensures
        0 <= q < a.len(),
        path_names(a, q) == t.take(d),
{
    let q = lemma_path_prefix(a, j, d - 1);
    assert(path_names(a, j).take(d) =~= t.take(d));
    q
}

/// When the target had no node in either of two trees alike, the chains of
/// created nodes start under the same node.
proof fn lemma_chain_start(a1: Seq<Node>, a2: Seq<Node>, b1: Seq<Node>, b2: Seq<Node>, t: Seq<Seq<u8>>)
    requires
        arena_ok(a1),
        siblings_unique(a1),
        arena_ok(b1),
        siblings_unique(b1),
        arena_ok(b2),
        siblings_unique(b2),
        a1.len() == a2.len(),
        forall|i: int| 0 <= i < a1.len() ==> path_names(a1, i) == path_names(a2, i),
        grown(a1, b1, t),
        grown(a2, b2, t),
        t.len() >= 1,
        !exists|j: int| 0 <= j < a1.len() && path_names(a1, j) == t,
        !exists|j: int| 0 <= j < a2.len() && path_names(a2, j) == t,
    ensures
        a1.len() < b1.len(),
        a2.len() < b2.len(),
        b1[a1.len() as int].parent == b2[a1.len() as int].parent,
        path_names(b1, a1.len() as int).len() == path_names(b2, a1.len() as int).len(),
        path_names(b1, b1.len() - 1) == t,
        path_names(b2, b2.len() - 1) == t,
{
    let n0 = a1.len() as int;
    let l1 = lemma_last_is_target(a1, b1, t);
    let l2 = lemma_last_is_target(a2, b2, t);
    lemma_missing_next(a1, b1, t);
    lemma_missing_next(a2, b2, t);
    let p1 = b1[n0].parent.unwrap() as int;
    let p2 = b2[n0].parent.unwrap() as int;
    lemma_path_frame(a1, b1, n0, p1);
    lemma_path_frame(a2, b2, n0, p2);
    lemma_path_shape(b1, n0);
    lemma_path_shape(b2, n0);
    let e1 = path_names(b1, p1).len() as int;
    let e2 = path_names(b2, p2).len() as int;
    assert(path_names(b1, p1) == t.take(e1)) by {
        assert(path_names(b1, n0).drop_last() =~= t.take(e1));
    }
    assert(path_names(b2, p2) == t.take(e2)) by {
        assert(path_names(b2, n0).drop_last() =~= t.take(e2));
    }
    if e1 < e2 {
        assert(path_names(a1, p2) == t.take(e2));
        lemma_path_shape(a1, p2);
        let q = lemma_prefix_closed(a1, t, p2, e1 + 1);
        assert(path_names(a2, q) == t.take(e1 + 1));
        assert(false);
    } else if e2 < e1 {
        lemma_path_shape(a1, p1);
        let q = lemma_prefix_closed(a1, t, p1, e2 + 1);
        assert(path_names(a2, q) == t.take(e2 + 1));
        assert(false);
    }
    assert(path_names(a1, p2) == path_names(a1, p1));
    lemma_path_injective(a1, p1, p2);
}

/// Two chains of created nodes that start under the same node at the same
/// depth and end at the same target are the same chain.
proof fn lemma_chain_same(a1: Seq<Node>, a2: Seq<Node>, b1: Seq<Node>, b2: Seq<Node>, t: Seq<Seq<u8>>)
    requires
        arena_ok(b1),
        arena_ok(b2),
        a1.len() == a2.len(),
        grown_part(a1, b1, t),
        grown_part(a2, b2, t),
        a1.len() < b1.len(),
        a2.len() < b2.len(),
        b1[a1.len() as int].parent == b2[a1.len() as int].parent,
        path_names(b1, a1.len() as int).len() == path_names(b2, a1.len() as int).len(),
        path_names(b1, b1.len() - 1) == t,
        path_names(b2, b2.len() - 1) == t,
    ensures
        b1.len() == b2.len(),
        forall|k: int|
            a1.len() <= k < b1.len() ==> (#[trigger] b1[k]).name@ == b2[k].name@ && b1[k].parent == b2[k].parent
                && b1[k].children@ == b2[k].children@,
{
    let n0 = a1.len() as int;
    lemma_chain_depth(a1, b1, t, b1.len() - 1);
    lemma_chain_depth(a2, b2, t, b2.len() - 1);
    assert forall|k: int| n0 <= k < b1.len() implies (#[trigger] b1[k]).name@ == b2[k].name@ && b1[k].parent
        == b2[k].parent && b1[k].children@ == b2[k].children@ by {
        lemma_chain_depth(a1, b1, t, k);
        lemma_chain_depth(a2, b2, t, k);
        lemma_path_shape(b1, k);
        lemma_path_shape(b2, k);
        let dk = path_names(b1, k).len() as int;
        assert(b1[k].total_size == 0 && b2[k].total_size == 0);
        assert(path_names(b1, k) == t.take(dk));
        assert(path_names(b2, k) == t.take(dk));
        assert(b1[k].children@ =~= b2[k].children@);
    }
}

/// Interning the same path into trees alike gives trees alike.
proof fn lemma_grown_determined(
    a1: Seq<Node>,
    a2: Seq<Node>,
    b1: Seq<Node>,
    b2: Seq<Node>,
    t: Seq<Seq<u8>>,
)
    requires
        arena_ok(a1),
        siblings_unique(a1),
        arena_ok(b1),
        siblings_unique(b1),
        arena_ok(b2),
        siblings_unique(b2),
        a1.len() == a2.len(),
        forall|i: int|
            0 <= i < a1.len() ==> (#[trigger] a1[i]).name@ == a2[i].name@ && a1[i].parent == a2[i].parent
                && a1[i].children@ == a2[i].children@,
        grown(a1, b1, t),
        grown(a2, b2, t),
        t.len() >= 1,
    ensures
        b1.len() == b2.len(),
        forall|i: int|
            0 <= i < b1.len() ==> (#[trigger] b1[i]).name@ == b2[i].name@ && b1[i].parent == b2[i].parent
                && b1[i].children@ == b2[i].children@,
{
    let n0 = a1.len() as int;
    assert forall|i: int| 0 <= i < n0 implies path_names(a1, i) == path_names(a2, i) by {
        lemma_same_view_paths(a1, a2, i);
    }
    if exists|j: int| 0 <= j < n0 && path_names(a1, j) == t {
        let j = choose|j: int| 0 <= j < n0 && path_names(a1, j) == t;
        assert(path_names(a2, j) == t);
        assert forall|i: int| 0 <= i < b1.len() implies (#[trigger] b1[i]).name@ == b2[i].name@ && b1[i].parent
            == b2[i].parent && b1[i].children@ == b2[i].children@ by {
            assert(b1[i].name == a1[i].name && b2[i].name == a2[i].name);
        }
    } else {
        assert(!exists|j: int| 0 <= j < n0 && path_names(a2, j) == t) by {
            if exists|j: int| 0 <= j < n0 && path_names(a2, j) == t {
                let j = choose|j: int| 0 <= j < n0 && path_names(a2, j) == t;
                assert(path_names(a1, j) == t);
            }
        }
        lemma_chain_start(a1, a2, b1, b2, t);
        lemma_chain_same(a1, a2, b1, b2, t);
        assert forall|i: int| 0 <= i < b1.len() implies (#[trigger] b1[i]).name@ == b2[i].name@ && b1[i].parent
            == b2[i].parent && b1[i].children@ == b2[i].children@ by {
            if i < n0 {
                assert(b1[i].name == a1[i].name && b2[i].name == a2[i].name);
            }
        }
    }
}

/// When the target had no node, a node was created for it, and it is the
/// last of the chain.
proof fn lemma_last_is_target(a: Seq<Node>, b: Seq<Node>, t: Seq<Seq<u8>>) -> (l: int)
    requires
        arena_ok(b),
        grown(a, b, t),
        t.len() >= 1,
        !exists|j: int| 0 <= j < a.len() && path_names(a, j) == t,
    ensures
        l == b.len() - 1,
        a.len() <= l,
        path_names(b, l) == t,
{
    let n0 = a.len() as int;
    assert(t.take(t.len() as int) =~= t);
    assert(t.take((t.len() - 1) + 1) == t);
    let j = choose|j: int| 0 <= j < b.len() && #[trigger] path_names(b, j) == t.take((t.len() - 1) + 1);
    if j < n0 {
        lemma_path_frame(a, b, n0, j);
    }
    if j + 1 < b.len() {
        lemma_path_shape(b, j + 1);
        assert(b[j + 1].parent.unwrap() as int == j);
        assert(parents_of(b)[j + 1] == b[j + 1].parent);
        assert(prefix_of(path_names(b, j + 1), t));
    }
    j
}

/// The parent of the first created node names a prefix whose next prefix
/// had no node before.
proof fn lemma_missing_next(a: Seq<Node>, b: Seq<Node>, t: Seq<Seq<u8>>)
    requires
        arena_ok(b),
        siblings_unique(b),
        grown(a, b, t),
        a.len() < b.len(),
    ensures
        b[a.len() as int].parent.unwrap() < a.len(),
        path_names(b, a.len() as int).len() == path_names(b, b[a.len() as int].parent.unwrap() as int).len() + 1,
        prefix_of(path_names(b, a.len() as int), t),
        !exists|q: int|
            0 <= q < a.len() && path_names(a, q) == t.take(
                path_names(b, b[a.len() as int].parent.unwrap() as int).len() as int + 1,
            ),
{
    let n0 = a.len() as int;
    assert(b[n0].total_size == 0);
    lemma_path_shape(b, n0);
    assert(parents_of(b)[n0] == b[n0].parent);
    let p = b[n0].parent.unwrap() as int;
    let e = path_names(b, p).len() as int;
    assert(path_names(b, n0) == t.take(e + 1));
    if exists|q: int| 0 <= q < n0 && path_names(a, q) == t.take(e + 1) {
        let q = choose|q: int| 0 <= q < n0 && path_names(a, q) == t.take(e + 1);
        lemma_path_frame(a, b, n0, q);
        lemma_path_injective(b, q, n0);
    }
}

/// The record counts `file`: it is a regular file whose (device, inode) had
/// not been seen.
pub open spec fn counts(file: Option<FileInfo>, seen: Set<(u64, u64)>) -> bool {
    file matches Some(f) && !seen.contains((f.dev, f.ino))
}

/// Own sizes after a record: the node of `target` takes the sizes of
/// `counted` when there is one; every other node keeps its own sizes, and a
/// node created by the record has none.
pub open spec fn sizes_after(old: Seq<Node>, new: Seq<Node>, target: Seq<Seq<u8>>, counted: Option<FileInfo>) -> bool {
    forall|j: int|
        0 <= j < new.len() ==> {
            &&& (#[trigger] new[j]).own_apparent == if counted is Some && path_names(new, j) == target {
                counted.unwrap().apparent
            } else if j < old.len() {
                old[j].own_apparent
            } else {
                0
            }
            &&& new[j].own_allocated == if counted is Some && path_names(new, j) == target {
                counted.unwrap().allocated
            } else if j < old.len() {
                old[j].own_allocated
            } else {
                0
            }
        }
}

/// Interning keeps old own sizes and gives new nodes none.
proof fn lemma_interned_sizes(a: Seq<Node>, b: Seq<Node>, target: Seq<Seq<u8>>)
    requires
        same_prefix(a, b, a.len() as int),
        a.len() <= b.len(),
        forall|j: int|
            a.len() <= j < b.len() ==> (#[trigger] b[j]).own_apparent == 0 && b[j].own_allocated == 0,
    ensures
        sizes_after(a, b, target, None),
{
}

/// Changing one node's own sizes keeps the shape and the index keys, and
/// moves the root's subtree sizes by the change.
proof fn lemma_own_change(b: Seq<Node>, c: Seq<Node>, idx: int)
    requires
        arena_ok(b),
        attached(kids_of(b), parents_of(b)),
        0 <= idx < b.len(),
        c.len() == b.len(),
        forall|j: int|
            0 <= j < b.len() ==> {
                &&& (#[trigger] c[j]).name == b[j].name
                &&& c[j].total_size == b[j].total_size
                &&& c[j].parent == b[j].parent
                &&& c[j].children == b[j].children
                &&& j != idx ==> c[j].own_apparent == b[j].own_apparent && c[j].own_allocated
                    == b[j].own_allocated
            },
    ensures
        kids_of(c) == kids_of(b),
        parents_of(c) == parents_of(b),
        attached(kids_of(c), parents_of(c)),
        forall|j: int| 0 <= j < c.len() ==> #[trigger] node_key(c, j) == node_key(b, j),
        siblings_unique(b) ==> siblings_unique(c),
        subtree_size(c, 0, SizeMode::Apparent) == subtree_size(b, 0, SizeMode::Apparent)
            - b[idx].own_apparent + c[idx].own_apparent,
        subtree_size(c, 0, SizeMode::Allocated) == subtree_size(b, 0, SizeMode::Allocated)
            - b[idx].own_allocated + c[idx].own_allocated,
{
    let kb = kids_of(b);
    let ps = parents_of(b);
    assert(kids_of(c) =~= kb);
    assert(parents_of(c) =~= ps);
    lemma_rooted(b, idx);
    lemma_anc_reach(kb, ps, 0, idx);
    let da = c[idx].own_apparent - b[idx].own_apparent;
    let dl = c[idx].own_allocated - b[idx].own_allocated;
    assert(weights(c, SizeMode::Apparent) =~= weights(b, SizeMode::Apparent).update(
        idx,
        b[idx].own_apparent + da,
    ));
    assert(weights(c, SizeMode::Allocated) =~= weights(b, SizeMode::Allocated).update(
        idx,
        b[idx].own_allocated + dl,
    ));
    lemma_weight_change(kb, weights(b, SizeMode::Apparent), weights(c, SizeMode::Apparent), idx, da, 0);
    lemma_weight_change(kb, weights(b, SizeMode::Allocated), weights(c, SizeMode::Allocated), idx, dl, 0);
    assert(da * 1 == da);
    assert(dl * 1 == dl);
    assert forall|j: int| 0 <= j < c.len() implies #[trigger] node_key(c, j) == node_key(b, j) by {
        assert(c[j].name == b[j].name && c[j].parent == b[j].parent);
    }
    if siblings_unique(b) {
        assert forall|i: int, j: int|
            1 <= i < c.len() && 1 <= j < c.len() && i != j && (#[trigger] c[i]).parent == (
            #[trigger] c[j]).parent implies c[i].name@ != c[j].name@ by {
            assert(b[i].parent == c[i].parent && b[j].parent == c[j].parent);
            assert(b[i].name == c[i].name && b[j].name == c[j].name);
        }
    }
}

/// Setting the sizes of the node of `target` after interning it.
proof fn lemma_sized(a: Seq<Node>, b: Seq<Node>, c: Seq<Node>, target: Seq<Seq<u8>>, idx: int, f: FileInfo)
    requires
        arena_ok(b),
        siblings_unique(b),
        grown(a, b, target),
        sizes_after(a, b, target, None),
        0 <= idx < b.len(),
        path_names(b, idx) == target,
        c.len() == b.len(),
        c[idx].own_apparent == f.apparent,
        c[idx].own_allocated == f.allocated,
        forall|j: int|
            0 <= j < b.len() ==> {
                &&& (#[trigger] c[j]).name == b[j].name
                &&& c[j].total_size == b[j].total_size
                &&& c[j].parent == b[j].parent
                &&& c[j].children == b[j].children
                &&& j != idx ==> c[j].own_apparent == b[j].own_apparent && c[j].own_allocated
                    == b[j].own_allocated
            },
    ensures
        grown(a, c, target),
        sizes_after(a, c, target, Some(f)),
{
    assert forall|x: int| 0 <= x < c.len() implies path_names(c, x) == path_names(b, x) by {
        lemma_path_frame(b, c, c.len() as int, x);
    }
    assert forall|j: int| 0 <= j < c.len() && path_names(c, j) == target implies j == idx by {
        lemma_path_injective(b, j, idx);
    }
    assert forall|d: int|
        #![trigger target.take(d + 1)]
        0 <= d < target.len() implies exists|j: int|
        0 <= j < c.len() && #[trigger] path_names(c, j) == target.take(d + 1) by {
        let j = choose|j: int| 0 <= j < b.len() && #[trigger] path_names(b, j) == target.take(d + 1);
        assert(path_names(c, j) == path_names(b, j));
    }
    if a.len() < c.len() {
        assert(c[a.len() as int].parent == b[a.len() as int].parent);
    }
}

/// The paths of all nodes, as a set.
pub open spec fn paths_of(nodes: Seq<Node>) -> Set<Seq<Seq<u8>>> {
    Seq::new(nodes.len(), |j: int| path_names(nodes, j)).to_set()
}

/// Every nonempty prefix of `target`, as a set.
pub open spec fn prefixes(target: Seq<Seq<u8>>) -> Set<Seq<Seq<u8>>> {
    Set::new(|p: Seq<Seq<u8>>| prefix_of(p, target))
}

/// Every path in the tree names one node, so the tree has as many nodes as
/// paths.
pub proof fn lemma_scan_size(s: Scan)
    requires
        s.wf(),
    ensures
        paths_of(s.spec_tree()@).len() == s.spec_tree()@.len(),
{
    let nodes = s.spec_tree()@;
    let ps = Seq::new(nodes.len(), |j: int| path_names(nodes, j));
    assert(ps.no_duplicates()) by {
        assert forall|x: int, y: int| 0 <= x < ps.len() && 0 <= y < ps.len() && x != y implies ps[x] != ps[y] by {
            if ps[x] == ps[y] {
                lemma_path_injective(nodes, x, y);
            }
        }
    }
    ps.unique_seq_to_set();
}

/// Recording an entry adds to the tree's paths exactly the prefixes of the
/// entry's path: the root, each folder on the way, and the entry itself.
pub proof fn lemma_record_paths(x0: Scan, x1: Scan, target: Seq<Seq<u8>>)
    requires
        x0.wf(),
        x1.wf(),
        grown(x0.spec_tree()@, x1.spec_tree()@, target),
    ensures
        paths_of(x1.spec_tree()@) == paths_of(x0.spec_tree()@).union(prefixes(target)),
{
    let a = x0.spec_tree()@;
    let b = x1.spec_tree()@;
    let n0 = a.len() as int;
    let pa = Seq::new(a.len(), |j: int| path_names(a, j));
    let pb = Seq::new(b.len(), |j: int| path_names(b, j));
    assert forall|q: Seq<Seq<u8>>| paths_of(b).contains(q) implies paths_of(a).union(prefixes(target)).contains(q) by {
        let j = choose|j: int| 0 <= j < pb.len() && pb[j] == q;
        if j < n0 {
            lemma_path_frame(a, b, n0, j);
            assert(pa[j] == q);
        } else {
            assert(b[j].total_size == 0);
            assert(prefixes(target).contains(q));
        }
    }
    assert forall|q: Seq<Seq<u8>>| paths_of(a).union(prefixes(target)).contains(q) implies paths_of(b).contains(q) by {
        if paths_of(a).contains(q) {
            let j = choose|j: int| 0 <= j < pa.len() && pa[j] == q;
            lemma_path_frame(a, b, n0, j);
            assert(pb[j] == q);
        } else {
            assert(prefix_of(q, target));
            let d = q.len() - 1;
            assert(target.take(d + 1) == q);
            let j = choose|j: int| 0 <= j < b.len() && #[trigger] path_names(b, j) == target.take(d + 1);
            assert(pb[j] == q);
        }
    }
    assert(paths_of(b) =~= paths_of(a).union(prefixes(target)));
}

/// The paths after recording `targets[..i]` into a scan of the root alone.
pub open spec fn paths_after(root: Seq<u8>, targets: Seq<Seq<Seq<u8>>>) -> Set<Seq<Seq<u8>>> {
    Set::new(|p: Seq<Seq<u8>>| p == seq![root] || exists|k: int| 0 <= k < targets.len() && prefix_of(p, #[trigger] targets[k]))
}

proof fn lemma_paths_history(xs: Seq<Scan>, ts: Seq<Seq<Seq<u8>>>, i: int)
    requires
        xs.len() == ts.len() + 1,
        forall|k: int| 0 <= k < xs.len() ==> (#[trigger] xs[k]).wf(),
        xs[0].spec_tree()@.len() == 1,
        forall|k: int|
            0 <= k < ts.len() ==> grown(xs[k].spec_tree()@, (#[trigger] xs[k + 1]).spec_tree()@, ts[k]),
        0 <= i < xs.len(),
    ensures
        paths_of(xs[i].spec_tree()@) == paths_after(xs[0].spec_tree()@[0].name@, ts.take(i)),
    decreases i,
{
    let root = xs[0].spec_tree()@[0].name@;
    if i == 0 {
        let a = xs[0].spec_tree()@;
        lemma_path_shape(a, 0);
        assert(path_names(a, 0) =~= seq![root]);
        let pa = Seq::new(a.len(), |j: int| path_names(a, j));
        assert(pa[0] == seq![root]);
        assert(paths_of(a) =~= paths_after(root, ts.take(0)));
    } else {
        lemma_paths_history(xs, ts, i - 1);
        assert(xs[i - 1 + 1].wf());
        lemma_record_paths(xs[i - 1], xs[i], ts[i - 1]);
        let prev = ts.take(i - 1);
        let cur = ts.take(i);
        assert forall|p: Seq<Seq<u8>>|
            paths_after(root, cur).contains(p) == (paths_after(root, prev).contains(p) || prefixes(ts[i - 1]).contains(p)) by {
            if exists|k: int| 0 <= k < cur.len() && prefix_of(p, #[trigger] cur[k]) {
                let k = choose|k: int| 0 <= k < cur.len() && prefix_of(p, #[trigger] cur[k]);
                if k < i - 1 {
                    assert(prev[k] == cur[k]);
                }
            }
            if exists|k: int| 0 <= k < prev.len() && prefix_of(p, #[trigger] prev[k]) {
                let k = choose|k: int| 0 <= k < prev.len() && prefix_of(p, #[trigger] prev[k]);
                assert(prev[k] == cur[k]);
            }
            if prefixes(ts[i - 1]).contains(p) {
                assert(cur[i - 1] == ts[i - 1]);
            }
        }
        assert(paths_after(root, cur) =~= paths_after(root, prev).union(prefixes(ts[i - 1])));
    }
}

/// The paths in a scan's tree depend only on which entries were recorded,
/// not on the order in which the walk delivered them: two scans of one root
/// fed the same entries in any order name the same paths, and so hold as
/// many nodes, with the same parent of each path.
pub proof fn lemma_paths_order_free(
    xs: Seq<Scan>,
    ts: Seq<Seq<Seq<u8>>>,
    ys: Seq<Scan>,
    us: Seq<Seq<Seq<u8>>>,
)
    requires
        xs.len() == ts.len() + 1,
        ys.len() == us.len() + 1,
        forall|k: int| 0 <= k < xs.len() ==> (#[trigger] xs[k]).wf(),
        forall|k: int| 0 <= k < ys.len() ==> (#[trigger] ys[k]).wf(),
        xs[0].spec_tree()@.len() == 1,
        ys[0].spec_tree()@.len() == 1,
        xs[0].spec_tree()@[0].name@ == ys[0].spec_tree()@[0].name@,
        forall|k: int|
            0 <= k < ts.len() ==> grown(xs[k].spec_tree()@, (#[trigger] xs[k + 1]).spec_tree()@, ts[k]),
        forall|k: int|
            0 <= k < us.len() ==> grown(ys[k].spec_tree()@, (#[trigger] ys[k + 1]).spec_tree()@, us[k]),
        ts.to_set() == us.to_set(),
    ensures
        paths_of(xs.last().spec_tree()@) == paths_of(ys.last().spec_tree()@),
        xs.last().spec_tree()@.len() == ys.last().spec_tree()@.len(),
{
    let root = xs[0].spec_tree()@[0].name@;
    lemma_paths_history(xs, ts, ts.len() as int);
    lemma_paths_history(ys, us, us.len() as int);
    assert(ts.take(ts.len() as int) =~= ts);
    assert(us.take(us.len() as int) =~= us);
    assert forall|p: Seq<Seq<u8>>| paths_after(root, ts).contains(p) == paths_after(root, us).contains(p) by {
        if exists|k: int| 0 <= k < ts.len() && prefix_of(p, #[trigger] ts[k]) {
            let k = choose|k: int| 0 <= k < ts.len() && prefix_of(p, #[trigger] ts[k]);
            assert(ts.to_set().contains(ts[k]));
            assert(us.contains(ts[k]));
        }
        if exists|k: int| 0 <= k < us.len() && prefix_of(p, #[trigger] us[k]) {
            let k = choose|k: int| 0 <= k < us.len() && prefix_of(p, #[trigger] us[k]);
            assert(us.to_set().contains(us[k]));
            assert(ts.contains(us[k]));
        }
    }
    assert(paths_after(root, ts) =~= paths_after(root, us));
    lemma_scan_size(xs.last());
    lemma_scan_size(ys.last());
}

/// Recording one entry into two scans that agree in all but totals (such as
/// scans of the same walk in the two size modes) leaves them agreeing.
pub proof fn lemma_record_mode_free(
    x0: Scan,
    x1: Scan,
    y0: Scan,
    y1: Scan,
    comps: Seq<Vec<u8>>,
    file: Option<FileInfo>,
)
    requires
        x0.wf(),
        x1.wf(),
        y0.wf(),
        y1.wf(),
        same_view(x0.spec_tree()@, y0.spec_tree()@),
        x0.spec_seen() == y0.spec_seen(),
        grown(x0.spec_tree()@, x1.spec_tree()@, target_path(x0.spec_tree()@[0].name@, comps)),
        grown(y0.spec_tree()@, y1.spec_tree()@, target_path(y0.spec_tree()@[0].name@, comps)),
        sizes_after(
            x0.spec_tree()@,
            x1.spec_tree()@,
            target_path(x0.spec_tree()@[0].name@, comps),
            if counts(file, x0.spec_seen()) {
                file
            } else {
                None
            },
        ),
        sizes_after(
            y0.spec_tree()@,
            y1.spec_tree()@,
            target_path(y0.spec_tree()@[0].name@, comps),
            if counts(file, y0.spec_seen()) {
                file
            } else {
                None
            },
        ),
        x1.spec_seen() == match file {
            Some(f) => x0.spec_seen().insert((f.dev, f.ino)),
            None => x0.spec_seen(),
        },
        y1.spec_seen() == match file {
            Some(f) => y0.spec_seen().insert((f.dev, f.ino)),
            None => y0.spec_seen(),
        },
    ensures
        same_view(x1.spec_tree()@, y1.spec_tree()@),
        x1.spec_seen() == y1.spec_seen(),
{
    let a1 = x0.spec_tree()@;
    let a2 = y0.spec_tree()@;
    let b1 = x1.spec_tree()@;
    let b2 = y1.spec_tree()@;
    let t = target_path(a1[0].name@, comps);
    assert(a1[0].name@ == a2[0].name@);
    assert(t.len() >= 1 && t[0] == a1[0].name@);
    lemma_grown_determined(a1, a2, b1, b2, t);
    assert forall|j: int| 0 <= j < b1.len() implies path_names(b1, j) == path_names(b2, j) by {
        lemma_same_view_paths(b1, b2, j);
    }
    assert forall|j: int| 0 <= j < b1.len() implies (#[trigger] b1[j]).own_apparent == b2[j].own_apparent
        && b1[j].own_allocated == b2[j].own_allocated by {
        assert(path_names(b1, j) == path_names(b2, j));
    }
}

/// Toggling the size mode of a finished scan gives the tree that finishing a
/// scan of the same entries in the other mode gives: totals agree node by
/// node, and so does everything else but name storage.
pub proof fn lemma_toggle_is_rescan(x: Scan, y: Scan)
    requires
        x.wf(),
        y.wf(),
        same_view(x.spec_tree()@, y.spec_tree()@),
        y.spec_tree().spec_mode() == x.spec_tree().spec_mode().spec_toggled(),
    ensures
        same_view(
            recomputed(recomputed(x.spec_tree()@, 0, x.spec_tree().spec_mode()), 0, y.spec_tree().spec_mode()),
            recomputed(y.spec_tree()@, 0, y.spec_tree().spec_mode()),
        ),
        forall|j: int|
            0 <= j < x.spec_tree()@.len() ==> (#[trigger] recomputed(
                recomputed(x.spec_tree()@, 0, x.spec_tree().spec_mode()),
                0,
                y.spec_tree().spec_mode(),
            )[j]).total_size == recomputed(y.spec_tree()@, 0, y.spec_tree().spec_mode())[j].total_size,
{
    let a = x.spec_tree()@;
    let b = y.spec_tree()@;
    let m = y.spec_tree().spec_mode();
    let r = recomputed(a, 0, x.spec_tree().spec_mode());
    let r2 = recomputed(r, 0, m);
    let rb = recomputed(b, 0, m);
    lemma_recomputed_shape(a, 0, x.spec_tree().spec_mode());
    lemma_same_shape(a, r);
    assert(kids_of(a) =~= kids_of(b)) by {
        assert forall|j: int| 0 <= j < a.len() implies kids_of(a)[j] == kids_of(b)[j] by {
            assert(a[j].children@ == b[j].children@);
        }
    }
    assert(weights(a, m) =~= weights(b, m)) by {
        assert forall|j: int| 0 <= j < a.len() implies weights(a, m)[j] == weights(b, m)[j] by {
            assert(a[j].own_apparent == b[j].own_apparent);
        }
    }
    assert(weights(r, m) =~= weights(a, m)) by {
        assert forall|j: int| 0 <= j < a.len() implies weights(r, m)[j] == weights(a, m)[j] by {
            assert(r[j] == with_total(a[j], r[j].total_size));
        }
    }
    assert forall|j: int| 0 <= j < a.len() implies reaches(a, 0, j) by {
        lemma_rooted(a, j);
        lemma_anc_reach(kids_of(a), parents_of(a), 0, j);
    }
    assert forall|j: int| 0 <= j < a.len() implies (#[trigger] r2[j]).total_size == rb[j].total_size && r2[j].name@
        == rb[j].name@ && r2[j].parent == rb[j].parent && r2[j].own_apparent == rb[j].own_apparent
        && r2[j].own_allocated == rb[j].own_allocated && r2[j].children@ == rb[j].children@ by {
        assert(reaches(a, 0, j));
        assert(reaches(r, 0, j));
        assert(reaches(b, 0, j));
        assert(r[j] == with_total(a[j], r[j].total_size));
    }
}

/// Byte-wise equality of two names.
fn bytes_eq(a: &Vec<u8>, b: &Vec<u8>) -> (r: bool)
    ensures
        r == (a@ == b@),
{
    if a.len() != b.len() {
        return false;
    }
    let mut i: usize = 0;
    while i < a.len()
        invariant
            a.len() == b.len(),
            i <= a.len(),
            forall|k: int| 0 <= k < i ==> a@[k] == b@[k],
        decreases a.len() - i,
    {
        if a[i] != b[i] {
            return false;
        }
        i = i + 1;
    }
    assert(a@ =~= b@);
    true
}

} // verus!
