//! A mathematical model of the arena tree: children lists (`kids`), parent
//! links (`parents`) and per-node weights (`w`). Node `i`'s subtree sum is its
//! own weight plus the subtree sums of the children listed for it.
use vstd::prelude::*;
use crate::sums::{
    lemma_sum_add, lemma_sum_at_most_one, lemma_sum_ext, lemma_sum_mono, lemma_sum_nonneg, lemma_sum_pos,
    lemma_sum_push, lemma_sum_remove, lemma_sum_scale, lemma_sum_zero, lemma_term_le_sum, sum_over,
    without, lemma_without_contains,
};

verus! {

/// Sum of the weights in the subtree below `i` (following children lists).
/// A child is only followed when its index lies above its parent's, which
/// every well-formed arena guarantees.
pub open spec fn sub_sum(kids: Seq<Seq<usize>>, w: Seq<int>, i: int) -> int
    decreases kids.len() - i, 1int, 0int,
{
    if 0 <= i < kids.len() {
        w[i] + kids_sum(kids, w, i, kids[i].len() as int)
    } else {
        0
    }
}

/// Sum of the subtree sums of the first `k` children listed for `i`.
pub open spec fn kids_sum(kids: Seq<Seq<usize>>, w: Seq<int>, i: int, k: int) -> int
    decreases kids.len() - i, 0int, k,
{
    if 0 <= i < kids.len() && 0 < k <= kids[i].len() {
        kids_sum(kids, w, i, k - 1) + if i < kids[i][k - 1] < kids.len() {
            sub_sum(kids, w, kids[i][k - 1] as int)
        } else {
            0
        }
    } else {
        0
    }
}

/// What child `c` of `i` contributes to `i`'s subtree sum.
pub open spec fn child_term(kids: Seq<Seq<usize>>, w: Seq<int>, i: int, c: usize) -> int {
    if i < c < kids.len() {
        sub_sum(kids, w, c as int)
    } else {
        0
    }
}

pub open spec fn term_fn(kids: Seq<Seq<usize>>, w: Seq<int>, i: int) -> spec_fn(usize) -> int {
    |c: usize| child_term(kids, w, i, c)
}

/// The weight vector that is 1 at `k` and 0 elsewhere.
pub open spec fn ind(n: int, k: int) -> Seq<int> {
    Seq::new(n as nat, |x: int| if x == k { 1int } else { 0int })
}

/// How many times `k` is reached from `i` by following children lists.
pub open spec fn cnt(kids: Seq<Seq<usize>>, k: int, i: int) -> int {
    sub_sum(kids, ind(kids.len() as int, k), i)
}

/// `a` lies on the parent chain of `b` (`b` itself included).
pub open spec fn anc(parents: Seq<Option<usize>>, a: int, b: int) -> bool
    decreases b,
{
    if a == b {
        true
    } else if 0 <= b < parents.len() && parents[b] is Some && parents[b].unwrap() < b {
        anc(parents, a, parents[b].unwrap() as int)
    } else {
        false
    }
}

/// Children lie above their parent, point back to it, and are listed once;
/// parents lie below their children.
pub open spec fn shaped(kids: Seq<Seq<usize>>, parents: Seq<Option<usize>>) -> bool {
    &&& kids.len() == parents.len()
    &&& forall|i: int, j: int|
        #![trigger kids[i][j]]
        0 <= i < kids.len() && 0 <= j < kids[i].len() ==> i < kids[i][j] < kids.len()
            && parents[kids[i][j] as int] is Some && parents[kids[i][j] as int].unwrap() as int == i
    &&& forall|i: int| 0 <= i < kids.len() ==> (#[trigger] kids[i]).no_duplicates()
    &&& forall|i: int|
        0 <= i < parents.len() && (#[trigger] parents[i]) is Some ==> parents[i].unwrap() < i
}

/// Every node with a parent is listed among that parent's children.
pub open spec fn attached(kids: Seq<Seq<usize>>, parents: Seq<Option<usize>>) -> bool {
    forall|j: int|
        0 <= j < parents.len() && (#[trigger] parents[j]) is Some ==> exists|m: int|
            0 <= m < kids[parents[j].unwrap() as int].len() && kids[parents[j].unwrap() as int][m] as int
                == j
}

pub open spec fn nonneg(w: Seq<int>) -> bool {
    forall|j: int| 0 <= j < w.len() ==> #[trigger] w[j] >= 0
}

proof fn lemma_kids_sum_as_sum(kids: Seq<Seq<usize>>, w: Seq<int>, i: int, k: int)
    requires
        0 <= i < kids.len(),
        0 <= k <= kids[i].len(),
    ensures
        kids_sum(kids, w, i, k) == sum_over(kids[i].take(k), term_fn(kids, w, i)),
    decreases k,
{
    if k > 0 {
        lemma_kids_sum_as_sum(kids, w, i, k - 1);
        assert(kids[i].take(k).drop_last() =~= kids[i].take(k - 1));
    } else {
        assert(kids[i].take(0).len() == 0);
    }
}

/// One level of `sub_sum`, written as a sum over the children list.
pub proof fn lemma_unfold(kids: Seq<Seq<usize>>, w: Seq<int>, i: int)
    requires
        0 <= i < kids.len(),
    ensures
        sub_sum(kids, w, i) == w[i] + sum_over(kids[i], term_fn(kids, w, i)),
{
    lemma_kids_sum_as_sum(kids, w, i, kids[i].len() as int);
    assert(kids[i].take(kids[i].len() as int) =~= kids[i]);
}

/// Nonnegative weights give nonnegative subtree sums.
pub proof fn lemma_nonneg(kids: Seq<Seq<usize>>, w: Seq<int>, i: int)
    requires
        nonneg(w),
        w.len() == kids.len(),
    ensures
        sub_sum(kids, w, i) >= 0,
    decreases kids.len() - i,
{
    if 0 <= i < kids.len() {
        lemma_unfold(kids, w, i);
        let f = term_fn(kids, w, i);
        assert forall|j: int| 0 <= j < kids[i].len() implies #[trigger] f(kids[i][j]) >= 0 by {
            let c = kids[i][j];
            if i < c < kids.len() {
                lemma_nonneg(kids, w, c as int);
            }
        }
        lemma_sum_nonneg(kids[i], f);
    }
}

/// With nonnegative weights, summing over more children never gives less.
pub proof fn lemma_kids_sum_mono(kids: Seq<Seq<usize>>, w: Seq<int>, i: int, k1: int, k2: int)
    requires
        nonneg(w),
        w.len() == kids.len(),
        0 <= k1 <= k2,
        0 <= i < kids.len() ==> k2 <= kids[i].len(),
    ensures
        0 <= kids_sum(kids, w, i, k1) <= kids_sum(kids, w, i, k2),
    decreases k2,
{
    if 0 <= i < kids.len() && k2 > 0 {
        let k1p = if k1 < k2 { k1 } else { k2 - 1 };
        lemma_kids_sum_mono(kids, w, i, k1p, k2 - 1);
        let c = kids[i][k2 - 1];
        if i < c < kids.len() {
            lemma_nonneg(kids, w, c as int);
        }
    }
}

pub proof fn lemma_ind_nonneg(n: int, k: int)
    requires
        n >= 0,
    ensures
        nonneg(ind(n, k)),
        ind(n, k).len() == n,
{
}

pub proof fn lemma_cnt_nonneg(kids: Seq<Seq<usize>>, k: int, i: int)
    ensures
        cnt(kids, k, i) >= 0,
{
    lemma_ind_nonneg(kids.len() as int, k);
    lemma_nonneg(kids, ind(kids.len() as int, k), i);
}

/// With nonnegative weights, a subtree weighs no more than any subtree it lies in.
pub proof fn lemma_reach_le(kids: Seq<Seq<usize>>, w: Seq<int>, k: int, i: int)
    requires
        nonneg(w),
        w.len() == kids.len(),
        cnt(kids, k, i) > 0,
    ensures
        sub_sum(kids, w, k) <= sub_sum(kids, w, i),
    decreases kids.len() - i,
{
    lemma_reach_above(kids, k, i);
    if i != k {
        let e = ind(kids.len() as int, k);
        lemma_unfold(kids, e, i);
        let m = lemma_sum_pos(kids[i], term_fn(kids, e, i));
        let c = kids[i][m];
        lemma_reach_le(kids, w, k, c as int);
        lemma_unfold(kids, w, i);
        let f = term_fn(kids, w, i);
        assert forall|j: int| 0 <= j < kids[i].len() implies #[trigger] f(kids[i][j]) >= 0 by {
            let x = kids[i][j];
            if i < x < kids.len() {
                lemma_nonneg(kids, w, x as int);
            }
        }
        lemma_term_le_sum(kids[i], f, m);
    }
}

/// Every node reaches itself.
pub proof fn lemma_cnt_self(kids: Seq<Seq<usize>>, i: int)
    requires
        0 <= i < kids.len(),
    ensures
        cnt(kids, i, i) >= 1,
{
    let w = ind(kids.len() as int, i);
    lemma_unfold(kids, w, i);
    let f = term_fn(kids, w, i);
    assert forall|j: int| 0 <= j < kids[i].len() implies #[trigger] f(kids[i][j]) >= 0 by {
        lemma_cnt_nonneg(kids, i, kids[i][j] as int);
    }
    lemma_sum_nonneg(kids[i], f);
}

/// Whatever `i` reaches lies at or above `i`.
pub proof fn lemma_reach_above(kids: Seq<Seq<usize>>, k: int, i: int)
    requires
        cnt(kids, k, i) > 0,
    ensures
        0 <= i <= k,
        0 <= k < kids.len(),
    decreases kids.len() - i,
{
    let w = ind(kids.len() as int, k);
    lemma_unfold(kids, w, i);
    if i != k {
        let f = term_fn(kids, w, i);
        let j = lemma_sum_pos(kids[i], f);
        let c = kids[i][j];
        lemma_reach_above(kids, k, c as int);
    }
}

/// Following parent links only goes down in index.
pub proof fn lemma_anc_le(parents: Seq<Option<usize>>, a: int, b: int)
    requires
        anc(parents, a, b),
    ensures
        a <= b,
    decreases b,
{
    if a != b {
        lemma_anc_le(parents, a, parents[b].unwrap() as int);
    }
}

/// One step up from the top of a chain.
pub proof fn lemma_anc_up(parents: Seq<Option<usize>>, c: int, k: int, i: int)
    requires
        anc(parents, c, k),
        0 <= c < parents.len(),
        parents[c] is Some,
        parents[c].unwrap() as int == i,
        0 <= i < c,
    ensures
        anc(parents, i, k),
    decreases k,
{
    if c == k {
        assert(anc(parents, i, i));
    } else {
        lemma_anc_le(parents, c, k);
        lemma_anc_up(parents, c, parents[k].unwrap() as int, i);
    }
}

pub proof fn lemma_anc_trans(parents: Seq<Option<usize>>, a: int, b: int, c: int)
    requires
        anc(parents, a, b),
        anc(parents, b, c),
    ensures
        anc(parents, a, c),
    decreases c,
{
    if b != c {
        lemma_anc_trans(parents, a, b, parents[c].unwrap() as int);
    }
}

/// Two nodes on the parent chain of `k` lie on one chain.
pub proof fn lemma_anc_linear(parents: Seq<Option<usize>>, a: int, b: int, k: int)
    requires
        anc(parents, a, k),
        anc(parents, b, k),
    ensures
        anc(parents, a, b) || anc(parents, b, a),
    decreases k,
{
    if a != k && b != k {
        lemma_anc_linear(parents, a, b, parents[k].unwrap() as int);
    }
}

/// What `i` reaches through children lists lies on the parent chain below `i`.
pub proof fn lemma_reach_anc(kids: Seq<Seq<usize>>, parents: Seq<Option<usize>>, k: int, i: int)
    requires
        shaped(kids, parents),
        cnt(kids, k, i) > 0,
    ensures
        anc(parents, i, k),
    decreases kids.len() - i,
{
    let w = ind(kids.len() as int, k);
    lemma_reach_above(kids, k, i);
    lemma_unfold(kids, w, i);
    if i != k {
        let f = term_fn(kids, w, i);
        let j = lemma_sum_pos(kids[i], f);
        let c = kids[i][j];
        lemma_reach_anc(kids, parents, k, c as int);
        lemma_anc_up(parents, c as int, k, i);
    }
}

/// A node is reached at most once from any node.
pub proof fn lemma_cnt_le_one(kids: Seq<Seq<usize>>, parents: Seq<Option<usize>>, k: int, i: int)
    requires
        shaped(kids, parents),
    ensures
        0 <= cnt(kids, k, i) <= 1,
    decreases kids.len() - i,
{
    lemma_cnt_nonneg(kids, k, i);
    if 0 <= i < kids.len() {
        let w = ind(kids.len() as int, k);
        lemma_unfold(kids, w, i);
        let s = kids[i];
        let f = term_fn(kids, w, i);
        if i == k {
            assert forall|j: int| 0 <= j < s.len() implies #[trigger] f(s[j]) == 0 by {
                let c = s[j];
                lemma_cnt_nonneg(kids, k, c as int);
                if cnt(kids, k, c as int) > 0 {
                    lemma_reach_above(kids, k, c as int);
                }
            }
            lemma_sum_zero(s, f);
        } else {
            assert forall|j: int| 0 <= j < s.len() implies 0 <= #[trigger] f(s[j]) <= 1 by {
                lemma_cnt_le_one(kids, parents, k, s[j] as int);
            }
            assert forall|a: int, b: int|
                0 <= a < s.len() && 0 <= b < s.len() && a != b && #[trigger] f(s[a]) > 0 implies #[trigger] f(
                    s[b],
                ) == 0 by {
                let c1 = s[a] as int;
                let c2 = s[b] as int;
                lemma_cnt_nonneg(kids, k, c2);
                if f(s[b]) > 0 {
                    assert(c1 != c2);
                    lemma_reach_anc(kids, parents, k, c1);
                    lemma_reach_anc(kids, parents, k, c2);
                    lemma_anc_linear(parents, c1, c2, k);
                    if anc(parents, c1, c2) {
                        lemma_anc_le(parents, c1, i);
                    } else {
                        lemma_anc_le(parents, c2, i);
                    }
                }
            }
            lemma_sum_at_most_one(s, f);
        }
    }
}

/// Being listed as a child of `p` means being reached at least as often as `p`.
pub proof fn lemma_cnt_child(
    kids: Seq<Seq<usize>>,
    parents: Seq<Option<usize>>,
    p: int,
    m: int,
    i: int,
)
    requires
        shaped(kids, parents),
        0 <= p < kids.len(),
        0 <= m < kids[p].len(),
    ensures
        cnt(kids, kids[p][m] as int, i) >= cnt(kids, p, i),
    decreases kids.len() - i,
{
    let k = kids[p][m] as int;
    if 0 <= i < kids.len() {
        let wk = ind(kids.len() as int, k);
        let wp = ind(kids.len() as int, p);
        lemma_unfold(kids, wk, i);
        lemma_unfold(kids, wp, i);
        let s = kids[i];
        let fk = term_fn(kids, wk, i);
        let fp = term_fn(kids, wp, i);
        lemma_ind_nonneg(kids.len() as int, k);
        assert forall|j: int| 0 <= j < s.len() implies #[trigger] fk(s[j]) >= 0 by {
            lemma_cnt_nonneg(kids, k, s[j] as int);
        }
        if i == p {
            lemma_term_le_sum(s, fk, m);
            lemma_unfold(kids, wk, k);
            lemma_nonneg(kids, wk, k);
            assert forall|j: int| 0 <= j < kids[k].len() implies #[trigger] term_fn(kids, wk, k)(
                kids[k][j],
            ) >= 0 by {
                lemma_cnt_nonneg(kids, k, kids[k][j] as int);
            }
            lemma_sum_nonneg(kids[k], term_fn(kids, wk, k));
            lemma_cnt_le_one(kids, parents, p, p);
        } else {
            assert forall|j: int| 0 <= j < s.len() implies #[trigger] fp(s[j]) <= fk(s[j]) by {
                lemma_cnt_child(kids, parents, p, m, s[j] as int);
            }
            lemma_sum_mono(s, fp, fk);
        }
    }
}

/// In an attached tree, every node on the parent chain of `k` reaches `k`.
pub proof fn lemma_anc_reach(kids: Seq<Seq<usize>>, parents: Seq<Option<usize>>, i: int, k: int)
    requires
        shaped(kids, parents),
        attached(kids, parents),
        anc(parents, i, k),
        0 <= k < kids.len(),
    ensures
        cnt(kids, k, i) == 1,
    decreases k,
{
    lemma_cnt_le_one(kids, parents, k, i);
    if i == k {
        let w = ind(kids.len() as int, k);
        lemma_unfold(kids, w, k);
        let f = term_fn(kids, w, k);
        assert forall|j: int| 0 <= j < kids[k].len() implies #[trigger] f(kids[k][j]) >= 0 by {
            lemma_cnt_nonneg(kids, k, kids[k][j] as int);
        }
        lemma_sum_nonneg(kids[k], f);
    } else {
        let p = parents[k].unwrap() as int;
        lemma_anc_reach(kids, parents, i, p);
        let m = choose|m: int| 0 <= m < kids[p].len() && kids[p][m] as int == k;
        lemma_cnt_child(kids, parents, p, m, i);
    }
}

/// Whatever lies on a chain between `i` and a node `k` that `i` reaches is
/// reached from `i` and reaches `k`.
pub proof fn lemma_reach_between(
    kids: Seq<Seq<usize>>,
    parents: Seq<Option<usize>>,
    k: int,
    i: int,
    j: int,
)
    requires
        shaped(kids, parents),
        cnt(kids, k, i) > 0,
        anc(parents, i, j),
        anc(parents, j, k),
    ensures
        cnt(kids, k, j) > 0,
    decreases kids.len() - i,
{
    lemma_reach_above(kids, k, i);
    if i != j {
        lemma_anc_le(parents, i, j);
        lemma_anc_le(parents, j, k);
        let w = ind(kids.len() as int, k);
        lemma_unfold(kids, w, i);
        let f = term_fn(kids, w, i);
        let m = lemma_sum_pos(kids[i], f);
        let c = kids[i][m] as int;
        lemma_reach_anc(kids, parents, k, c);
        lemma_anc_linear(parents, c, j, k);
        if !anc(parents, c, j) {
            lemma_anc_le(parents, j, i);
        }
        lemma_reach_between(kids, parents, k, c, j);
    }
}

/// A node reached from `i`, other than `i`, is listed by its parent, which
/// `i` reaches too.
pub proof fn lemma_listed(kids: Seq<Seq<usize>>, parents: Seq<Option<usize>>, k: int, i: int)
    requires
        shaped(kids, parents),
        cnt(kids, k, i) > 0,
        i != k,
    ensures
        0 <= k < parents.len(),
        parents[k] is Some,
        kids[parents[k].unwrap() as int].contains(k as usize),
        cnt(kids, parents[k].unwrap() as int, i) > 0,
    decreases kids.len() - i,
{
    let w = ind(kids.len() as int, k);
    lemma_reach_above(kids, k, i);
    lemma_unfold(kids, w, i);
    let f = term_fn(kids, w, i);
    let m = lemma_sum_pos(kids[i], f);
    let c = kids[i][m] as int;
    let q = parents[k].unwrap() as int;
    if c == k {
        assert(kids[i][m] == k as usize);
        let wi = ind(kids.len() as int, i);
        lemma_unfold(kids, wi, i);
        assert forall|j: int| 0 <= j < kids[i].len() implies #[trigger] term_fn(kids, wi, i)(kids[i][j])
            >= 0 by {
            lemma_cnt_nonneg(kids, i, kids[i][j] as int);
        }
        lemma_sum_nonneg(kids[i], term_fn(kids, wi, i));
    } else {
        lemma_listed(kids, parents, k, c);
        let wq = ind(kids.len() as int, q);
        lemma_unfold(kids, wq, i);
        let fq = term_fn(kids, wq, i);
        assert forall|j: int| 0 <= j < kids[i].len() implies #[trigger] fq(kids[i][j]) >= 0 by {
            lemma_cnt_nonneg(kids, q, kids[i][j] as int);
        }
        lemma_term_le_sum(kids[i], fq, m);
        lemma_ind_nonneg(kids.len() as int, q);
    }
}

/// Changing one node's weight by `d` changes each subtree sum by `d` for
/// every time the subtree reaches that node.
pub proof fn lemma_weight_change(
    kids: Seq<Seq<usize>>,
    w: Seq<int>,
    w2: Seq<int>,
    k: int,
    d: int,
    i: int,
)
    requires
        w.len() == kids.len(),
        0 <= k < kids.len(),
        w2 == w.update(k, w[k] + d),
    ensures
        sub_sum(kids, w2, i) == sub_sum(kids, w, i) + d * cnt(kids, k, i),
    decreases kids.len() - i,
{
    if 0 <= i < kids.len() {
        let e = ind(kids.len() as int, k);
        lemma_unfold(kids, w, i);
        lemma_unfold(kids, w2, i);
        lemma_unfold(kids, e, i);
        let s = kids[i];
        let f = term_fn(kids, w, i);
        let f2 = term_fn(kids, w2, i);
        let fe = term_fn(kids, e, i);
        let g = |c: usize| d * fe(c);
        assert forall|j: int| 0 <= j < s.len() implies #[trigger] f2(s[j]) == f(s[j]) + g(s[j]) by {
            if i < s[j] < kids.len() {
                lemma_weight_change(kids, w, w2, k, d, s[j] as int);
            }
        }
        lemma_sum_add(s, f, g, f2);
        lemma_sum_scale(s, fe, g, d);
        let a = e[i];
        let b = sum_over(s, fe);
        assert(d * (a + b) == d * a + d * b) by (nonlinear_arith);
    }
}

/// Appending a new leaf of weight 0 under `p` changes no subtree sum.
pub proof fn lemma_add_leaf(
    kids: Seq<Seq<usize>>,
    w: Seq<int>,
    kids2: Seq<Seq<usize>>,
    w2: Seq<int>,
    p: int,
    i: int,
)
    requires
        0 <= p < kids.len(),
        kids.len() < usize::MAX,
        kids2 == kids.update(p, kids[p].push(kids.len() as usize)).push(Seq::<usize>::empty()),
        w.len() == kids.len(),
        w2.len() == kids.len() + 1,
        forall|j: int| 0 <= j < kids.len() ==> #[trigger] w2[j] == w[j],
        w2[kids.len() as int] == 0,
    ensures
        sub_sum(kids2, w2, i) == sub_sum(kids, w, i),
    decreases kids2.len() - i,
{
    let n = kids.len() as int;
    if i == n {
        lemma_unfold(kids2, w2, i);
        assert(kids2[i].len() == 0);
    } else if 0 <= i < n {
        lemma_unfold(kids, w, i);
        lemma_unfold(kids2, w2, i);
        let f = term_fn(kids, w, i);
        let f2 = term_fn(kids2, w2, i);
        assert forall|j: int| 0 <= j < kids[i].len() implies #[trigger] f2(kids[i][j]) == f(kids[i][j]) by {
            let c = kids[i][j];
            if i < c && c <= n {
                lemma_add_leaf(kids, w, kids2, w2, p, c as int);
            }
        }
        lemma_sum_ext(kids[i], f2, f);
        if i == p {
            lemma_sum_push(kids[p], n as usize, f2);
            lemma_add_leaf(kids, w, kids2, w2, p, n);
            assert(f2(n as usize) == 0);
        } else {
            assert(kids2[i] == kids[i]);
        }
    }
}

/// Dropping child `c` from `p`'s list takes `c`'s subtree sum off every
/// subtree that reaches `p`.
pub proof fn lemma_detach(
    kids: Seq<Seq<usize>>,
    parents: Seq<Option<usize>>,
    w: Seq<int>,
    p: int,
    c: usize,
    kids2: Seq<Seq<usize>>,
    i: int,
)
    requires
        shaped(kids, parents),
        0 <= p < kids.len(),
        kids[p].contains(c),
        kids2 == kids.update(p, without(kids[p], c)),
    ensures
        sub_sum(kids2, w, i) == sub_sum(kids, w, i) - cnt(kids, p, i) * sub_sum(kids, w, c as int),
    decreases kids.len() - i,
{
    if 0 <= i < kids.len() {
        let e = ind(kids.len() as int, p);
        let big = sub_sum(kids, w, c as int);
        lemma_unfold(kids, w, i);
        lemma_unfold(kids2, w, i);
        lemma_unfold(kids, e, i);
        let f = term_fn(kids, w, i);
        let f2 = term_fn(kids2, w, i);
        let fe = term_fn(kids, e, i);
        if i == p {
            let s2 = kids2[p];
            assert forall|j: int| 0 <= j < s2.len() implies #[trigger] f2(s2[j]) == f(s2[j]) by {
                let x = s2[j];
                assert(without(kids[p], c)[j] == x);
                lemma_without_contains(kids[p], c, x);
                let m = choose|m: int| 0 <= m < kids[p].len() && kids[p][m] == x;
                assert(kids[p][m] == x);
                lemma_detach(kids, parents, w, p, c, kids2, x as int);
                lemma_cnt_nonneg(kids, p, x as int);
                if cnt(kids, p, x as int) > 0 {
                    lemma_reach_above(kids, p, x as int);
                }
                let q = cnt(kids, p, x as int);
                assert(q * big == 0) by (nonlinear_arith)
                    requires
                        q == 0,
                ;
                assert(p < x < kids.len());
                assert(kids2.len() == kids.len());
            }
            lemma_sum_ext(s2, f2, f);
            lemma_sum_remove(kids[p], c, f);
            let m = choose|m: int| 0 <= m < kids[p].len() && kids[p][m] == c;
            assert(kids[p][m] == c);
            lemma_cnt_le_one(kids, parents, p, p);
            lemma_unfold(kids, e, p);
            assert forall|j: int| 0 <= j < kids[p].len() implies #[trigger] fe(kids[p][j]) >= 0 by {
                lemma_cnt_nonneg(kids, p, kids[p][j] as int);
            }
            lemma_sum_nonneg(kids[p], fe);
            assert(e[p] == 1);
            assert(cnt(kids, p, p) == 1);
            assert(p < c < kids.len());
            assert(f(c) == big);
            assert(cnt(kids, p, i) * big == big) by (nonlinear_arith)
                requires
                    cnt(kids, p, i) == 1,
            ;
        } else {
            let s = kids[i];
            let g = |x: usize| (-big) * fe(x);
            assert forall|j: int| 0 <= j < s.len() implies #[trigger] f2(s[j]) == f(s[j]) + g(s[j]) by {
                lemma_detach(kids, parents, w, p, c, kids2, s[j] as int);
                let q = cnt(kids, p, s[j] as int);
                assert((-big) * q == -(q * big)) by (nonlinear_arith);
            }
            lemma_sum_add(s, f, g, f2);
            lemma_sum_scale(s, fe, g, -big);
            let b = sum_over(s, fe);
            assert(e[i] == 0);
            assert(cnt(kids, p, i) == b);
            assert((-big) * b == -(b * big)) by (nonlinear_arith);
        }
    } else {
        assert(cnt(kids, p, i) == 0);
        assert(0 * sub_sum(kids, w, c as int) == 0);
    }
}

} // verus!
