//! A stable merge sort of positions by descending key.
use vstd::prelude::*;

verus! {

/// `x` comes no later than `y`: a larger key first, and among equal keys the
/// smaller position first.
pub open spec fn ranks_before(keys: Seq<u64>, x: usize, y: usize) -> bool {
    keys[x as int] > keys[y as int] || (keys[x as int] == keys[y as int] && x <= y)
}

pub open spec fn sorted_by(keys: Seq<u64>, s: Seq<usize>) -> bool {
    forall|i: int, j: int| 0 <= i < j < s.len() ==> ranks_before(keys, #[trigger] s[i], #[trigger] s[j])
}

pub open spec fn in_range(keys: Seq<u64>, s: Seq<usize>) -> bool {
    forall|i: int| 0 <= i < s.len() ==> #[trigger] s[i] < keys.len()
}

fn copy_range(v: &Vec<usize>, lo: usize, hi: usize) -> (r: Vec<usize>)
    requires
        lo <= hi <= v.len(),
    ensures
        r@ == v@.subrange(lo as int, hi as int),
{
    let mut r: Vec<usize> = Vec::new();
    let mut i = lo;
    while i < hi
        invariant
            lo <= i <= hi <= v.len(),
            r@ == v@.subrange(lo as int, i as int),
        decreases hi - i,
    {
        r.push(v[i]);
        i = i + 1;
        assert(r@ =~= v@.subrange(lo as int, i as int));
    }
    r
}

fn merge(keys: &Vec<u64>, a: &Vec<usize>, b: &Vec<usize>) -> (out: Vec<usize>)
    requires
        in_range(keys@, a@),
        in_range(keys@, b@),
        sorted_by(keys@, a@),
        sorted_by(keys@, b@),
    ensures
        in_range(keys@, out@),
        sorted_by(keys@, out@),
        out@.to_multiset() == a@.to_multiset().add(b@.to_multiset()),
{
    broadcast use vstd::seq_lib::group_to_multiset_ensures, vstd::multiset::group_multiset_axioms;

    let mut out: Vec<usize> = Vec::new();
    let mut i: usize = 0;
    let mut j: usize = 0;
    assert(a@.take(0) =~= Seq::<usize>::empty());
    assert(b@.take(0) =~= Seq::<usize>::empty());
    while i < a.len() || j < b.len()
        invariant
            i <= a.len(),
            j <= b.len(),
            in_range(keys@, a@),
            in_range(keys@, b@),
            sorted_by(keys@, a@),
            sorted_by(keys@, b@),
            in_range(keys@, out@),
            sorted_by(keys@, out@),
            out@.len() == i + j,
            out@.to_multiset() == a@.take(i as int).to_multiset().add(b@.take(j as int).to_multiset()),
            forall|k: int|
                0 <= k < out@.len() ==> (i < a.len() ==> ranks_before(keys@, #[trigger] out@[k], a@[i as int]))
                    && (j < b.len() ==> ranks_before(keys@, out@[k], b@[j as int])),
        decreases a.len() + b.len() - i - j,
    {
        let take_a = if i < a.len() && j < b.len() {
            let x = a[i];
            let y = b[j];
            keys[x] > keys[y] || (keys[x] == keys[y] && x <= y)
        } else {
            i < a.len()
        };
        let ghost before = out@;
        if take_a {
            let x = a[i];
            out.push(x);
            assert(a@.take(i + 1) =~= a@.take(i as int).push(x));
            assert(out@ == before.push(x));
            proof {
                vstd::seq_lib::to_multiset_build(before, x);
                vstd::seq_lib::to_multiset_build(a@.take(i as int), x);
            }
            i = i + 1;
        } else {
            let y = b[j];
            out.push(y);
            assert(b@.take(j + 1) =~= b@.take(j as int).push(y));
            assert(out@ == before.push(y));
            proof {
                vstd::seq_lib::to_multiset_build(before, y);
                vstd::seq_lib::to_multiset_build(b@.take(j as int), y);
            }
            j = j + 1;
        }
        assert(out@.to_multiset() =~= a@.take(i as int).to_multiset().add(b@.take(j as int).to_multiset()));
    }
    assert(a@.take(a.len() as int) =~= a@);
    assert(b@.take(b.len() as int) =~= b@);
    out
}

/// Sorts `v` by `ranks_before`: largest key first, ties by position.
pub fn merge_sort(keys: &Vec<u64>, v: &Vec<usize>) -> (out: Vec<usize>)
    requires
        in_range(keys@, v@),
    ensures
        in_range(keys@, out@),
        sorted_by(keys@, out@),
        out@.to_multiset() == v@.to_multiset(),
    decreases v.len(),
{
    if v.len() <= 1 {
        let out = copy_range(v, 0, v.len());
        assert(out@ =~= v@);
        return out;
    }
    let mid = v.len() / 2;
    let left = copy_range(v, 0, mid);
    let right = copy_range(v, mid, v.len());
    let sl = merge_sort(keys, &left);
    let sr = merge_sort(keys, &right);
    let out = merge(keys, &sl, &sr);
    assert(v@ =~= left@ + right@);
    proof {
        vstd::seq_lib::lemma_multiset_commutative(left@, right@);
    }
    out
}

} // verus!
