use vstd::prelude::*;

verus! {

/// The sum of `f` over the elements of `s`, in order.
pub open spec fn sum_over(s: Seq<usize>, f: spec_fn(usize) -> int) -> int
    decreases s.len(),
{
    if s.len() == 0 {
        0
    } else {
        sum_over(s.drop_last(), f) + f(s.last())
    }
}

pub proof fn lemma_sum_push(s: Seq<usize>, x: usize, f: spec_fn(usize) -> int)
    ensures
        sum_over(s.push(x), f) == sum_over(s, f) + f(x),
{
    assert(s.push(x).drop_last() =~= s);
}

/// Two functions that agree on `s` have the same sum over it.
pub proof fn lemma_sum_ext(s: Seq<usize>, f: spec_fn(usize) -> int, g: spec_fn(usize) -> int)
    requires
        forall|j: int| 0 <= j < s.len() ==> f(#[trigger] s[j]) == g(s[j]),
    ensures
        sum_over(s, f) == sum_over(s, g),
    decreases s.len(),
{
    if s.len() > 0 {
        lemma_sum_ext(s.drop_last(), f, g);
    }
}

/// A sum is monotone in its terms.
pub proof fn lemma_sum_mono(s: Seq<usize>, f: spec_fn(usize) -> int, g: spec_fn(usize) -> int)
    requires
        forall|j: int| 0 <= j < s.len() ==> f(#[trigger] s[j]) <= g(s[j]),
    ensures
        sum_over(s, f) <= sum_over(s, g),
    decreases s.len(),
{
    if s.len() > 0 {
        lemma_sum_mono(s.drop_last(), f, g);
    }
}

pub proof fn lemma_sum_nonneg(s: Seq<usize>, f: spec_fn(usize) -> int)
    requires
        forall|j: int| 0 <= j < s.len() ==> f(#[trigger] s[j]) >= 0,
    ensures
        sum_over(s, f) >= 0,
    decreases s.len(),
{
    if s.len() > 0 {
        lemma_sum_nonneg(s.drop_last(), f);
    }
}

/// The sum of a pointwise sum of terms is the sum of the two sums.
pub proof fn lemma_sum_add(
    s: Seq<usize>,
    f: spec_fn(usize) -> int,
    g: spec_fn(usize) -> int,
    h: spec_fn(usize) -> int,
)
    requires
        forall|j: int| 0 <= j < s.len() ==> h(#[trigger] s[j]) == f(s[j]) + g(s[j]),
    ensures
        sum_over(s, h) == sum_over(s, f) + sum_over(s, g),
    decreases s.len(),
{
    if s.len() > 0 {
        lemma_sum_add(s.drop_last(), f, g, h);
    }
}

/// Scaling every term scales the sum.
pub proof fn lemma_sum_scale(s: Seq<usize>, f: spec_fn(usize) -> int, g: spec_fn(usize) -> int, d: int)
    requires
        forall|j: int| 0 <= j < s.len() ==> g(#[trigger] s[j]) == d * f(s[j]),
    ensures
        sum_over(s, g) == d * sum_over(s, f),
    decreases s.len(),
{
    if s.len() > 0 {
        lemma_sum_scale(s.drop_last(), f, g, d);
        let a = sum_over(s.drop_last(), f);
        let b = f(s.last());
        assert(d * (a + b) == d * a + d * b) by (nonlinear_arith);
    }
}

/// A single nonnegative term is at most the sum of nonnegative terms.
pub proof fn lemma_term_le_sum(s: Seq<usize>, f: spec_fn(usize) -> int, k: int)
    requires
        0 <= k < s.len(),
        forall|j: int| 0 <= j < s.len() ==> f(#[trigger] s[j]) >= 0,
    ensures
        f(s[k]) <= sum_over(s, f),
    decreases s.len(),
{
    lemma_sum_nonneg(s.drop_last(), f);
    if k < s.len() - 1 {
        lemma_term_le_sum(s.drop_last(), f, k);
    }
}

/// A positive sum has a positive term.
pub proof fn lemma_sum_pos(s: Seq<usize>, f: spec_fn(usize) -> int) -> (k: int)
    requires
        sum_over(s, f) > 0,
    ensures
        0 <= k < s.len(),
        f(s[k]) > 0,
    decreases s.len(),
{
    if f(s.last()) > 0 {
        (s.len() - 1) as int
    } else {
        lemma_sum_pos(s.drop_last(), f)
    }
}

/// All terms are zero: the sum is zero.
pub proof fn lemma_sum_zero(s: Seq<usize>, f: spec_fn(usize) -> int)
    requires
        forall|j: int| 0 <= j < s.len() ==> f(#[trigger] s[j]) == 0,
    ensures
        sum_over(s, f) == 0,
    decreases s.len(),
{
    if s.len() > 0 {
        lemma_sum_zero(s.drop_last(), f);
    }
}

/// Terms in {0, 1} of which at most one is positive sum to at most 1.
pub proof fn lemma_sum_at_most_one(s: Seq<usize>, f: spec_fn(usize) -> int)
    requires
        forall|j: int| 0 <= j < s.len() ==> 0 <= #[trigger] f(s[j]) <= 1,
        forall|a: int, b: int|
            0 <= a < s.len() && 0 <= b < s.len() && a != b && #[trigger] f(s[a]) > 0 ==> #[trigger] f(
                s[b],
            ) == 0,
    ensures
        0 <= sum_over(s, f) <= 1,
        sum_over(s, f) == 0 <==> (forall|j: int| 0 <= j < s.len() ==> #[trigger] f(s[j]) == 0),
    decreases s.len(),
{
    if s.len() > 0 {
        let t = s.drop_last();
        assert forall|a: int, b: int|
            0 <= a < t.len() && 0 <= b < t.len() && a != b && #[trigger] f(t[a]) > 0 implies #[trigger] f(
                t[b],
            ) == 0 by {
            assert(t[a] == s[a] && t[b] == s[b]);
        }
        lemma_sum_at_most_one(t, f);
        let l = s.len() - 1;
        assert forall|j: int| 0 <= j < t.len() implies #[trigger] t[j] == s[j] by {}
        if f(s[l]) > 0 {
            assert forall|j: int| 0 <= j < t.len() implies #[trigger] f(t[j]) == 0 by {
                assert(t[j] == s[j]);
            }
        }
        if sum_over(s, f) == 0 {
            assert forall|j: int| 0 <= j < s.len() implies #[trigger] f(s[j]) == 0 by {
                if j < l {
                    assert(f(t[j]) == 0);
                }
            }
        }
        if forall|j: int| 0 <= j < s.len() ==> #[trigger] f(s[j]) == 0 {
            assert(f(s[l]) == 0);
            assert forall|j: int| 0 <= j < t.len() implies #[trigger] f(t[j]) == 0 by {
                assert(f(s[j]) == 0);
            }
        }
    }
}

/// `s` with every occurrence of `c` taken out.
pub open spec fn without(s: Seq<usize>, c: usize) -> Seq<usize> {
    s.filter(|x: usize| x != c)
}

/// Taking `c` out of a list with one more element at the end.
pub proof fn lemma_without_push(s: Seq<usize>, x: usize, c: usize)
    ensures
        without(s.push(x), c) == if x != c {
            without(s, c).push(x)
        } else {
            without(s, c)
        },
{
    reveal_with_fuel(Seq::filter, 1);
    assert(s.push(x).drop_last() =~= s);
}

/// Taking out what is not there changes nothing.
pub proof fn lemma_without_absent(s: Seq<usize>, c: usize)
    requires
        !s.contains(c),
    ensures
        without(s, c) == s,
    decreases s.len(),
{
    reveal_with_fuel(Seq::filter, 1);
    if s.len() > 0 {
        let t = s.drop_last();
        assert(!t.contains(c)) by {
            if t.contains(c) {
                let j = choose|j: int| 0 <= j < t.len() && t[j] == c;
                assert(s[j] == c);
            }
        }
        lemma_without_absent(t, c);
        assert(s[s.len() - 1] != c);
        assert(t.push(s.last()) =~= s);
    } else {
        assert(without(s, c) =~= s);
    }
}

/// Taking an element out keeps a list free of duplicates.
pub proof fn lemma_without_no_dup(s: Seq<usize>, c: usize)
    requires
        s.no_duplicates(),
    ensures
        without(s, c).no_duplicates(),
    decreases s.len(),
{
    reveal_with_fuel(Seq::filter, 1);
    if s.len() > 0 {
        let t = s.drop_last();
        assert(t.no_duplicates());
        lemma_without_no_dup(t, c);
        let x = s.last();
        if x != c {
            let r = without(t, c);
            assert(!r.contains(x)) by {
                if r.contains(x) {
                    let j = choose|j: int| 0 <= j < r.len() && r[j] == x;
                    lemma_without_contains(t, c, x);
                    let m = choose|m: int| 0 <= m < t.len() && t[m] == x;
                    assert(s[m] == s[s.len() - 1]);
                }
            }
            assert forall|a: int, b: int|
                0 <= a < r.push(x).len() && 0 <= b < r.push(x).len() && a != b implies r.push(x)[a] != r.push(
                    x,
                )[b] by {
                if a < r.len() && b < r.len() {
                } else if a < r.len() {
                    assert(r[a] != x);
                } else if b < r.len() {
                    assert(r[b] != x);
                }
            }
        }
    }
}

/// What is left after taking `c` out was there before.
pub proof fn lemma_without_contains(s: Seq<usize>, c: usize, x: usize)
    requires
        without(s, c).contains(x),
    ensures
        s.contains(x),
        x != c,
    decreases s.len(),
{
    reveal_with_fuel(Seq::filter, 1);
    if s.len() > 0 {
        let t = s.drop_last();
        if s.last() != c && x == s.last() {
            assert(s[s.len() - 1] == x);
        } else {
            if s.last() != c {
                let j = choose|j: int| 0 <= j < without(s, c).len() && without(s, c)[j] == x;
                assert(without(s, c) == without(t, c).push(s.last()));
                assert(j < without(t, c).len());
                assert(without(t, c)[j] == x);
            }
            lemma_without_contains(t, c, x);
            let j = choose|j: int| 0 <= j < t.len() && t[j] == x;
            assert(s[j] == x);
        }
    }
}

/// Removing the one occurrence of `c` from a list without duplicates takes `f(c)` off the sum.
pub proof fn lemma_sum_remove(s: Seq<usize>, c: usize, f: spec_fn(usize) -> int)
    requires
        s.no_duplicates(),
    ensures
        sum_over(without(s, c), f) == sum_over(s, f) - (if s.contains(c) {
            f(c)
        } else {
            0
        }),
    decreases s.len(),
{
    reveal_with_fuel(Seq::filter, 1);
    if s.len() > 0 {
        let t = s.drop_last();
        assert(t.no_duplicates());
        lemma_sum_remove(t, c, f);
        if s.last() == c {
            assert(!t.contains(c));
            assert(s.contains(c)) by {
                assert(s[s.len() - 1] == c);
            }
        } else {
            lemma_sum_push(without(t, c), s.last(), f);
            if t.contains(c) {
                assert(s.contains(c)) by {
                    let j = choose|j: int| 0 <= j < t.len() && t[j] == c;
                    assert(s[j] == c);
                }
            } else {
                assert(!s.contains(c)) by {
                    if s.contains(c) {
                        let j = choose|j: int| 0 <= j < s.len() && s[j] == c;
                        assert(j < s.len() - 1);
                        assert(t[j] == c);
                    }
                }
            }
        }
    }
}

} // verus!
