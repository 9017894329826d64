//! Finite sums over integer ranges and the rules for rearranging them.
use vstd::arithmetic::div_mod::*;
use vstd::prelude::*;

verus! {

/// `sum_{lo <= j < hi} f(j)`
pub open spec fn sum(lo: int, hi: int, f: spec_fn(int) -> int) -> int
    decreases hi - lo,
{
    if hi <= lo {
        0
    } else {
        sum(lo, hi - 1, f) + f(hi - 1)
    }
}

/// A sum splits at any point of its range.
pub proof fn lemma_sum_split(lo: int, mid: int, hi: int, f: spec_fn(int) -> int)
    requires
        lo <= mid <= hi,
    ensures
        sum(lo, hi, f) == sum(lo, mid, f) + sum(mid, hi, f),
    decreases hi - mid,
{
    if hi > mid {
        lemma_sum_split(lo, mid, hi - 1, f);
    }
}

/// Sums of functions that agree on the range are equal.
pub proof fn lemma_sum_ext(lo: int, hi: int, f: spec_fn(int) -> int, g: spec_fn(int) -> int)
    requires
        forall|j: int| lo <= j < hi ==> #[trigger] f(j) == g(j),
    ensures
        sum(lo, hi, f) == sum(lo, hi, g),
    decreases hi - lo,
{
    if hi > lo {
        lemma_sum_ext(lo, hi - 1, f, g);
    }
}

/// Shifting the range: `sum_{lo <= j < hi} g(j) == sum_{lo+s <= j < hi+s} f(j)` where `g(j) == f(j + s)`.
pub proof fn lemma_sum_shift(lo: int, hi: int, s: int, f: spec_fn(int) -> int, g: spec_fn(int) -> int)
    requires
        forall|j: int| lo <= j < hi ==> #[trigger] g(j) == f(j + s),
    ensures
        sum(lo, hi, g) == sum(lo + s, hi + s, f),
    decreases hi - lo,
{
    if hi > lo {
        lemma_sum_shift(lo, hi - 1, s, f, g);
    }
}

/// The sum of a pointwise sum is the sum of the sums.
pub proof fn lemma_sum_add(
    lo: int,
    hi: int,
    f: spec_fn(int) -> int,
    g: spec_fn(int) -> int,
    h: spec_fn(int) -> int,
)
    requires
        forall|j: int| lo <= j < hi ==> #[trigger] h(j) == f(j) + g(j),
    ensures
        sum(lo, hi, h) == sum(lo, hi, f) + sum(lo, hi, g),
    decreases hi - lo,
{
    if hi > lo {
        lemma_sum_add(lo, hi - 1, f, g, h);
    }
}

/// Sums of functions congruent modulo `p` on the range are congruent.
pub proof fn lemma_sum_mod(lo: int, hi: int, p: int, f: spec_fn(int) -> int, g: spec_fn(int) -> int)
    requires
        p > 0,
        forall|j: int| lo <= j < hi ==> #[trigger] f(j) % p == g(j) % p,
    ensures
        sum(lo, hi, f) % p == sum(lo, hi, g) % p,
    decreases hi - lo,
{
    if hi > lo {
        lemma_sum_mod(lo, hi - 1, p, f, g);
        lemma_add_mod_noop(sum(lo, hi - 1, f), f(hi - 1), p);
        lemma_add_mod_noop(sum(lo, hi - 1, g), g(hi - 1), p);
    }
}

/// A constant factor comes out of a sum.
pub proof fn lemma_sum_scale(lo: int, hi: int, c: int, f: spec_fn(int) -> int, g: spec_fn(int) -> int)
    requires
        forall|j: int| lo <= j < hi ==> #[trigger] g(j) == c * f(j),
    ensures
        sum(lo, hi, g) == c * sum(lo, hi, f),
    decreases hi - lo,
{
    if hi > lo {
        lemma_sum_scale(lo, hi - 1, c, f, g);
        assert(c * sum(lo, hi - 1, f) + c * f(hi - 1) == c * (sum(lo, hi - 1, f) + f(hi - 1)))
            by (nonlinear_arith);
    }
}

/// A sum of a constant is the constant times the length of the range.
pub proof fn lemma_sum_const(lo: int, hi: int, c: int, f: spec_fn(int) -> int)
    requires
        lo <= hi,
        forall|j: int| lo <= j < hi ==> #[trigger] f(j) == c,
    ensures
        sum(lo, hi, f) == c * (hi - lo),
    decreases hi - lo,
{
    if hi > lo {
        lemma_sum_const(lo, hi - 1, c, f);
        assert(c * (hi - 1 - lo) + c == c * (hi - lo)) by (nonlinear_arith);
    } else {
        assert(c * (hi - lo) == 0) by (nonlinear_arith)
            requires
                hi == lo,
        ;
    }
}

/// A sum whose terms vanish outside one index `t` is its term at `t`.
pub proof fn lemma_sum_single(lo: int, hi: int, t: int, f: spec_fn(int) -> int)
    requires
        lo <= t < hi,
        forall|j: int| lo <= j < hi && j != t ==> #[trigger] f(j) == 0,
    ensures
        sum(lo, hi, f) == f(t),
{
    lemma_sum_split(lo, t, hi, f);
    lemma_sum_const(lo, t, 0, f);
    lemma_sum_split(t, t + 1, hi, f);
    lemma_sum_const(t + 1, hi, 0, f);
    assert(sum(t, t + 1, f) == sum(t, t, f) + f(t));
}

/// A sum over `[0, 2h)` pairs the terms `j` and `j + h`.
pub proof fn lemma_sum_halves(h: int, f: spec_fn(int) -> int, g: spec_fn(int) -> int)
    requires
        h >= 0,
        forall|j: int| 0 <= j < h ==> #[trigger] g(j) == f(j) + f(j + h),
    ensures
        sum(0, 2 * h, f) == sum(0, h, g),
{
    let s = |j: int| f(j + h);
    lemma_sum_split(0, h, 2 * h, f);
    lemma_sum_shift(0, h, h, f, s);
    lemma_sum_add(0, h, f, s, g);
}

/// Exchanging the order of a double sum.
pub proof fn lemma_sum_swap(n: int, m: int, a: spec_fn(int, int) -> int)
    requires
        n >= 0,
        m >= 0,
    ensures
        sum(0, n, |s: int| sum(0, m, |l: int| a(s, l))) == sum(
            0,
            m,
            |l: int| sum(0, n, |s: int| a(s, l)),
        ),
    decreases n,
{
    if n > 0 {
        lemma_sum_swap(n - 1, m, a);
        let prev = |l: int| sum(0, n - 1, |s: int| a(s, l));
        let last = |l: int| a(n - 1, l);
        let whole = |l: int| sum(0, n, |s: int| a(s, l));
        assert forall|l: int| 0 <= l < m implies #[trigger] whole(l) == prev(l) + last(l) by {
            assert(sum(0, n, |s: int| a(s, l)) == sum(0, n - 1, |s: int| a(s, l)) + a(n - 1, l));
        }
        lemma_sum_add(0, m, prev, last, whole);
        let outer = |s: int| sum(0, m, |l: int| a(s, l));
        assert(sum(0, n, outer) == sum(0, n - 1, outer) + outer(n - 1));
        lemma_sum_ext(0, m, |l: int| a(n - 1, l), last);
        assert(outer(n - 1) == sum(0, m, last));
        assert(sum(0, n - 1, outer) == sum(0, m, prev));
        assert(sum(0, n, outer) == sum(0, m, whole));
    } else {
        lemma_sum_const(0, m, 0, |l: int| sum(0, n, |s: int| a(s, l)));
    }
}

} // verus!
