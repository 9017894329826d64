//! Properties relating the transforms to one another.
use crate::ntt::fft::{lemma_add_cong, lemma_minus_one_pow, lemma_mul_cong};
use crate::ntt::sums::{
    lemma_sum_const, lemma_sum_ext, lemma_sum_halves, lemma_sum_mod, lemma_sum_scale,
    lemma_sum_single, lemma_sum_swap, sum,
};
use crate::ntt::{dft_entry, dft_term, inv_mod, is_ceil_log2, is_dft, is_inverse_dft, padded};
use crate::num::fp::{is_root_of_unity, Fp};
use crate::num::theory::{lemma_fermat, lemma_pow_one_multiple, lemma_pow_succ};
use crate::ntt::dft::lemma_root_nonzero;
use vstd::arithmetic::div_mod::*;
use vstd::arithmetic::mul::*;
use vstd::arithmetic::power::*;
use vstd::arithmetic::power2::*;
use vstd::prelude::*;

verus! {

/// The exponent of the padded length is unique.
pub proof fn lemma_ceil_log2_unique(i: nat, j: nat, n: nat)
    requires
        is_ceil_log2(i, n),
        is_ceil_log2(j, n),
    ensures
        i == j,
{
    if i < j {
        if i < (j - 1) as nat {
            lemma_pow2_strictly_increases(i, (j - 1) as nat);
        }
    } else if j < i {
        if j < (i - 1) as nat {
            lemma_pow2_strictly_increases(j, (i - 1) as nat);
        }
    }
}

/// Padding a sequence whose length is already a power of two `2^j` uses the
/// exponent `j` and leaves the sequence unchanged.
pub proof fn lemma_pad_power_of_two(x: Seq<u64>, j: nat)
    requires
        x.len() == pow2(j),
    ensures
        is_ceil_log2(j, x.len()),
        padded(x, pow2(j)) == x,
        forall|i: nat| is_ceil_log2(i, x.len()) ==> i == j,
{
    if j > 0 {
        lemma_pow2_strictly_increases((j - 1) as nat, j);
    }
    assert(padded(x, pow2(j)) =~= x);
    assert forall|i: nat| is_ceil_log2(i, x.len()) implies i == j by {
        lemma_ceil_log2_unique(i, j, x.len());
    }
}

/// The naive and the fast core agree: for `x` of length `2^lg` and a rotation
/// `w` with `w^(2^(lg-1)) == -1`, the results that the two cores promise
/// (the quadratic sum, and the recursive halving) are the same sequence.
pub proof fn lemma_cores_agree(fp: Fp, x: Seq<u64>, w: u64, lg: nat, a: Seq<u64>, b: Seq<u64>)
    requires
        fp.wf(),
        x.len() == pow2(lg),
        lg >= 1 ==> pow(w as int, pow2((lg - 1) as nat)) % (fp.p as int) == fp.p - 1,
        is_dft(a, x, w as int, fp.p as int),
        is_dft(b, x, w as int, fp.p as int),
    ensures
        a == b,
{
    assert(a =~= b);
}

/// `DFT::dft` and `FFT::fft` give the same result on the same input, and so
/// do `DFT::idft` and `FFT::ifft`.
pub proof fn lemma_transforms_agree(
    fp: Fp,
    x: Seq<u64>,
    i: nat,
    a: Seq<u64>,
    j: nat,
    b: Seq<u64>,
    inverse: bool,
)
    requires
        fp.wf(),
        is_ceil_log2(i, x.len()),
        is_ceil_log2(j, x.len()),
        !inverse ==> is_dft(a, padded(x, pow2(i)), fp.unity_root(i), fp.p as int) && is_dft(
            b,
            padded(x, pow2(j)),
            fp.unity_root(j),
            fp.p as int,
        ),
        inverse ==> is_inverse_dft(a, padded(x, pow2(i)), fp.unity_root(i), fp.p as int)
            && is_inverse_dft(b, padded(x, pow2(j)), fp.unity_root(j), fp.p as int),
    ensures
        a == b,
{
    lemma_ceil_log2_unique(i, j, x.len());
    assert(a =~= b);
}

/// `s |-> w^(s*d)`
pub open spec fn geo(w: int, d: int) -> spec_fn(int) -> int {
    |s: int| pow(w, (s * d) as nat)
}

/// For `w` with `w^(2^(i-1)) == -1` and `0 < d < 2^i`, the powers
/// `w^(s*d)`, `s < 2^i`, sum to zero modulo `p`.
proof fn lemma_orthogonal(p: int, w: int, i: nat, d: int)
    requires
        p > 1,
        i >= 1,
        pow(w, pow2((i - 1) as nat)) % p == p - 1,
        0 < d < pow2(i),
    ensures
        sum(0, pow2(i) as int, geo(w, d)) % p == 0,
    decreases i,
{
    let h = pow2((i - 1) as nat) as int;
    lemma_pow2_adds(1, (i - 1) as nat);
    lemma_pow2(1);
    lemma_pow1(2);
    assert(pow2(i) == 2 * h);
    let f = geo(w, d);
    let pair = |s: int| f(s) + f(s + h);
    lemma_sum_halves(h, f, pair);
    assert(h * d >= 0) by (nonlinear_arith)
        requires
            h >= 0,
            d >= 0,
    ;
    let q = pow(w, (h * d) as nat);
    lemma_pow_multiplies(w, h as nat, d as nat);
    lemma_minus_one_pow(p, pow(w, h as nat), d as nat);
    assert(q % p == (if d % 2 == 0 {
        1
    } else {
        p - 1
    }));
    assert forall|s: int| 0 <= s < h implies #[trigger] pair(s) == f(s) + f(s) * q by {
        assert(s * d >= 0 && (s + h) * d == s * d + h * d) by (nonlinear_arith)
            requires
                s >= 0,
                d >= 0,
        ;
        lemma_pow_adds(w, (s * d) as nat, (h * d) as nat);
    }
    lemma_small_mod(1, p as nat);
    if d % 2 == 1 {
        lemma_mod_add_multiples_vanish(-1, p);
        lemma_small_mod((p - 1) as nat, p as nat);
        let zero = |s: int| 0int;
        assert forall|s: int| 0 <= s < h implies #[trigger] pair(s) % p == zero(s) % p by {
            lemma_mul_cong(p, f(s), f(s), q, -1);
            lemma_add_cong(p, f(s), f(s), f(s) * q, f(s) * (-1));
            assert(f(s) + f(s) * (-1) == 0) by (nonlinear_arith);
        }
        lemma_sum_mod(0, h, p, pair, zero);
        lemma_sum_const(0, h, 0, zero);
    } else {
        let e = d / 2;
        assert(0 < e < h);
        let w2 = w * w;
        lemma_square_is_pow2(w);
        let lq = (i - 2) as nat;
        lemma_pow2_adds(1, lq);
        lemma_pow_multiplies(w, 2, pow2(lq));
        lemma_orthogonal(p, w2, (i - 1) as nat, e);
        let g = geo(w2, e);
        let double = |s: int| 2 * g(s);
        assert forall|s: int| 0 <= s < h implies #[trigger] pair(s) % p == double(s) % p by {
            assert(s * e >= 0 && s * d == 2 * (s * e)) by (nonlinear_arith)
                requires
                    s >= 0,
                    e >= 0,
                    d == 2 * e,
            ;
            lemma_pow_multiplies(w, 2, (s * e) as nat);
            assert(g(s) == f(s));
            lemma_mul_cong(p, f(s), f(s), q, 1);
            lemma_add_cong(p, f(s), f(s), f(s) * q, f(s) * 1);
        }
        lemma_sum_mod(0, h, p, pair, double);
        lemma_sum_scale(0, h, 2, g, double);
        lemma_mul_mod_noop_right(2, sum(0, h, g), p);
    }
}

/// The powers `w^(s*d)`, `s < 2^i`, of a primitive `2^i`-th root of unity sum
/// to `2^i` when `2^i` divides `d`, and to zero otherwise, modulo `p`.
pub proof fn lemma_geometric_sum(p: int, w: int, i: nat, d: int)
    requires
        p > 1,
        is_root_of_unity(p, w, i),
        d >= 0,
    ensures
        sum(0, pow2(i) as int, geo(w, d)) % p == (if d % (pow2(i) as int) == 0 {
            (pow2(i) as int) % p
        } else {
            0
        }),
{
    let n = pow2(i) as int;
    lemma_pow2_pos(i);
    let r = d % n;
    let qd = d / n;
    lemma_fundamental_div_mod(d, n);
    assert forall|s: int| 0 <= s < n implies #[trigger] geo(w, d)(s) % p == geo(w, r)(s) % p by {
        assert(s * r >= 0 && s * qd >= 0 && s * d == s * r + n * (s * qd)) by (nonlinear_arith)
            requires
                s >= 0,
                r >= 0,
                qd >= 0,
                d == n * qd + r,
        ;
        assert(n * (s * qd) >= 0) by (nonlinear_arith)
            requires
                n >= 0,
                s * qd >= 0,
        ;
        lemma_pow_adds(w, (s * r) as nat, (n * (s * qd)) as nat);
        lemma_pow_one_multiple(p, w, n as nat, (s * qd) as nat);
        assert((n as nat) * ((s * qd) as nat) == (n * (s * qd)) as nat);
        lemma_small_mod(1, p as nat);
        lemma_mul_cong(p, pow(w, (s * r) as nat), pow(w, (s * r) as nat), pow(w, (n * (s * qd)) as nat), 1);
    }
    lemma_sum_mod(0, n, p, geo(w, d), geo(w, r));
    if r == 0 {
        assert forall|s: int| 0 <= s < n implies #[trigger] geo(w, r)(s) == 1 by {
            assert(s * r == 0);
            lemma_pow0(w);
        }
        lemma_sum_const(0, n, 1, geo(w, r));
    } else {
        if i == 0 {
            lemma_pow0(2);
            lemma_pow2(0);
        }
        lemma_orthogonal(p, w, i, r);
    }
}

/// Modulo `p`, `a * a^(p-2) == 1` for `a` not divisible by the prime `p`.
proof fn lemma_inv_mod(fp: &Fp, a: int)
    requires
        fp.wf(),
        a >= 0,
        a % (fp.p as int) != 0,
    ensures
        (a * inv_mod(fp.p as int, a)) % (fp.p as int) == 1,
{
    let p = fp.p as int;
    lemma_fermat(p, a as nat);
    lemma_pow_succ(a, (p - 2) as nat);
    lemma_mul_mod_noop_right(a, pow(a, (p - 2) as nat), p);
}

/// The inverse of a `2^i`-th root of unity `w` is `w^(2^i - 1)`, modulo `p`.
proof fn lemma_inverse_is_power(fp: &Fp, w: int, i: nat)
    requires
        fp.wf(),
        0 <= w < fp.p,
        is_root_of_unity(fp.p as int, w, i),
    ensures
        inv_mod(fp.p as int, w) % (fp.p as int) == pow(w, (pow2(i) - 1) as nat) % (fp.p as int),
{
    let p = fp.p as int;
    let n = pow2(i);
    lemma_pow2_pos(i);
    let v = inv_mod(p, w);
    let ww = pow(w, (n - 1) as nat);
    lemma_root_nonzero(p, w, i);
    lemma_inv_mod(fp, w);
    lemma_pow_succ(w, (n - 1) as nat);
    assert(ww * w == w * ww) by (nonlinear_arith);
    lemma_small_mod(1, p as nat);
    lemma_mul_cong(p, v, v, ww * w, 1);
    assert(v * (ww * w) == (w * v) * ww) by (nonlinear_arith);
    lemma_mul_cong(p, w * v, 1, ww, ww);
    lemma_mod_twice(v, p);
}

/// Entry `t` of the inverse transform of the transform of `xs` is `xs[t]`, modulo `p`.
proof fn lemma_inverse_entry(fp: &Fp, i: nat, xs: Seq<u64>, y: Seq<u64>, t: int)
    requires
        fp.wf(),
        i <= fp.k,
        xs.len() == pow2(i),
        is_dft(y, xs, fp.unity_root(i), fp.p as int),
        0 <= t < pow2(i),
    ensures
        ((dft_entry(y, inv_mod(fp.p as int, fp.unity_root(i)), t) % (fp.p as int)) * inv_mod(
            fp.p as int,
            pow2(i) as int,
        )) % (fp.p as int) == (xs[t] as int) % (fp.p as int),
{
    let p = fp.p as int;
    let n = pow2(i) as int;
    let w = fp.unity_root(i);
    let v = inv_mod(p, w);
    let c = inv_mod(p, n);
    fp.lemma_root_of_unity(i);
    lemma_mod_bound(pow(fp.root as int, (fp.m * pow2((fp.k - i) as nat)) as nat), p);
    lemma_inverse_is_power(fp, w, i);
    let ww = pow(w, (n - 1) as nat);
    // the terms of the outer sum, with the transform unreduced
    let term = dft_term(y, v, t);
    let a = |s: int, l: int| pow(v, (t * s) as nat) * (xs[l] * pow(w, (s * l) as nat));
    let big = |s: int| dft_entry(xs, w, s) * pow(v, (t * s) as nat);
    assert forall|s: int| 0 <= s < n implies #[trigger] term(s) % p == big(s) % p by {
        lemma_mod_twice(dft_entry(xs, w, s), p);
        lemma_mul_cong(p, y[s] as int, dft_entry(xs, w, s), pow(v, (t * s) as nat), pow(v, (t * s) as nat));
    }
    lemma_sum_mod(0, n, p, term, big);
    let rows = |s: int| sum(0, n, |l: int| a(s, l));
    assert forall|s: int| 0 <= s < n implies #[trigger] big(s) == rows(s) by {
        let f = dft_term(xs, w, s);
        let g = |l: int| a(s, l);
        assert forall|l: int| 0 <= l < n implies #[trigger] g(l) == pow(v, (t * s) as nat) * f(l) by {
            assert(s * l == l * s) by (nonlinear_arith);
        }
        lemma_sum_scale(0, n, pow(v, (t * s) as nat), f, g);
        lemma_mul_is_commutative(pow(v, (t * s) as nat), sum(0, n, f));
    }
    lemma_sum_ext(0, n, big, rows);
    lemma_sum_swap(n, n, a);
    let cols = |l: int| sum(0, n, |s: int| a(s, l));
    let delta = |l: int| if l == t {
        xs[t] * n
    } else {
        0
    };
    assert forall|l: int| 0 <= l < n implies #[trigger] cols(l) % p == delta(l) % p by {
        let d = l + (n - 1) * t;
        assert(d >= 0 && (d % n == 0 <==> l == t)) by {
            assert(d == (l - t) + n * t) by (nonlinear_arith)
                requires
                    d == l + (n - 1) * t,
            ;
            lemma_mod_multiples_vanish(t, l - t, n);
            if l >= t {
                lemma_small_mod((l - t) as nat, n as nat);
            } else {
                lemma_mod_add_multiples_vanish(l - t, n);
                lemma_small_mod((l - t + n) as nat, n as nat);
            }
            assert((n - 1) * t >= 0) by (nonlinear_arith)
                requires
                    n >= 1,
                    t >= 0,
            ;
        }
        let g = |s: int| pow(v, (t * s) as nat) * pow(w, (s * l) as nat);
        let col = |s: int| a(s, l);
        assert forall|s: int| 0 <= s < n implies #[trigger] col(s) == (xs[l] as int) * g(s) by {
            assert(pow(v, (t * s) as nat) * (xs[l] * pow(w, (s * l) as nat)) == (xs[l] as int) * (
            pow(v, (t * s) as nat) * pow(w, (s * l) as nat))) by (nonlinear_arith);
        }
        lemma_sum_scale(0, n, xs[l] as int, g, col);
        assert forall|s: int| 0 <= s < n implies #[trigger] g(s) % p == geo(w, d)(s) % p by {
            let e = (t * s) as nat;
            assert(t * s >= 0 && s * l >= 0 && s * d >= 0) by (nonlinear_arith)
                requires
                    t >= 0,
                    s >= 0,
                    l >= 0,
                    d >= 0,
            ;
            lemma_pow_mod_noop(v, e, p);
            lemma_pow_mod_noop(ww, e, p);
            lemma_pow_multiplies(w, (n - 1) as nat, e);
            assert(pow(v, e) % p == pow(w, ((n - 1) as nat) * e) % p);
            lemma_mul_cong(p, pow(v, e), pow(w, ((n - 1) as nat) * e), pow(w, (s * l) as nat), pow(w, (s * l) as nat));
            lemma_pow_adds(w, ((n - 1) as nat) * e, (s * l) as nat);
            assert(((n - 1) as nat) * e + (s * l) as nat == (s * d) as nat) by (nonlinear_arith)
                requires
                    e == t * s,
                    d == l + (n - 1) * t,
                    n >= 1,
                    s * l >= 0,
                    t * s >= 0,
            ;
        }
        lemma_sum_mod(0, n, p, g, geo(w, d));
        lemma_geometric_sum(p, w, i, d);
        lemma_mul_cong(p, xs[l] as int, xs[l] as int, sum(0, n, g), if l == t { n } else { 0 });
        if l != t {
            assert((xs[l] as int) * 0 == 0);
        }
    }
    lemma_sum_mod(0, n, p, cols, delta);
    lemma_sum_single(0, n, t, delta);
    // scaling by the inverse of n
    let e = dft_entry(y, v, t);
    assert(e % p == (xs[t] * n) % p);
    lemma_mod_twice(xs[t] * n, p);
    lemma_mul_cong(p, e % p, xs[t] * n, c, c);
    crate::ntt::fft::lemma_length_invertible(fp, i);
    lemma_small_mod(n as nat, p as nat);
    lemma_inv_mod(fp, n);
    lemma_small_mod(1, p as nat);
    assert((xs[t] * n) * c == (xs[t] as int) * (n * c)) by (nonlinear_arith);
    lemma_mul_cong(p, xs[t] as int, xs[t] as int, n * c, 1);
}

/// Round trip: the inverse transform of the transform of `x` is `x` padded
/// with zeros to the next power of two, entry by entry modulo `p`. Here `y`
/// and `z` are what the forward and the inverse transform promise.
pub proof fn lemma_round_trip(fp: Fp, x: Seq<u64>, i: nat, y: Seq<u64>, j: nat, z: Seq<u64>)
    requires
        fp.wf(),
        i <= fp.k,
        is_ceil_log2(i, x.len()),
        is_dft(y, padded(x, pow2(i)), fp.unity_root(i), fp.p as int),
        j <= fp.k,
        is_ceil_log2(j, y.len()),
        is_inverse_dft(z, padded(y, pow2(j)), fp.unity_root(j), fp.p as int),
    ensures
        z.len() == pow2(i),
        forall|t: int|
            0 <= t < pow2(i) ==> #[trigger] z[t] == (padded(x, pow2(i))[t] as int) % (fp.p as int),
{
    lemma_pad_power_of_two(y, i);
    lemma_ceil_log2_unique(i, j, y.len());
    assert forall|t: int| 0 <= t < pow2(i) implies #[trigger] z[t] == (padded(x, pow2(i))[t] as int) % (
    fp.p as int) by {
        lemma_inverse_entry(&fp, i, padded(x, pow2(i)), y, t);
    }
}

} // verus!
