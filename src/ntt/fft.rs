//! The transform computed by recursive halving, in `O(n log n)`.
use crate::ntt::sums::{lemma_sum_halves, lemma_sum_mod, sum};
use crate::ntt::{dft_entry, dft_term, is_ceil_log2, is_dft, is_inverse_dft, pad_to_power_of_two, padded};
use crate::num::fp::{is_root_of_unity, lemma_pow_pow_mod, FieldError, Fp};
use crate::ntt::dft::lemma_root_nonzero;
use crate::num::theory::lemma_pow_succ;
use vstd::arithmetic::div_mod::*;
use vstd::arithmetic::mul::*;
use vstd::arithmetic::power::*;
use vstd::arithmetic::power2::*;
use vstd::prelude::*;

verus! {

/// A padded length `2^i` with `i <= k` is a nonzero field element.
pub proof fn lemma_length_invertible(fp: &Fp, i: nat)
    requires
        fp.wf(),
        i <= fp.k,
    ensures
        1 <= pow2(i) < fp.p,
        (pow2(i) as int) % (fp.p as int) != 0,
{
    lemma_pow2_pos(i);
    if i < fp.k {
        lemma_pow2_strictly_increases(i, fp.k as nat);
    }
    assert(pow2(fp.k as nat) <= pow2(fp.k as nat) * fp.m) by (nonlinear_arith)
        requires
            fp.m >= 1,
    ;
    lemma_small_mod(pow2(i), fp.p as nat);
}

/// Congruence is preserved by products.
pub proof fn lemma_mul_cong(p: int, a: int, a2: int, b: int, b2: int)
    requires
        p > 0,
        a % p == a2 % p,
        b % p == b2 % p,
    ensures
        (a * b) % p == (a2 * b2) % p,
{
    lemma_mul_mod_noop_general(a, b, p);
    lemma_mul_mod_noop_general(a2, b2, p);
}

/// Congruence is preserved by sums.
pub proof fn lemma_add_cong(p: int, a: int, a2: int, b: int, b2: int)
    requires
        p > 0,
        a % p == a2 % p,
        b % p == b2 % p,
    ensures
        (a + b) % p == (a2 + b2) % p,
{
    lemma_add_mod_noop(a, b, p);
    lemma_add_mod_noop(a2, b2, p);
}

/// Powers of minus one alternate between one and minus one.
pub proof fn lemma_minus_one_pow(p: int, y: int, e: nat)
    requires
        p > 1,
        y % p == p - 1,
    ensures
        pow(y, e) % p == (if e % 2 == 0 {
            1
        } else {
            p - 1
        }),
    decreases e,
{
    lemma_small_mod(1, p as nat);
    if e == 0 {
        lemma_pow0(y);
    } else {
        let e0 = (e - 1) as nat;
        lemma_minus_one_pow(p, y, e0);
        lemma_pow_succ(y, e0);
        let prev = if e0 % 2 == 0 {
            1
        } else {
            p - 1
        };
        lemma_small_mod((p - 1) as nat, p as nat);
        lemma_small_mod(prev as nat, p as nat);
        lemma_mul_cong(p, y, p - 1, pow(y, e0), prev);
        if prev == 1 {
            assert((p - 1) * 1 == p - 1);
        } else {
            assert((p - 1) * (p - 1) == p * (p - 2) + 1) by (nonlinear_arith);
            lemma_mod_multiples_vanish(p - 2, 1, p);
        }
    }
}

/// Term `j` of the pairing of `x`'s two halves in entry `t` of the transform.
pub open spec fn pair_term(x: Seq<u64>, w: int, t: int, h: int) -> spec_fn(int) -> int {
    |j: int| dft_term(x, w, t)(j) + dft_term(x, w, t)(j + h)
}

/// An entry of the transform of a sequence of length `2h`, as a sum over pairs `(j, j + h)`.
pub proof fn lemma_half_sum(x: Seq<u64>, w: int, t: int, h: int)
    requires
        h >= 0,
        x.len() == 2 * h,
    ensures
        dft_entry(x, w, t) == sum(0, h, pair_term(x, w, t, h)),
{
    lemma_sum_halves(h, dft_term(x, w, t), pair_term(x, w, t, h));
}

proof fn lemma_even_term(p: int, w: int, h: int, x: Seq<u64>, even: Seq<u64>, w2: int, r: int, j: int)
    requires
        p > 1,
        h >= 1,
        x.len() == 2 * h,
        0 <= j < h,
        0 <= r,
        pow(w, h as nat) % p == p - 1,
        w2 == pow(w, 2) % p,
        even.len() == h,
        even[j] == (x[j] + x[j + h]) % p,
    ensures
        pair_term(x, w, 2 * r, h)(j) % p == dft_term(even, w2, r)(j) % p,
{
    let t = 2 * r;
    let a = x[j] as int;
    let b = x[j + h] as int;
    let pp = pow(w, (t * j) as nat);
    let q = pow(w, (t * h) as nat);
    assert(t * j >= 0 && t * h >= 0 && r * j >= 0) by (nonlinear_arith)
        requires
            r >= 0,
            j >= 0,
            h >= 1,
            t == 2 * r,
    ;
    assert((t * (j + h)) as nat == (t * j) as nat + (t * h) as nat) by (nonlinear_arith)
        requires
            t * j >= 0,
            t * h >= 0,
    ;
    lemma_pow_adds(w, (t * j) as nat, (t * h) as nat);
    assert((t * h) as nat == (h as nat) * (t as nat)) by (nonlinear_arith)
        requires
            t * h >= 0,
            t >= 0,
            h >= 0,
    ;
    lemma_pow_multiplies(w, h as nat, t as nat);
    lemma_minus_one_pow(p, pow(w, h as nat), t as nat);
    lemma_small_mod(1, p as nat);
    assert(q % p == 1);
    lemma_mul_cong(p, pp, pp, q, 1);
    lemma_mul_cong(p, b, b, pp * q, pp);
    lemma_add_cong(p, a * pp, a * pp, b * (pp * q), b * pp);
    assert(pair_term(x, w, t, h)(j) == a * pp + b * (pp * q));
    assert(a * pp + b * pp == (a + b) * pp) by (nonlinear_arith);
    lemma_pow_pow_mod(p, w, 2, (r * j) as nat);
    assert(2 * ((r * j) as nat) == (t * j) as nat) by (nonlinear_arith)
        requires
            t == 2 * r,
            r * j >= 0,
    ;
    lemma_mod_twice(a + b, p);
    lemma_mul_cong(p, even[j] as int, a + b, pow(w2, (r * j) as nat), pp);
}

proof fn lemma_odd_term(p: int, w: int, h: int, x: Seq<u64>, odd: Seq<u64>, w2: int, r: int, j: int)
    requires
        p > 1,
        h >= 1,
        x.len() == 2 * h,
        0 <= j < h,
        0 <= r,
        pow(w, h as nat) % p == p - 1,
        w2 == pow(w, 2) % p,
        odd.len() == h,
        odd[j] == (((x[j] - x[j + h]) % p) * (pow(w, j as nat) % p)) % p,
    ensures
        pair_term(x, w, 2 * r + 1, h)(j) % p == dft_term(odd, w2, r)(j) % p,
{
    let t = 2 * r + 1;
    let a = x[j] as int;
    let b = x[j + h] as int;
    let pp = pow(w, (t * j) as nat);
    let q = pow(w, (t * h) as nat);
    assert(t * j >= 0 && t * h >= 0 && r * j >= 0) by (nonlinear_arith)
        requires
            r >= 0,
            j >= 0,
            h >= 1,
            t == 2 * r + 1,
    ;
    assert((t * (j + h)) as nat == (t * j) as nat + (t * h) as nat) by (nonlinear_arith)
        requires
            t * j >= 0,
            t * h >= 0,
    ;
    lemma_pow_adds(w, (t * j) as nat, (t * h) as nat);
    assert((t * h) as nat == (h as nat) * (t as nat)) by (nonlinear_arith)
        requires
            t * h >= 0,
            t >= 0,
            h >= 0,
    ;
    lemma_pow_multiplies(w, h as nat, t as nat);
    lemma_minus_one_pow(p, pow(w, h as nat), t as nat);
    assert((t as nat) % 2 == 1);
    assert(q % p == p - 1);
    lemma_mod_add_multiples_vanish(-1, p);
    lemma_small_mod((p - 1) as nat, p as nat);
    assert((-1int) % p == p - 1);
    lemma_mul_cong(p, pp, pp, q, -1);
    lemma_mul_cong(p, b, b, pp * q, -pp);
    lemma_add_cong(p, a * pp, a * pp, b * (pp * q), b * (-pp));
    assert(pair_term(x, w, t, h)(j) == a * pp + b * (pp * q));
    assert(a * pp + b * (-pp) == (a - b) * pp) by (nonlinear_arith);
    // the right-hand side
    let wj = pow(w, j as nat);
    let w2r = pow(w, (2 * r * j) as nat);
    assert(2 * r * j >= 0) by (nonlinear_arith)
        requires
            r * j >= 0,
    ;
    lemma_pow_pow_mod(p, w, 2, (r * j) as nat);
    assert(2 * ((r * j) as nat) == (2 * r * j) as nat) by (nonlinear_arith)
        requires
            r * j >= 0,
    ;
    lemma_mod_twice((a - b) % p * (wj % p), p);
    lemma_mul_mod_noop_general(a - b, wj, p);
    assert((odd[j] as int) % p == ((a - b) * wj) % p);
    lemma_mul_cong(p, odd[j] as int, (a - b) * wj, pow(w2, (r * j) as nat), w2r);
    lemma_pow_adds(w, j as nat, (2 * r * j) as nat);
    assert((t * j) as nat == j as nat + (2 * r * j) as nat) by (nonlinear_arith)
        requires
            t == 2 * r + 1,
            j >= 0,
            r >= 0,
            2 * r * j >= 0,
    ;
    assert((a - b) * wj * w2r == (a - b) * pp) by (nonlinear_arith)
        requires
            pp == wj * w2r,
    ;
}

/// The butterfly: entries `2r` and `2r+1` of the transform of `x` are entry `r`
/// of the half-length transforms, with rotation `w^2`, of
/// `even[j] = x[j] + x[j+h]` and `odd[j] = (x[j] - x[j+h]) * w^j`, when `w^h == -1`.
pub proof fn lemma_butterfly(
    p: int,
    w: int,
    h: int,
    x: Seq<u64>,
    even: Seq<u64>,
    odd: Seq<u64>,
    w2: int,
    r: int,
)
    requires
        p > 1,
        h >= 1,
        x.len() == 2 * h,
        even.len() == h,
        odd.len() == h,
        pow(w, h as nat) % p == p - 1,
        w2 == pow(w, 2) % p,
        forall|j: int| 0 <= j < h ==> #[trigger] even[j] == (x[j] + x[j + h]) % p,
        forall|j: int|
            0 <= j < h ==> #[trigger] odd[j] == (((x[j] - x[j + h]) % p) * (pow(w, j as nat) % p))
                % p,
        0 <= r < h,
    ensures
        dft_entry(even, w2, r) % p == dft_entry(x, w, 2 * r) % p,
        dft_entry(odd, w2, r) % p == dft_entry(x, w, 2 * r + 1) % p,
{
    lemma_half_sum(x, w, 2 * r, h);
    lemma_half_sum(x, w, 2 * r + 1, h);
    assert forall|j: int| 0 <= j < h implies #[trigger] pair_term(x, w, 2 * r, h)(j) % p
        == dft_term(even, w2, r)(j) % p by {
        lemma_even_term(p, w, h, x, even, w2, r, j);
    }
    assert forall|j: int| 0 <= j < h implies #[trigger] pair_term(x, w, 2 * r + 1, h)(j) % p
        == dft_term(odd, w2, r)(j) % p by {
        lemma_odd_term(p, w, h, x, odd, w2, r, j);
    }
    lemma_sum_mod(0, h, p, pair_term(x, w, 2 * r, h), dft_term(even, w2, r));
    lemma_sum_mod(0, h, p, pair_term(x, w, 2 * r + 1, h), dft_term(odd, w2, r));
}

/// The transform over the field `self.0`, computed by recursive halving.
pub struct FFT(pub Fp);

/// The inverse of a primitive `2^i`-th root of unity is one too: its
/// `2^(i-1)`-th power is minus one.
pub proof fn lemma_inverse_root(fp: &Fp, w: int, i: nat)
    requires
        fp.wf(),
        is_root_of_unity(fp.p as int, w, i),
        i >= 1,
    ensures
        pow(crate::ntt::inv_mod(fp.p as int, w), pow2((i - 1) as nat)) % (fp.p as int) == fp.p - 1,
{
    let p = fp.p as int;
    let hh = pow2((i - 1) as nat);
    let e = (p - 2) as nat;
    lemma_pow_pow_mod(p, w, e, hh);
    lemma_pow_multiplies(w, hh, e);
    lemma_mul_is_commutative(e as int, hh as int);
    lemma_minus_one_pow(p, pow(w, hh), e);
    // p is odd: modulo two, minus one is one, which w^(2^(i-1)) is not
    lemma_pow2_pos((i - 1) as nat);
    if p == 2 {
        assert(pow(w, hh) % p != 1);
    }
    assert(p % 2 != 0);
    assert(e % 2 == 1);
}

impl FFT {
    /// The transform of `x` with rotation `w`, after padding `x` to a power of
    /// two with zeros; the rotation is a primitive root of unity of that order.
    pub fn fft(&self, x: &[u64]) -> (r: Result<Vec<u64>, FieldError>)
        requires
            self.0.wf(),
        ensures
            r is Err <==> x@.len() > pow2(self.0.k as nat),
            r is Err ==> r == Err::<Vec<u64>, FieldError>(FieldError::InsufficientTwoAdicity),
            r matches Ok(v) ==> exists|i: nat|
                i <= self.0.k && is_ceil_log2(i, x@.len()) && is_dft(
                    v@,
                    padded(x@, pow2(i)),
                    self.0.unity_root(i),
                    self.0.p as int,
                ),
    {
        let (i, xs) = self.extend_array(x)?;
        let w = self.0.root_pow2m(i)?;
        let res = self.fft_core(xs, w, Ghost(i as nat));
        Ok(res)
    }

    /// The inverse transform: the transform with rotation `w^(-1)`, each
    /// entry scaled by the inverse of the padded length.
    pub fn ifft(&self, f: &[u64]) -> (r: Result<Vec<u64>, FieldError>)
        requires
            self.0.wf(),
        ensures
            r is Err <==> f@.len() > pow2(self.0.k as nat),
            r is Err ==> r == Err::<Vec<u64>, FieldError>(FieldError::InsufficientTwoAdicity),
            r matches Ok(v) ==> exists|i: nat|
                i <= self.0.k && is_ceil_log2(i, f@.len()) && is_inverse_dft(
                    v@,
                    padded(f@, pow2(i)),
                    self.0.unity_root(i),
                    self.0.p as int,
                ),
    {
        let (i, fs) = self.extend_array(f)?;
        let w = self.0.root_pow2m(i)?;
        proof {
            lemma_root_nonzero(self.0.p as int, w as int, i as nat);
            if i >= 1 {
                lemma_inverse_root(&self.0, w as int, i as nat);
            }
        }
        let winv = self.0.inv(w);
        let mut res = self.fft_core(fs, winv, Ghost(i as nat));
        let n = res.len();
        proof {
            lemma_length_invertible(&self.0, i as nat);
        }
        let inv_n = self.0.inv(n as u64);
        let ghost core = res@;
        let mut t: usize = 0;
        while t < n
            invariant
                self.0.wf(),
                n == res@.len(),
                n == core.len(),
                t <= n,
                forall|s: int| t <= s < n ==> #[trigger] res@[s] == core[s],
                forall|s: int|
                    0 <= s < t ==> #[trigger] res@[s] == (core[s] * inv_n) % (self.0.p as int),
            decreases n - t,
        {
            let v = self.0.mul(res[t], inv_n);
            res.set(t, v);
            t += 1;
        }
        Ok(res)
    }

    /// The transform of `x`, of length `2^lg`, with rotation `w`, where
    /// `w^(2^(lg-1)) == -1`: the two halves are combined pairwise, transformed
    /// with rotation `w^2`, and their results interleaved.
    fn fft_core(&self, x: Vec<u64>, w: u64, Ghost(lg): Ghost<nat>) -> (r: Vec<u64>)
        requires
            self.0.wf(),
            x@.len() == pow2(lg),
            lg >= 1 ==> pow(w as int, pow2((lg - 1) as nat)) % (self.0.p as int) == self.0.p - 1,
        ensures
            is_dft(r@, x@, w as int, self.0.p as int),
        decreases lg,
    {
        let n = x.len();
        let ghost p = self.0.p as int;
        proof {
            lemma_pow2(0);
            lemma_pow0(2);
        }
        if n == 1 {
            let v = Fp::normalize(self.0.p, x[0]);
            let res = vec![v];
            proof {
                lemma_pow0(w as int);
                let f = dft_term(x@, w as int, 0);
                assert(sum(0, 1, f) == sum(0, 0, f) + f(0));
                assert(f(0) == x@[0] as int * pow(w as int, 0));
            }
            return res;
        }
        let ghost lh = (lg - 1) as nat;
        proof {
            lemma_pow2_adds(1, lh);
            lemma_pow2(1);
            lemma_pow1(2);
            lemma_pow2_pos(lh);
        }
        let h = n / 2;
        assert(h == pow2(lh));
        let mut even: Vec<u64> = Vec::new();
        let mut odd: Vec<u64> = Vec::new();
        let mut j: usize = 0;
        while j < h
            invariant
                self.0.wf(),
                p == self.0.p,
                n == x@.len(),
                n == 2 * h,
                j <= h,
                even@.len() == j,
                odd@.len() == j,
                forall|s: int| 0 <= s < j ==> #[trigger] even@[s] == (x@[s] + x@[s + h]) % p,
                forall|s: int|
                    0 <= s < j ==> #[trigger] odd@[s] == (((x@[s] - x@[s + h]) % p) * (pow(
                        w as int,
                        s as nat,
                    ) % p)) % p,
            decreases h - j,
        {
            let l = x[j];
            let rr = x[j + h];
            even.push(self.0.add(l, rr));
            odd.push(self.0.mul(self.0.sub(l, rr), self.0.pow(w, j)));
            j += 1;
        }
        let new_w = self.0.pow(w, 2);
        proof {
            if lh >= 1 {
                let lq = (lh - 1) as nat;
                lemma_pow_pow_mod(p, w as int, 2, pow2(lq));
                lemma_pow2_adds(1, lq);
            }
        }
        let ye = self.fft_core(even, new_w, Ghost(lh));
        let yo = self.fft_core(odd, new_w, Ghost(lh));
        let mut res: Vec<u64> = Vec::new();
        let mut r: usize = 0;
        while r < h
            invariant
                self.0.wf(),
                p == self.0.p,
                n == x@.len(),
                n == 2 * h,
                h >= 1,
                h == pow2(lh),
                lg == lh + 1,
                pow(w as int, h as nat) % p == p - 1,
                new_w == pow(w as int, 2) % p,
                r <= h,
                even@.len() == h,
                odd@.len() == h,
                forall|s: int| 0 <= s < h ==> #[trigger] even@[s] == (x@[s] + x@[s + h]) % p,
                forall|s: int|
                    0 <= s < h ==> #[trigger] odd@[s] == (((x@[s] - x@[s + h]) % p) * (pow(
                        w as int,
                        s as nat,
                    ) % p)) % p,
                is_dft(ye@, even@, new_w as int, p),
                is_dft(yo@, odd@, new_w as int, p),
                res@.len() == 2 * r,
                forall|t: int| 0 <= t < 2 * r ==> #[trigger] res@[t] == dft_entry(x@, w as int, t) % p,
            decreases h - r,
        {
            proof {
                lemma_butterfly(p, w as int, h as int, x@, even@, odd@, new_w as int, r as int);
            }
            res.push(ye[r]);
            res.push(yo[r]);
            r += 1;
        }
        res
    }

    /// Extends `array` with zeros to the next power of two `2^i`, returning `i`
    /// and the extended array.
    pub fn extend_array(&self, array: &[u64]) -> (r: Result<(usize, Vec<u64>), FieldError>)
        requires
            self.0.wf(),
        ensures
            r is Err <==> array@.len() > pow2(self.0.k as nat),
            r is Err ==> r == Err::<(usize, Vec<u64>), FieldError>(
                FieldError::InsufficientTwoAdicity,
            ),
            r matches Ok((i, v)) ==> (i <= self.0.k && is_ceil_log2(i as nat, array@.len())
                && v@ == padded(array@, pow2(i as nat))),
    {
        pad_to_power_of_two(&self.0, array)
    }
}

} // verus!
