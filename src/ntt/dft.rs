//! The transform computed directly from its definition, in `O(n^2)`.
use crate::ntt::sums::sum;
use crate::ntt::{
    dft_entry, dft_term, is_ceil_log2, is_dft, is_inverse_dft, pad_to_power_of_two, padded,
};
use crate::num::fp::{FieldError, Fp};
use vstd::arithmetic::div_mod::*;
use vstd::arithmetic::power::*;
use vstd::arithmetic::power2::*;
use vstd::prelude::*;

verus! {

/// A root of unity modulo `p` is not divisible by `p`.
pub proof fn lemma_root_nonzero(p: int, w: int, i: nat)
    requires
        p > 1,
        pow(w, pow2(i)) % p == 1,
    ensures
        w % p != 0,
{
    lemma_pow2_pos(i);
    lemma_pow_mod_noop(w, pow2(i), p);
    if w % p == 0 {
        lemma0_pow(pow2(i));
        assert(0int % p == 0);
    }
}

/// The transform over the field `self.0`, computed from its definition.
pub struct DFT(pub Fp);

impl DFT {
    /// The transform of `x` with rotation `w`, after padding `x` to a power of
    /// two with zeros; the rotation is a primitive root of unity of that order.
    pub fn dft(&self, x: &[u64]) -> (r: Result<Vec<u64>, FieldError>)
        requires
            self.0.wf(),
        ensures
            r is Err <==> x@.len() > pow2(self.0.k as nat),
            r is Err ==> r == Err::<Vec<u64>, FieldError>(FieldError::InsufficientTwoAdicity),
            r matches Ok(v) ==> exists|i: nat|
                i <= self.0.k && is_ceil_log2(i, x@.len()) && is_dft(
                    v@,
                    padded(x@, pow2(i)),
                    self.0.unity_root(i),
                    self.0.p as int,
                ),
    {
        let (i, xs) = self.extend_array(x)?;
        let w = self.0.root_pow2m(i)?;
        let res = self.dft_core(xs, w);
        Ok(res)
    }

    /// The inverse transform: the transform with rotation `w^(-1)`, each
    /// entry scaled by the inverse of the padded length.
    pub fn idft(&self, f: &[u64]) -> (r: Result<Vec<u64>, FieldError>)
        requires
            self.0.wf(),
        ensures
            r is Err <==> f@.len() > pow2(self.0.k as nat),
            r is Err ==> r == Err::<Vec<u64>, FieldError>(FieldError::InsufficientTwoAdicity),
            r matches Ok(v) ==> exists|i: nat|
                i <= self.0.k && is_ceil_log2(i, f@.len()) && is_inverse_dft(
                    v@,
                    padded(f@, pow2(i)),
                    self.0.unity_root(i),
                    self.0.p as int,
                ),
    {
        let (i, fs) = self.extend_array(f)?;
        let w = self.0.root_pow2m(i)?;
        proof {
            lemma_root_nonzero(self.0.p as int, w as int, i as nat);
        }
        let winv = self.0.inv(w);
        let mut res = self.dft_core(fs, winv);
        let n = res.len();
        proof {
            crate::ntt::fft::lemma_length_invertible(&self.0, i as nat);
        }
        let inv_n = self.0.inv(n as u64);
        let ghost core = res@;
        let mut t: usize = 0;
        while t < n
            invariant
                self.0.wf(),
                n == res@.len(),
                n == core.len(),
                t <= n,
                forall|s: int| t <= s < n ==> #[trigger] res@[s] == core[s],
                forall|s: int|
                    0 <= s < t ==> #[trigger] res@[s] == (core[s] * inv_n) % (self.0.p as int),
            decreases n - t,
        {
            let v = self.0.mul(res[t], inv_n);
            res.set(t, v);
            t += 1;
        }
        Ok(res)
    }

    /// The transform of `x` with rotation `w`: entry `i` is
    /// `sum_j x[j] * w^(i*j) (mod p)`.
    fn dft_core(&self, x: Vec<u64>, w: u64) -> (r: Vec<u64>)
        requires
            self.0.wf(),
        ensures
            is_dft(r@, x@, w as int, self.0.p as int),
    {
        let n = x.len();
        let ghost p = self.0.p as int;
        let mut res: Vec<u64> = Vec::new();
        let mut i: usize = 0;
        while i < n
            invariant
                self.0.wf(),
                p == self.0.p,
                n == x@.len(),
                i <= n,
                res@.len() == i,
                forall|t: int| 0 <= t < i ==> #[trigger] res@[t] == dft_entry(x@, w as int, t) % p,
            decreases n - i,
        {
            let wi = self.0.pow(w, i);
            let ghost f = dft_term(x@, w as int, i as int);
            let mut acc: u64 = 0;
            let mut rot: u64 = 1;
            let mut j: usize = 0;
            proof {
                lemma_small_mod(0, p as nat);
                lemma_small_mod(1, p as nat);
                lemma_pow0(w as int);
            }
            while j < n
                invariant
                    self.0.wf(),
                    p == self.0.p,
                    n == x@.len(),
                    j <= n,
                    f == dft_term(x@, w as int, i as int),
                    wi == pow(w as int, i as nat) % p,
                    acc == sum(0, j as int, f) % p,
                    rot == pow(w as int, (i * j) as nat) % p,
                decreases n - j,
            {
                let ghost pj = pow(w as int, (i * j) as nat);
                let term = self.0.mul(x[j], rot);
                proof {
                    lemma_mul_mod_noop_right(x@[j as int] as int, pj, p);
                    lemma_add_mod_noop(sum(0, j as int, f), f(j as int), p);
                    lemma_mod_twice(sum(0, j as int, f), p);
                    lemma_mod_twice(f(j as int), p);
                    assert(sum(0, j + 1, f) == sum(0, j as int, f) + f(j as int));
                }
                acc = self.0.add(acc, term);
                let ghost r0 = rot as int;
                rot = self.0.mul(rot, wi);
                proof {
                    lemma_mul_mod_noop_general(pj, pow(w as int, i as nat), p);
                    lemma_pow_adds(w as int, (i * j) as nat, i as nat);
                    assert((i * j) as nat + i as nat == (i * (j + 1)) as nat) by (nonlinear_arith);
                }
                j += 1;
            }
            proof {
                assert(dft_entry(x@, w as int, i as int) == sum(0, n as int, f));
            }
            res.push(acc);
            i += 1;
        }
        res
    }

    /// Extends `array` with zeros to the next power of two `2^i`, returning `i`
    /// and the extended array.
    pub fn extend_array(&self, array: &[u64]) -> (r: Result<(usize, Vec<u64>), FieldError>)
        requires
            self.0.wf(),
        ensures
            r is Err <==> array@.len() > pow2(self.0.k as nat),
            r is Err ==> r == Err::<(usize, Vec<u64>), FieldError>(
                FieldError::InsufficientTwoAdicity,
            ),
            r matches Ok((i, v)) ==> (i <= self.0.k && is_ceil_log2(i as nat, array@.len())
                && v@ == padded(array@, pow2(i as nat))),
    {
        pad_to_power_of_two(&self.0, array)
    }
}

} // verus!
