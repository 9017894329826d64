//! Forward and inverse transforms, with the definitions their contracts use.
pub mod dft;
pub mod fft;
pub mod laws;
pub mod sums;

pub use dft::DFT;
pub use fft::FFT;

use crate::num::fp::{FieldError, Fp};
use crate::ntt::sums::sum;
use vstd::arithmetic::power::*;
use vstd::arithmetic::power2::*;
use vstd::prelude::*;
use vstd::slice::slice_to_vec;

verus! {

/// Term `j` of entry `i` of the transform of `x` with rotation `w`: `x[j] * w^(i*j)`.
pub open spec fn dft_term(x: Seq<u64>, w: int, i: int) -> spec_fn(int) -> int {
    |j: int| x[j] * pow(w, (i * j) as nat)
}

/// Entry `i` of the transform of `x` with rotation `w`, before reduction:
/// `sum_{j < |x|} x[j] * w^(i*j)`.
pub open spec fn dft_entry(x: Seq<u64>, w: int, i: int) -> int {
    sum(0, x.len() as int, dft_term(x, w, i))
}

/// `r` is the transform of `x` with rotation `w`, reduced modulo `p`.
pub open spec fn is_dft(r: Seq<u64>, x: Seq<u64>, w: int, p: int) -> bool {
    &&& r.len() == x.len()
    &&& forall|i: int| #![trigger r[i]] 0 <= i < x.len() ==> r[i] == dft_entry(x, w, i) % p
}

/// The inverse of `a` modulo the prime `p`, as `a^(p-2) mod p`.
pub open spec fn inv_mod(p: int, a: int) -> int {
    pow(a, (p - 2) as nat) % p
}

/// `r` is the inverse transform of `x` for the root `w`: the transform with
/// rotation `w^(-1)`, each entry scaled by `|x|^(-1)`, modulo `p`.
pub open spec fn is_inverse_dft(r: Seq<u64>, x: Seq<u64>, w: int, p: int) -> bool {
    &&& r.len() == x.len()
    &&& forall|i: int|
        #![trigger r[i]]
        0 <= i < x.len() ==> r[i] == ((dft_entry(x, inv_mod(p, w), i) % p) * inv_mod(
            p,
            x.len() as int,
        )) % p
}

/// `x` followed by zeros up to length `n`.
pub open spec fn padded(x: Seq<u64>, n: nat) -> Seq<u64> {
    Seq::new(n, |j: int| if j < x.len() { x[j] } else { 0u64 })
}

/// `i` is the least exponent with `2^i >= n`.
pub open spec fn is_ceil_log2(i: nat, n: nat) -> bool {
    &&& pow2(i) >= n
    &&& i == 0 || pow2((i - 1) as nat) < n
}

/// Extends `array` with zeros to the next power of two `2^i`, returning `i`
/// and the extended array. Fails with `InsufficientTwoAdicity` when `2^k`,
/// the largest power of two dividing `p - 1`, is shorter than `array`.
pub fn pad_to_power_of_two(fp: &Fp, array: &[u64]) -> (r: Result<(usize, Vec<u64>), FieldError>)
    requires
        fp.wf(),
    ensures
        r is Err <==> array@.len() > pow2(fp.k as nat),
        r is Err ==> r == Err::<(usize, Vec<u64>), FieldError>(
            FieldError::InsufficientTwoAdicity,
        ),
        r matches Ok((i, v)) ==> (i <= fp.k && is_ceil_log2(i as nat, array@.len()) && v@ == padded(
            array@,
            pow2(i as nat),
        )),
{
    let n = array.len();
    let mut i: usize = 0;
    let mut n_: u64 = 1;
    proof {
        lemma2_to64();
        lemma_pow2(0);
        lemma_pow0(2);
    }
    while n_ < n as u64
        invariant
            fp.wf(),
            n == array@.len(),
            i <= fp.k,
            n_ == pow2(i as nat),
            i == 0 || pow2((i - 1) as nat) < n,
        decreases fp.k - i,
    {
        if i == fp.k {
            return Err(FieldError::InsufficientTwoAdicity);
        }
        proof {
            lemma_pow2_adds(i as nat, 1);
            lemma_pow2(1);
            lemma_pow1(2);
            if i + 1 < fp.k {
                lemma_pow2_strictly_increases((i + 1) as nat, fp.k as nat);
            }
            lemma_pow2_pos(fp.k as nat);
            assert(pow2(fp.k as nat) <= pow2(fp.k as nat) * fp.m) by (nonlinear_arith)
                requires
                    fp.m >= 1,
            ;
        }
        i = i + 1;
        n_ = n_ * 2;
    }
    proof {
        if i < fp.k {
            lemma_pow2_strictly_increases(i as nat, fp.k as nat);
        }
    }
    let mut res = slice_to_vec(array);
    while (res.len() as u64) < n_
        invariant
            n <= res@.len() <= n_,
            n == array@.len(),
            forall|j: int| 0 <= j < res@.len() ==> #[trigger] res@[j] == padded(array@, n_ as nat)[j],
        decreases n_ - res@.len(),
    {
        res.push(0);
    }
    assert(res@ =~= padded(array@, n_ as nat));
    Ok((i, res))
}

} // verus!
