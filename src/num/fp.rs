//! Arithmetic in the prime field `Z/pZ`.
use crate::num::theory::{
    is_prime, lemma_divides_trans, lemma_euclid, lemma_fermat, lemma_pow_one_multiple,
    lemma_pow_succ, lemma_prime_divides_prime, lemma_prime_no_small_divisor,
    lemma_square_root_of_one,
};
use vstd::arithmetic::div_mod::*;
use vstd::arithmetic::mul::*;
use vstd::arithmetic::power::*;
use vstd::arithmetic::power2::*;
use vstd::prelude::*;

verus! {

/// Why a field could not be set up, or a root of unity could not be found.
#[derive(Debug, Clone, Copy, PartialEq, Eq, Structural)]
pub enum FieldError {
    /// The modulus is not prime.
    InvalidModulus,
    /// `p - 1` does not hold enough factors of two for the requested order.
    InsufficientTwoAdicity,
}

/// `x` generates the multiplicative group modulo `p`: no `x^((p-1)/q)` is one,
/// for a prime `q` dividing `p - 1`.
pub open spec fn is_generator(p: int, x: int) -> bool {
    forall|q: int|
        #[trigger] is_prime(q) && (p - 1) % q == 0 ==> pow(x, ((p - 1) / q) as nat) % p != 1
}

/// Product of `q^e` over the pairs `(q, e)` of a factorization.
pub open spec fn factor_product(s: Seq<(u64, u64)>) -> int
    decreases s.len(),
{
    if s.len() == 0 {
        1
    } else {
        factor_product(s.drop_last()) * pow(s.last().0 as int, s.last().1 as nat)
    }
}

/// `s` is the prime factorization of `x`: increasing primes with positive
/// exponents whose product is `x`, listing every prime that divides `x`.
/// Zero and one have the empty factorization.
pub open spec fn is_factorization(x: int, s: Seq<(u64, u64)>) -> bool {
    &&& (x <= 1 ==> s.len() == 0)
    &&& (x >= 1 ==> factor_product(s) == x)
    &&& forall|i: int|
        0 <= i < s.len() ==> is_prime(#[trigger] s[i].0 as int) && s[i].1 >= 1 && x % (
        s[i].0 as int) == 0
    &&& forall|i: int, j: int| 0 <= i < j < s.len() ==> #[trigger] s[i].0 < #[trigger] s[j].0
    &&& forall|q: int|
        #[trigger] is_prime(q) && x >= 1 && x % q == 0 ==> exists|i: int|
            0 <= i < s.len() && s[i].0 == q
}

/// `w` is a primitive `2^i`-th root of unity modulo `p`: `w^(2^i) == 1`, no
/// smaller power of two gives one, and for `i >= 1`, `w^(2^(i-1)) == -1`.
pub open spec fn is_root_of_unity(p: int, w: int, i: nat) -> bool {
    &&& pow(w, pow2(i)) % p == 1
    &&& forall|j: nat| j < i ==> #[trigger] (pow(w, pow2(j)) % p) != 1
    &&& i >= 1 ==> pow(w, pow2((i - 1) as nat)) % p == p - 1
}

/// Every entry of `factors` passes the generator test for `x`.
pub open spec fn passes_generator_test(p: int, x: int, factors: Seq<(u64, u64)>) -> bool {
    forall|i: int|
        0 <= i < factors.len() ==> #[trigger] (pow(x, ((p - 1) / (factors[i].0 as int)) as nat)
            % p) != 1
}

proof fn lemma_generator_test(p: int, x: int, factors: Seq<(u64, u64)>)
    requires
        p >= 2,
        is_factorization(p - 1, factors),
    ensures
        passes_generator_test(p, x, factors) <==> is_generator(p, x),
{
    if passes_generator_test(p, x, factors) {
        assert forall|q: int| #[trigger] is_prime(q) && (p - 1) % q == 0 implies pow(
            x,
            ((p - 1) / q) as nat,
        ) % p != 1 by {
            let i = choose|i: int| 0 <= i < factors.len() && factors[i].0 == q;
            assert(pow(x, ((p - 1) / (factors[i].0 as int)) as nat) % p != 1);
        }
    }
    if is_generator(p, x) {
        assert forall|i: int| 0 <= i < factors.len() implies #[trigger] (pow(
            x,
            ((p - 1) / (factors[i].0 as int)) as nat,
        ) % p) != 1 by {
            assert(is_prime(factors[i].0 as int));
        }
    }
}

/// `(b^e1 mod p)^e2 == b^(e1*e2) (mod p)`.
pub proof fn lemma_pow_pow_mod(p: int, b: int, e1: nat, e2: nat)
    requires
        p > 0,
    ensures
        pow(pow(b, e1) % p, e2) % p == pow(b, e1 * e2) % p,
{
    lemma_pow_mod_noop(pow(b, e1), e2, p);
    lemma_pow_multiplies(b, e1, e2);
}

/// The prime field of order `p`, with a generator of its multiplicative group
/// and the split `p - 1 == 2^k * m` with `m` odd.
#[derive(Debug)]
pub struct Fp {
    /// The modulus, a prime.
    pub p: u64,
    /// The least generator of the multiplicative group.
    pub root: u64,
    /// The inverse of `root`.
    pub rinv: u64,
    /// The number of factors two in `p - 1`.
    pub k: usize,
    /// The odd part of `p - 1`.
    pub m: u64,
}

impl Fp {
    /// The field's invariant.
    pub open spec fn wf(&self) -> bool {
        &&& is_prime(self.p as int)
        &&& 1 <= self.root < self.p
        &&& is_generator(self.p as int, self.root as int)
        &&& self.rinv == pow(self.root as int, (self.p - 2) as nat) % (self.p as int)
        &&& self.k < 64
        &&& pow2(self.k as nat) * self.m == self.p - 1
        &&& self.m % 2 == 1
    }

    /// The primitive `2^i`-th root of unity `root^(m * 2^(k-i)) (mod p)`.
    pub open spec fn unity_root(&self, i: nat) -> int {
        pow(self.root as int, (self.m * pow2((self.k - i) as nat)) as nat) % (self.p as int)
    }

    /// `a` reduced into `[0, p)`.
    pub(crate) fn normalize(p: u64, a: u64) -> (r: u64)
        requires
            p > 0,
        ensures
            r == a % p,
            r < p,
    {
        if a < p {
            proof {
                lemma_small_mod(a as nat, p as nat);
            }
            return a;
        }
        a % p
    }

    /// `a + b (mod p)`
    fn _add(p: u64, a: u64, b: u64) -> (r: u64)
        requires
            p > 0,
        ensures
            r == (a + b) % (p as int),
    {
        let x = Self::normalize(p, a);
        let y = Self::normalize(p, b);
        proof {
            lemma_add_mod_noop(a as int, b as int, p as int);
        }
        if x >= p - y {
            proof {
                lemma_mod_sub_multiples_vanish(x + y, p as int);
                lemma_small_mod((x + y - p) as nat, p as nat);
            }
            x - (p - y)
        } else {
            proof {
                lemma_small_mod((x + y) as nat, p as nat);
            }
            x + y
        }
    }

    /// `-a (mod p)`
    fn _neg(p: u64, a: u64) -> (r: u64)
        requires
            p > 0,
        ensures
            r == (-(a as int)) % (p as int),
    {
        let x = Self::normalize(p, a);
        proof {
            lemma_sub_mod_noop(0, a as int, p as int);
            lemma_small_mod(0, p as nat);
        }
        if x == 0 {
            0
        } else {
            proof {
                lemma_mod_add_multiples_vanish(-(x as int), p as int);
                lemma_small_mod((p - x) as nat, p as nat);
            }
            p - x
        }
    }

    /// `a - b (mod p)`
    fn _sub(p: u64, a: u64, b: u64) -> (r: u64)
        requires
            p > 0,
        ensures
            r == (a - b) % (p as int),
    {
        let x = Self::normalize(p, a);
        let y = Self::normalize(p, b);
        let ny = Self::_neg(p, y);
        let res = Self::_add(p, x, ny);
        proof {
            let pp = p as int;
            lemma_small_mod(x as nat, p as nat);
            lemma_add_mod_noop(x as int, -(y as int), pp);
            lemma_mod_twice(-(y as int), pp);
            lemma_sub_mod_noop(a as int, b as int, pp);
        }
        res
    }

    /// `a * b (mod p)`
    fn _mul(p: u64, a: u64, b: u64) -> (r: u64)
        requires
            p > 0,
        ensures
            r == (a * b) % (p as int),
    {
        let x = Self::normalize(p, a);
        let y = Self::normalize(p, b);
        proof {
            lemma_mul_mod_noop_general(a as int, b as int, p as int);
            assert((x as int) * (y as int) <= (p as int) * (p as int)) by (nonlinear_arith)
                requires
                    x < p,
                    y < p,
            ;
            assert((p as int) * (p as int) <= 0xffff_ffff_ffff_ffff_ffff_ffff_ffff_ffff) by (nonlinear_arith)
                requires
                    p <= 0xffff_ffff_ffff_ffff,
            ;
        }
        let r = ((x as u128) * (y as u128)) % (p as u128);
        r as u64
    }

    /// `a^b (mod p)`, by square-and-multiply.
    fn _pow(p: u64, a: u64, b: u64) -> (r: u64)
        requires
            p > 1,
        ensures
            r == pow(a as int, b as nat) % (p as int),
    {
        let mut base = Self::normalize(p, a);
        let mut e = b;
        let mut res: u64 = 1;
        let ghost pp = p as int;
        proof {
            lemma_small_mod(1, p as nat);
            lemma_pow_mod_noop(a as int, b as nat, pp);
            lemma_pow0(base as int);
        }
        while e > 0
            invariant
                p > 1,
                pp == p,
                res < p,
                base < p,
                (res * pow(base as int, e as nat)) % pp == pow(a as int, b as nat) % pp,
            decreases e,
        {
            let ghost e0 = e as nat;
            let ghost b0 = base as int;
            let ghost r0 = res as int;
            let half = e / 2;
            proof {
                lemma_fundamental_div_mod(e0 as int, 2);
                lemma_pow_adds(b0, (e0 % 2) as nat, (2 * half) as nat);
                lemma_pow_multiplies(b0, 2, half as nat);
                lemma_square_is_pow2(b0);
                assert(pow(b0, e0) == pow(b0, (e0 % 2) as nat) * pow(b0 * b0, half as nat));
            }
            let bit = e % 2;
            let new_res = if bit == 1 {
                Self::_mul(p, res, base)
            } else {
                res
            };
            let new_base = Self::_mul(p, base, base);
            proof {
                let odd = pow(b0, (e0 % 2) as nat);
                let rest = pow(b0 * b0, half as nat);
                if bit == 1 {
                    lemma_pow1(b0);
                } else {
                    lemma_pow0(b0);
                }
                assert((new_res as int) % pp == (r0 * odd) % pp) by {
                    if bit == 1 {
                        assert(odd == b0);
                        assert(new_res == (r0 * b0) % pp);
                        lemma_mod_twice(r0 * b0, pp);
                    } else {
                        assert(odd == 1);
                        lemma_mul_basics(r0);
                        assert(r0 * odd == r0);
                        lemma_small_mod(r0 as nat, p as nat);
                    }
                }
                lemma_pow_mod_noop(b0 * b0, half as nat, pp);
                lemma_mul_mod_noop_general(new_res as int, pow(new_base as int, half as nat), pp);
                lemma_mul_mod_noop_general(r0 * odd, rest, pp);
                assert((new_res * pow(new_base as int, half as nat)) % pp == ((r0 * odd) * rest)
                    % pp);
                lemma_mul_is_associative(r0, odd, rest);
            }
            res = new_res;
            base = new_base;
            e = half;
        }
        proof {
            lemma_pow0(base as int);
            lemma_small_mod(res as nat, p as nat);
        }
        res
    }
    /// Prime factorization of `x` by trial division with 2, 3, 5, 7, 9, ...
    /// up to the square root of the unfactored part.
    pub fn factorize(x: u64) -> (res: Vec<(u64, u64)>)
        ensures
            is_factorization(x as int, res@),
    {
        let mut res: Vec<(u64, u64)> = Vec::new();
        let mut rest: u64 = x;
        let mut d: u64 = 2;
        while d <= rest / d
            invariant
                2 <= d <= 0x1_0000_0001,
                d == 2 || d % 2 == 1,
                x >= 1 ==> rest >= 1,
                x == 0 ==> rest == 0 && res@.len() == 0,
                x == 1 ==> rest == 1 && res@.len() == 0,
                x >= 1 ==> factor_product(res@) * rest == x,
                forall|q: int| 2 <= q < d ==> #[trigger] ((rest as int) % q) != 0,
                forall|i: int|
                    0 <= i < res@.len() ==> is_prime(#[trigger] res@[i].0 as int) && res@[i].1
                        >= 1 && (x as int) % (res@[i].0 as int) == 0 && res@[i].0 < d,
                forall|i: int, j: int|
                    0 <= i < j < res@.len() ==> #[trigger] res@[i].0 < #[trigger] res@[j].0,
                forall|q: int|
                    #[trigger] is_prime(q) && x >= 1 && (x as int) % q == 0 ==> (exists|i: int|
                        0 <= i < res@.len() && res@[i].0 == q) || (rest as int) % q == 0,
            decreases rest as int + 0x2_0000_0000 - d as int,
        {
            let ghost rest0 = rest as int;
            let ghost fac = factor_product(res@);
            proof {
                lemma_fundamental_div_mod(rest as int, d as int);
                assert((d as int) * (d as int) <= rest0) by (nonlinear_arith)
                    requires
                        d <= rest / d,
                        rest0 == d * (rest / d) + rest % d,
                        rest % d >= 0,
                        d >= 2,
                ;
                assert(d < 0x1_0000_0000) by (nonlinear_arith)
                    requires
                        (d as int) * (d as int) <= rest0,
                        rest0 <= 0xffff_ffff_ffff_ffff,
                        d >= 2,
                ;
                lemma_pow0(d as int);
            }
            let mut cnt: u64 = 0;
            while rest % d == 0
                invariant
                    2 <= d < 0x1_0000_0000,
                    (d as int) * (d as int) <= rest0,
                    rest0 <= 0xffff_ffff_ffff_ffff,
                    1 <= rest,
                    rest * pow(d as int, cnt as nat) == rest0,
                    cnt + rest <= rest0,
                    cnt > 0 ==> rest0 % (d as int) == 0 && is_prime(d as int),
                    forall|q: int| 2 <= q < d ==> #[trigger] ((rest as int) % q) != 0,
                    forall|q: int|
                        #[trigger] is_prime(q) && x >= 1 && (x as int) % q == 0 ==> (exists|i: int|
                            0 <= i < res@.len() && res@[i].0 == q) || (rest as int) % q == 0 || (q
                            == d && cnt > 0),
                decreases rest,
            {
                proof {
                    assert forall|q: int| 2 <= q < d implies #[trigger] ((d as int) % q) != 0 by {
                        if (d as int) % q == 0 {
                            lemma_divides_trans(q, d as int, rest as int);
                        }
                    }
                    assert(is_prime(d as int));
                    if cnt == 0 {
                        lemma_pow0(d as int);
                        lemma_mul_basics(rest as int);
                        assert(rest == rest0);
                    }
                }
                let ghost r = rest as int;
                let ghost c = cnt as nat;
                rest = rest / d;
                cnt = cnt + 1;
                proof {
                    lemma_fundamental_div_mod(r, d as int);
                    assert(r == d * rest);
                    lemma_pow_succ(d as int, c);
                    assert(rest * pow(d as int, cnt as nat) == rest0) by (nonlinear_arith)
                        requires
                            r == d * rest,
                            r * pow(d as int, c) == rest0,
                            pow(d as int, cnt as nat) == d * pow(d as int, c),
                    ;
                    assert(rest >= 1 && rest < r) by (nonlinear_arith)
                        requires
                            r == d * rest,
                            r >= 1,
                            d >= 2,
                    ;
                    assert forall|q: int| 2 <= q < d implies #[trigger] ((rest as int) % q) != 0 by {
                        if (rest as int) % q == 0 {
                            lemma_mod_multiples_basic(d as int, rest as int);
                            lemma_mul_is_commutative(d as int, rest as int);
                            lemma_divides_trans(q, rest as int, r);
                        }
                    }
                    assert forall|q: int|
                        #[trigger] is_prime(q) && x >= 1 && (x as int) % q == 0 implies (exists|i: int|
                            0 <= i < res@.len() && res@[i].0 == q) || (rest as int) % q == 0 || (q
                            == d && cnt > 0) by {
                        if r % q == 0 && q != d {
                            lemma_euclid(q, d as int, rest as int);
                            if (d as int) % q == 0 {
                                lemma_prime_divides_prime(q, d as int);
                            }
                        }
                    }
                }
            }
            if cnt > 0 {
                let ghost old_res = res@;
                res.push((d, cnt));
                proof {
                    assert(res@.drop_last() == old_res);
                    assert(factor_product(res@) == fac * pow(d as int, cnt as nat));
                    assert(forall|i: int| 0 <= i < old_res.len() ==> res@[i] == old_res[i]);
                    if x >= 1 {
                        assert(factor_product(res@) * rest == x) by (nonlinear_arith)
                            requires
                                factor_product(res@) == fac * pow(d as int, cnt as nat),
                                rest * pow(d as int, cnt as nat) == rest0,
                                fac * rest0 == x,
                        ;
                        lemma_mod_multiples_basic(fac, rest0);
                        lemma_divides_trans(d as int, rest0, x as int);
                    }
                    assert forall|q: int|
                        #[trigger] is_prime(q) && x >= 1 && (x as int) % q == 0 implies (exists|i: int|
                            0 <= i < res@.len() && res@[i].0 == q) || (rest as int) % q == 0 by {
                        if q == d && (rest as int) % q != 0 {
                            assert(res@[res@.len() - 1].0 == q);
                        } else if (rest as int) % q != 0 {
                            let i = choose|i: int| 0 <= i < old_res.len() && old_res[i].0 == q;
                            assert(res@[i] == old_res[i]);
                        }
                    }
                }
            }
            proof {
                assert forall|q: int| 2 <= q < d + 1 implies #[trigger] ((rest as int) % q) != 0 by {
                    if q == d {
                        assert((rest as int) % (d as int) != 0);
                    }
                }
                if d != 2 {
                    assert((rest as int) % ((d + 1) as int) != 0) by {
                        if (rest as int) % ((d + 1) as int) == 0 {
                            lemma_fundamental_div_mod((d + 1) as int, 2);
                            lemma_divides_trans(2, (d + 1) as int, rest as int);
                        }
                    }
                }
            }
            let ghost d0 = d as int;
            d = if d == 2 {
                3
            } else {
                d + 2
            };
        }
        proof {
            lemma_fundamental_div_mod(rest as int, d as int);
            if rest >= 2 {
                assert((d as int) * (d as int) > rest) by (nonlinear_arith)
                    requires
                        d > rest / d,
                        rest == d * (rest / d) + rest % d,
                        rest % d < d,
                        d >= 2,
                ;
                lemma_prime_no_small_divisor(rest as int, d as int);
                if rest < d {
                    lemma_mod_self_0(rest as int);
                }
            }
        }
        if rest > 1 {
            let ghost old_res = res@;
            let ghost fac = factor_product(res@);
            res.push((rest, 1));
            proof {
                assert(res@.drop_last() == old_res);
                lemma_pow1(rest as int);
                assert(factor_product(res@) == fac * rest);
                lemma_mod_multiples_basic(fac, rest as int);
                assert forall|q: int|
                    #[trigger] is_prime(q) && x >= 1 && (x as int) % q == 0 implies exists|i: int|
                        0 <= i < res@.len() && res@[i].0 == q by {
                    if (rest as int) % q == 0 {
                        lemma_prime_divides_prime(q, rest as int);
                        assert(res@[res@.len() - 1].0 == q);
                    } else {
                        let i = choose|i: int| 0 <= i < old_res.len() && old_res[i].0 == q;
                        assert(res@[i] == old_res[i]);
                    }
                }
            }
        } else {
            proof {
                assert forall|q: int|
                    #[trigger] is_prime(q) && x >= 1 && (x as int) % q == 0 implies exists|i: int|
                        0 <= i < res@.len() && res@[i].0 == q by {
                    if rest == 1 {
                        lemma_small_mod(1, q as nat);
                    }
                }
                if x >= 1 {
                    assert(factor_product(res@) * 1 == factor_product(res@));
                }
            }
        }
        res
    }
    /// `a^(-1) (mod p)` as `a^(p-2)`, by Fermat's little theorem.
    fn _inv(p: u64, a: u64) -> (r: u64)
        requires
            is_prime(p as int),
        ensures
            r == pow(a as int, (p - 2) as nat) % (p as int),
            (a as int) % (p as int) != 0 ==> (a * r) % (p as int) == 1,
    {
        let r = Self::_pow(p, a, p - 2);
        proof {
            if (a as int) % (p as int) != 0 {
                lemma_fermat(p as int, a as nat);
                lemma_pow_succ(a as int, (p - 2) as nat);
                lemma_mul_mod_noop_right(a as int, pow(a as int, (p - 2) as nat), p as int);
            }
        }
        r
    }

    /// The least generator of the multiplicative group modulo `p`, where
    /// `factors` is the factorization of `p - 1`; `None` if there is none.
    fn find_root(p: u64, factors: &Vec<(u64, u64)>) -> (r: Option<u64>)
        requires
            is_prime(p as int),
            is_factorization(p - 1, factors@),
        ensures
            match r {
                Some(g) => 1 <= g < p && is_generator(p as int, g as int) && forall|x: int|
                    1 <= x < g ==> !is_generator(p as int, x),
                None => forall|x: int| 1 <= x < p ==> !is_generator(p as int, x),
            },
    {
        let mut x: u64 = 1;
        while x < p
            invariant
                1 <= x <= p,
                is_prime(p as int),
                is_factorization(p - 1, factors@),
                forall|y: int| 1 <= y < x ==> !is_generator(p as int, y),
            decreases p - x,
        {
            let mut ok = true;
            let mut i: usize = 0;
            while i < factors.len()
                invariant
                    i <= factors.len(),
                    is_prime(p as int),
                    is_factorization(p - 1, factors@),
                    ok <==> forall|j: int|
                        0 <= j < i ==> #[trigger] (pow(
                            x as int,
                            ((p - 1) / (factors@[j].0 as int)) as nat,
                        ) % (p as int)) != 1,
                decreases factors.len() - i,
            {
                let q = factors[i].0;
                assert(is_prime(factors@[i as int].0 as int));
                let v = Self::_pow(p, x, (p - 1) / q);
                assert(v == pow(x as int, ((p - 1) / (factors@[i as int].0 as int)) as nat) % (
                p as int));
                if v == 1 {
                    ok = false;
                }
                i += 1;
            }
            proof {
                lemma_generator_test(p as int, x as int, factors@);
            }
            if ok {
                return Some(x);
            }
            x += 1;
        }
        None
    }

    /// The field of order `p`. Fails with `InvalidModulus` unless `p` is prime.
    /// A prime modulus always has a generator (its multiplicative group is
    /// cyclic); the contract names that condition since the theorem is not
    /// proved here.
    pub fn new(p: u64) -> (r: Result<Fp, FieldError>)
        ensures
            r is Ok <==> is_prime(p as int) && exists|g: int|
                1 <= g < p && is_generator(p as int, g),
            r is Err ==> r == Err::<Fp, FieldError>(FieldError::InvalidModulus),
            r matches Ok(f) ==> (f.wf() && f.p == p && forall|x: int|
                1 <= x < f.root ==> !is_generator(p as int, x)),
    {
        let pf = Self::factorize(p);
        proof {
            if is_prime(p as int) {
                lemma_mod_self_0(p as int);
                let i = choose|i: int| 0 <= i < pf@.len() && pf@[i].0 == p;
                assert forall|j: int| 0 <= j < pf@.len() implies pf@[j].0 == p by {
                    lemma_prime_divides_prime(pf@[j].0 as int, p as int);
                }
                if pf@.len() >= 2 {
                    assert(pf@[0].0 < pf@[1].0);
                }
            }
        }
        if !(pf.len() == 1 && pf[0].0 == p) {
            return Err(FieldError::InvalidModulus);
        }
        assert(is_prime(pf@[0].0 as int));
        let factors = Self::factorize(p - 1);
        let root = match Self::find_root(p, &factors) {
            Some(g) => g,
            None => {
                return Err(FieldError::InvalidModulus);
            },
        };
        let mut m = p - 1;
        let mut k: usize = 0;
        proof {
            lemma2_to64();
        }
        while m % 2 == 0
            invariant
                1 <= m,
                pow2(k as nat) * m == p - 1,
                k < 64,
                pow2(64) == 0x1_0000_0000_0000_0000,
            decreases m,
        {
            let ghost m0 = m as int;
            m = m / 2;
            proof {
                lemma_pow2_adds(k as nat, 1);
                lemma_pow2(1);
                lemma_pow1(2);
                assert(pow2((k + 1) as nat) * m == p - 1) by (nonlinear_arith)
                    requires
                        pow2((k + 1) as nat) == pow2(k as nat) * 2,
                        m0 == 2 * m,
                        pow2(k as nat) * m0 == p - 1,
                ;
                if k + 1 >= 64 {
                    lemma_pow2(64);
                    lemma_pow2((k + 1) as nat);
                    lemma_pow_increases(2, 64, (k + 1) as nat);
                    assert(pow2((k + 1) as nat) * m >= pow2((k + 1) as nat)) by (nonlinear_arith)
                        requires
                            m >= 1,
                    ;
                }
            }
            k += 1;
        }
        let rinv = Self::_inv(p, root);
        Ok(Fp { p, root, rinv, k, m })
    }

    /// `a + b (mod p)`
    pub fn add(&self, a: u64, b: u64) -> (r: u64)
        requires
            self.wf(),
        ensures
            r == (a + b) % (self.p as int),
    {
        Self::_add(self.p, a, b)
    }

    /// `-a (mod p)`
    pub fn neg(&self, a: u64) -> (r: u64)
        requires
            self.wf(),
        ensures
            r == (-(a as int)) % (self.p as int),
    {
        Self::_neg(self.p, a)
    }

    /// `a - b (mod p)`
    pub fn sub(&self, a: u64, b: u64) -> (r: u64)
        requires
            self.wf(),
        ensures
            r == (a - b) % (self.p as int),
    {
        Self::_sub(self.p, a, b)
    }

    /// `a * b (mod p)`
    pub fn mul(&self, a: u64, b: u64) -> (r: u64)
        requires
            self.wf(),
        ensures
            r == (a * b) % (self.p as int),
    {
        Self::_mul(self.p, a, b)
    }

    /// `a^b (mod p)`
    pub fn pow(&self, a: u64, b: usize) -> (r: u64)
        requires
            self.wf(),
        ensures
            r == pow(a as int, b as nat) % (self.p as int),
    {
        Self::_pow(self.p, a, b as u64)
    }

    /// `a^(-1) (mod p)`, computed as `a^(p-2)`. Inverting zero is a caller error.
    pub fn inv(&self, a: u64) -> (r: u64)
        requires
            self.wf(),
            (a as int) % (self.p as int) != 0,
        ensures
            r == pow(a as int, (self.p - 2) as nat) % (self.p as int),
            (a * r) % (self.p as int) == 1,
    {
        Self::_inv(self.p, a)
    }

    /// A primitive `2^a`-th root of unity, `root^(m * 2^(k-a)) (mod p)`.
    /// Fails with `InsufficientTwoAdicity` when `a > k`.
    pub fn root_pow2m(&self, a: usize) -> (r: Result<u64, FieldError>)
        requires
            self.wf(),
        ensures
            a > self.k ==> r == Err::<u64, FieldError>(FieldError::InsufficientTwoAdicity),
            a <= self.k ==> (r matches Ok(w) && w == self.unity_root(a as nat) && is_root_of_unity(
                self.p as int,
                w as int,
                a as nat,
            )),
    {
        if a > self.k {
            return Err(FieldError::InsufficientTwoAdicity);
        }
        let s = (self.k - a) as u64;
        proof {
            lemma_pow2_adds((self.k - a) as nat, a as nat);
            lemma_pow2_pos(a as nat);
            assert(self.m * pow2(s as nat) <= self.p - 1) by (nonlinear_arith)
                requires
                    pow2(self.k as nat) == pow2(s as nat) * pow2(a as nat),
                    pow2(a as nat) >= 1,
                    pow2(self.k as nat) * self.m == self.p - 1,
            ;
            vstd::bits::lemma_u64_shl_is_mul(self.m, s);
        }
        let e = self.m << s;
        let w = Self::_pow(self.p, self.root, e);
        proof {
            self.lemma_root_of_unity(a as nat);
        }
        Ok(w)
    }

    pub proof fn lemma_root_of_unity(&self, a: nat)
        requires
            self.wf(),
            a <= self.k,
        ensures
            is_root_of_unity(
                self.p as int,
                pow(self.root as int, (self.m * pow2((self.k - a) as nat)) as nat) % (self.p as int),
                a,
            ),
    {
        let p = self.p as int;
        let root = self.root as int;
        let e = (self.m * pow2((self.k - a) as nat)) as nat;
        let w = pow(root, e) % p;
        lemma_pow2_adds((self.k - a) as nat, a);
        lemma_mul_is_associative(self.m as int, pow2((self.k - a) as nat) as int, pow2(a) as int);
        assert(e * pow2(a) == p - 1) by (nonlinear_arith)
            requires
                e == self.m * pow2((self.k - a) as nat),
                pow2(self.k as nat) == pow2((self.k - a) as nat) * pow2(a),
                pow2(self.k as nat) * self.m == p - 1,
        ;
        lemma_pow_pow_mod(p, root, e, pow2(a));
        lemma_small_mod(root as nat, p as nat);
        lemma_fermat(p, root as nat);
        if a >= 1 {
            let h = ((p - 1) / 2) as nat;
            lemma_pow2_adds((self.k - 1) as nat, 1);
            lemma_pow2(1);
            lemma_pow1(2);
            assert(self.m * pow2((self.k - 1) as nat) * 2 == p - 1) by (nonlinear_arith)
                requires
                    pow2(self.k as nat) == pow2((self.k - 1) as nat) * 2,
                    pow2(self.k as nat) * self.m == p - 1,
            ;
            assert(h == self.m * pow2((self.k - 1) as nat));
            assert(is_prime(2)) by {
                assert(forall|d: int| 2 <= d < 2 ==> #[trigger] (2int % d) != 0);
            }
            assert((p - 1) % 2 == 0);
            assert(pow(root, h) % p != 1);
            assert forall|j: nat| j < a implies #[trigger] (pow(w, pow2(j)) % p) != 1 by {
                lemma_pow_pow_mod(p, root, e, pow2(j));
                lemma_pow2_adds((self.k - a) as nat, j);
                lemma_pow2_adds((self.k - a + j) as nat, (a - 1 - j) as nat);
                lemma_mul_is_associative(self.m as int, pow2((self.k - a) as nat) as int, pow2(j) as int);
                lemma_mul_is_associative(
                    self.m as int,
                    pow2((self.k - a + j) as nat) as int,
                    pow2((a - 1 - j) as nat) as int,
                );
                if pow(w, pow2(j)) % p == 1 {
                    lemma_pow_one_multiple(p, root, (e * pow2(j)) as nat, pow2((a - 1 - j) as nat));
                }
            }
            let x = pow(w, pow2((a - 1) as nat)) % p;
            lemma_pow_pow_mod(p, root, e, pow2((a - 1) as nat));
            lemma_pow2_adds((self.k - a) as nat, (a - 1) as nat);
            lemma_mul_is_associative(self.m as int, pow2((self.k - a) as nat) as int, pow2((a - 1) as nat) as int);
            assert(e * pow2((a - 1) as nat) == h);
            lemma_pow_adds(root, h, h);
            lemma_mul_mod_noop_general(pow(root, h), pow(root, h), p);
            assert(h + h == p - 1);
            lemma_mod_bound(pow(root, h), p);
            lemma_square_root_of_one(p, x);
        }
    }
}

} // verus!
