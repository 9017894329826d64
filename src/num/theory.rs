//! Elementary number theory used by the field arithmetic: primality,
//! Bezout's identity, Euclid's lemma and Fermat's little theorem.
use vstd::arithmetic::div_mod::*;
use vstd::arithmetic::mul::*;
use vstd::arithmetic::power::*;
use vstd::prelude::*;

verus! {

/// `n` is prime: at least two, and no integer in `[2, n)` divides it.
pub open spec fn is_prime(n: int) -> bool {
    n >= 2 && forall|d: int| 2 <= d < n ==> #[trigger] (n % d) != 0
}

/// Greatest common divisor by Euclid's algorithm.
pub open spec fn gcd(a: nat, b: nat) -> nat
    decreases b,
{
    if b == 0 {
        a
    } else {
        gcd(b, a % b)
    }
}

/// `b^(e+1) == b * b^e`.
pub proof fn lemma_pow_succ(b: int, e: nat)
    ensures
        pow(b, e + 1) == b * pow(b, e),
{
    lemma_pow_adds(b, 1, e);
    lemma_pow1(b);
}

/// Coefficients `(u, v)` with `u * a + v * b == gcd(a, b)`.
pub proof fn lemma_bezout(a: nat, b: nat) -> (r: (int, int))
    ensures
        r.0 * a + r.1 * b == gcd(a, b),
    decreases b,
{
    if b == 0 {
        (1, 0)
    } else {
        let (u, v) = lemma_bezout(b, a % b);
        lemma_fundamental_div_mod(a as int, b as int);
        let q = (a / b) as int;
        let r = (a % b) as int;
        assert(a == b * q + r);
        assert(u * b + v * r == v * a + (u - v * q) * b) by (nonlinear_arith)
            requires
                a == b * q + r,
        ;
        (v, u - v * q)
    }
}

/// The greatest common divisor divides both arguments.
pub proof fn lemma_gcd_divides(a: nat, b: nat)
    ensures
        a > 0 || b > 0 ==> gcd(a, b) > 0,
        gcd(a, b) > 0 ==> (a as int) % (gcd(a, b) as int) == 0 && (b as int) % (gcd(a, b) as int) == 0,
    decreases b,
{
    if b == 0 {
        if a > 0 {
            lemma_mod_self_0(a as int);
        }
    } else {
        lemma_gcd_divides(b, a % b);
        let g = gcd(a, b) as int;
        if g > 0 {
            let q = (a / b) as int;
            let r = (a % b) as int;
            lemma_fundamental_div_mod(a as int, b as int);
            lemma_fundamental_div_mod(b as int, g);
            lemma_fundamental_div_mod(r, g);
            let s = (b as int) / g;
            let t = r / g;
            assert(a == g * (q * s + t)) by (nonlinear_arith)
                requires
                    a == b * q + r,
                    b == g * s,
                    r == g * t,
            ;
            lemma_mod_multiples_basic(q * s + t, g);
            lemma_mul_is_commutative(g, q * s + t);
        }
    }
}

/// Euclid's lemma: a prime dividing a product divides one of its factors.
pub proof fn lemma_euclid(p: int, a: int, b: int)
    requires
        is_prime(p),
        (a * b) % p == 0,
    ensures
        a % p == 0 || b % p == 0,
{
    let r = a % p;
    if r != 0 {
        lemma_mul_mod_noop_left(a, b, p);
        assert((r * b) % p == 0);
        lemma_gcd_divides(p as nat, r as nat);
        let g = gcd(p as nat, r as nat) as int;
        lemma_mod_is_zero(r as nat, g as nat);
        assert(g == 1) by {
            if g != 1 {
                assert(p % g != 0);
            }
        }
        let (u, v) = lemma_bezout(p as nat, r as nat);
        assert(b == p * (u * b) + v * (r * b)) by (nonlinear_arith)
            requires
                u * p + v * r == 1,
        ;
        lemma_mod_multiples_vanish(u * b, v * (r * b), p);
        lemma_mul_mod_noop_right(v, r * b, p);
        assert(v * 0 == 0);
    }
}

/// Number of `k`-element subsets of an `n`-element set, by Pascal's rule.
pub open spec fn binomial(n: nat, k: nat) -> nat
    decreases n,
{
    if k == 0 {
        1
    } else if n == 0 {
        0
    } else {
        binomial((n - 1) as nat, (k - 1) as nat) + binomial((n - 1) as nat, k)
    }
}

/// `sum_{i < j} binomial(n, i) * x^i`
pub open spec fn binom_sum(x: int, n: nat, j: nat) -> int
    decreases j,
{
    if j == 0 {
        0
    } else {
        binom_sum(x, n, (j - 1) as nat) + binomial(n, (j - 1) as nat) * pow(x, (j - 1) as nat)
    }
}

proof fn lemma_binomial_coeff_above(n: nat, k: nat)
    requires
        k > n,
    ensures
        binomial(n, k) == 0,
    decreases n,
{
    if n > 0 {
        lemma_binomial_coeff_above((n - 1) as nat, (k - 1) as nat);
        lemma_binomial_coeff_above((n - 1) as nat, k);
    }
}

proof fn lemma_binomial_coeff_diag(n: nat)
    ensures
        binomial(n, n) == 1,
    decreases n,
{
    if n > 0 {
        lemma_binomial_coeff_diag((n - 1) as nat);
        lemma_binomial_coeff_above((n - 1) as nat, n);
    }
}

proof fn lemma_binom_sum_step(x: int, n: nat, j: nat)
    ensures
        binom_sum(x, n + 1, j + 1) == x * binom_sum(x, n, j) + binom_sum(x, n, j + 1),
    decreases j,
{
    if j == 0 {
        lemma_pow0(x);
        assert(binom_sum(x, n + 1, 1) == binom_sum(x, n + 1, 0) + binomial(n + 1, 0) * pow(x, 0));
        assert(binom_sum(x, n, 1) == binom_sum(x, n, 0) + binomial(n, 0) * pow(x, 0));
        assert(x * 0 == 0);
    } else {
        let jm = (j - 1) as nat;
        lemma_binom_sum_step(x, n, jm);
        lemma_pow_succ(x, jm);
        let a = binom_sum(x, n, jm);
        let c0 = binomial(n, jm);
        let c1 = binomial(n, j);
        let pj = pow(x, jm);
        assert(binomial(n + 1, j) == c0 + c1);
        assert(pow(x, j) == x * pj);
        assert(binom_sum(x, n + 1, j + 1) == binom_sum(x, n + 1, j) + (c0 + c1) * pow(x, j));
        assert(binom_sum(x, n, j) == a + c0 * pj);
        assert(binom_sum(x, n, j + 1) == binom_sum(x, n, j) + c1 * pow(x, j));
        assert(x * (a + c0 * pj) == x * a + c0 * (x * pj)) by (nonlinear_arith);
        assert((c0 + c1) * (x * pj) == c0 * (x * pj) + c1 * (x * pj)) by (nonlinear_arith);
    }
}

/// The binomial theorem: `(x + 1)^n == sum_{i <= n} binomial(n, i) * x^i`.
pub proof fn lemma_binomial(x: int, n: nat)
    ensures
        pow(x + 1, n) == binom_sum(x, n, n + 1),
    decreases n,
{
    if n == 0 {
        lemma_pow0(x);
        lemma_pow0(x + 1);
        assert(binom_sum(x, 0, 1) == binom_sum(x, 0, 0) + binomial(0, 0) * pow(x, 0));
    } else {
        let nm = (n - 1) as nat;
        lemma_binomial(x, nm);
        lemma_pow_succ(x + 1, nm);
        lemma_binom_sum_step(x, nm, n);
        lemma_binomial_coeff_above(nm, n);
        let b = binom_sum(x, nm, n);
        assert(binom_sum(x, nm, n + 1) == b + binomial(nm, n) * pow(x, n));
        assert(nm + 1 == n);
        assert(pow(x + 1, n) == (x + 1) * pow(x + 1, nm));
        assert(binom_sum(x, n, n + 1) == x * b + binom_sum(x, nm, n + 1));
        assert((x + 1) * b == x * b + b) by (nonlinear_arith);
    }
}

/// `k * binomial(n, k) == n * binomial(n - 1, k - 1)`.
proof fn lemma_binomial_coeff_absorb(n: nat, k: nat)
    requires
        n >= 1,
        k >= 1,
    ensures
        k * binomial(n, k) == n * binomial((n - 1) as nat, (k - 1) as nat),
    decreases n,
{
    let c = binomial((n - 1) as nat, (k - 1) as nat);
    let d = binomial((n - 1) as nat, k);
    assert(binomial(n, k) == c + d);
    if n == 1 {
        lemma_binomial_coeff_above(0, k);
        if k > 1 {
            lemma_binomial_coeff_above(0, (k - 1) as nat);
        }
        assert(k * (c + d) == n * c) by (nonlinear_arith)
            requires
                d == 0,
                k == 1 || c == 0,
                n == 1,
        ;
    } else {
        lemma_binomial_coeff_absorb((n - 1) as nat, k);
        let e = binomial((n - 2) as nat, (k - 1) as nat);
        assert(k * d == (n - 1) * e);
        if k == 1 {
            assert(c == 1);
            assert(e == 1);
            assert(d == n - 1) by (nonlinear_arith)
                requires
                    k == 1,
                    e == 1,
                    k * d == (n - 1) * e,
            ;
            assert(k * (c + d) == n * c) by (nonlinear_arith)
                requires
                    k == 1,
                    c == 1,
                    d == n - 1,
            ;
        } else {
            lemma_binomial_coeff_absorb((n - 1) as nat, (k - 1) as nat);
            let f = binomial((n - 2) as nat, (k - 2) as nat);
            assert((k - 1) * c == (n - 1) * f);
            assert(c == f + e);
            assert(k * (c + d) == n * c) by (nonlinear_arith)
                requires
                    k * d == (n - 1) * e,
                    (k - 1) * c == (n - 1) * f,
                    c == f + e,
            ;
        }
    }
}

proof fn lemma_prime_divides_binomial(p: int, k: nat)
    requires
        is_prime(p),
        1 <= k < p,
    ensures
        (binomial(p as nat, k) as int) % p == 0,
{
    lemma_binomial_coeff_absorb(p as nat, k);
    let c = binomial((p - 1) as nat, (k - 1) as nat) as int;
    lemma_mod_multiples_basic(c, p);
    lemma_mul_is_commutative(c, p);
    lemma_euclid(p, k as int, binomial(p as nat, k) as int);
    lemma_small_mod(k, p as nat);
}

proof fn lemma_binom_sum_mod_prime(p: int, x: int, j: nat)
    requires
        is_prime(p),
        1 <= j <= p,
    ensures
        binom_sum(x, p as nat, j) % p == 1,
    decreases j,
{
    if j == 1 {
        lemma_pow0(x);
        assert(binom_sum(x, p as nat, 1) == binom_sum(x, p as nat, 0) + binomial(p as nat, 0) * pow(x, 0));
        lemma_small_mod(1, p as nat);
    } else {
        let jm = (j - 1) as nat;
        lemma_binom_sum_mod_prime(p, x, jm);
        lemma_prime_divides_binomial(p, jm);
        let c = binomial(p as nat, jm) as int;
        lemma_fundamental_div_mod(c, p);
        let t = c / p;
        let s = binom_sum(x, p as nat, jm);
        assert(c * pow(x, jm) == p * (t * pow(x, jm))) by (nonlinear_arith)
            requires
                c == p * t,
        ;
        assert(binom_sum(x, p as nat, j) == p * (t * pow(x, jm)) + s);
        lemma_mod_multiples_vanish(t * pow(x, jm), s, p);
    }
}

/// Freshman's dream: `(x + 1)^p == x^p + 1 (mod p)` for a prime `p`.
pub proof fn lemma_freshman(p: int, x: int)
    requires
        is_prime(p),
    ensures
        pow(x + 1, p as nat) % p == (pow(x, p as nat) + 1) % p,
{
    lemma_binomial(x, p as nat);
    lemma_binom_sum_mod_prime(p, x, p as nat);
    lemma_binomial_coeff_diag(p as nat);
    let s = binom_sum(x, p as nat, p as nat);
    assert(pow(x + 1, p as nat) == s + pow(x, p as nat));
    lemma_add_mod_noop(s, pow(x, p as nat), p);
    lemma_add_mod_noop(1, pow(x, p as nat), p);
    lemma_small_mod(1, p as nat);
}

/// `a^p == a (mod p)` for a prime `p`.
pub proof fn lemma_pow_prime(p: int, a: nat)
    requires
        is_prime(p),
    ensures
        pow(a as int, p as nat) % p == (a as int) % p,
    decreases a,
{
    if a == 0 {
        lemma0_pow(p as nat);
    } else {
        let b = (a - 1) as nat;
        lemma_pow_prime(p, b);
        lemma_freshman(p, b as int);
        lemma_add_mod_noop(pow(b as int, p as nat), 1, p);
        lemma_add_mod_noop(b as int, 1, p);
    }
}

/// Fermat's little theorem: `a^(p-1) == 1 (mod p)` when `p` is prime and does not divide `a`.
pub proof fn lemma_fermat(p: int, a: nat)
    requires
        is_prime(p),
        (a as int) % p != 0,
    ensures
        pow(a as int, (p - 1) as nat) % p == 1,
{
    let e = (p - 1) as nat;
    lemma_pow_prime(p, a);
    lemma_pow_succ(a as int, e);
    let q = pow(a as int, e);
    assert(a * (q - 1) == a * q - a) by (nonlinear_arith);
    lemma_sub_mod_noop(a * q, a as int, p);
    lemma_mod_self_0(p);
    assert((a * q - a) % p == 0) by {
        assert(((a * q) % p - (a as int) % p) == 0);
        assert(0int % p == 0);
    }
    lemma_euclid(p, a as int, q - 1);
    lemma_sub_mod_noop(q, 1, p);
    lemma_small_mod(1, p as nat);
    lemma_mod_bound(q, p);
    assert(((q % p) - 1) % p == 0);
    let r = q % p;
    if r == 0 {
        lemma_mod_add_multiples_vanish(-1, p);
        lemma_small_mod((p - 1) as nat, p as nat);
    } else {
        lemma_small_mod((r - 1) as nat, p as nat);
    }
}

/// Divisibility is transitive.
pub proof fn lemma_divides_trans(a: int, b: int, c: int)
    requires
        a > 0,
        b > 0,
        b % a == 0,
        c % b == 0,
    ensures
        c % a == 0,
{
    lemma_fundamental_div_mod(b, a);
    lemma_fundamental_div_mod(c, b);
    let s = b / a;
    let t = c / b;
    assert(c == a * (s * t)) by (nonlinear_arith)
        requires
            b == a * s,
            c == b * t,
    ;
    lemma_mod_multiples_basic(s * t, a);
    lemma_mul_is_commutative(a, s * t);
}

/// A number of at least two with no divisor in `[2, d)`, where `d * d > x`, is prime.
pub proof fn lemma_prime_no_small_divisor(x: int, d: int)
    requires
        x >= 2,
        d >= 2,
        d * d > x,
        forall|q: int| 2 <= q < d ==> #[trigger] (x % q) != 0,
    ensures
        is_prime(x),
{
    assert forall|q: int| 2 <= q < x implies #[trigger] (x % q) != 0 by {
        if x % q == 0 {
            lemma_fundamental_div_mod(x, q);
            let t = x / q;
            assert(x == q * t);
            assert(t >= 2) by (nonlinear_arith)
                requires
                    x == q * t,
                    2 <= q < x,
            ;
            if q >= d && t >= d {
                assert(q * t >= d * d) by (nonlinear_arith)
                    requires
                        q >= d,
                        t >= d,
                        d >= 0,
                ;
            }
            if t < d {
                lemma_mod_multiples_basic(q, t);
                assert(x % t == 0);
            }
        }
    }
}

/// A prime that divides a prime is that prime.
pub proof fn lemma_prime_divides_prime(q: int, r: int)
    requires
        is_prime(q),
        is_prime(r),
        r % q == 0,
    ensures
        q == r,
{
    if q > r {
        lemma_small_mod(r as nat, q as nat);
    }
}

/// `x^y == 1 (mod p)` implies `x^(y*z) == 1 (mod p)`.
pub proof fn lemma_pow_one_multiple(p: int, x: int, y: nat, z: nat)
    requires
        p > 1,
        pow(x, y) % p == 1,
    ensures
        pow(x, y * z) % p == 1,
{
    lemma_pow_multiplies(x, y, z);
    lemma_pow_mod_noop(pow(x, y), z, p);
    lemma1_pow(z);
    lemma_small_mod(1, p as nat);
}

/// Modulo a prime, a square root of one other than one is minus one.
pub proof fn lemma_square_root_of_one(p: int, x: int)
    requires
        is_prime(p),
        0 <= x < p,
        (x * x) % p == 1,
        x != 1,
    ensures
        x == p - 1,
{
    assert((x - 1) * (x + 1) == x * x - 1) by (nonlinear_arith);
    lemma_sub_mod_noop(x * x, 1, p);
    lemma_small_mod(1, p as nat);
    assert(0int % p == 0);
    lemma_euclid(p, x - 1, x + 1);
    if x == 0 {
        lemma_mod_add_multiples_vanish(-1, p);
        lemma_small_mod((p - 1) as nat, p as nat);
    } else {
        lemma_small_mod((x - 1) as nat, p as nat);
        if x + 1 < p {
            lemma_small_mod((x + 1) as nat, p as nat);
        }
    }
}

} // verus!
