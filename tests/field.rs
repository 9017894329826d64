use fft::num::{FieldError, Fp};

const P: u64 = 998244353;

#[test]
fn test_factorize() {
    assert_eq!(Fp::factorize(0), vec![]);
    assert_eq!(Fp::factorize(1), vec![]);
    assert_eq!(Fp::factorize(2), vec![(2, 1)]);
    assert_eq!(Fp::factorize(12), vec![(2, 2), (3, 1)]);
    assert_eq!(Fp::factorize(1024), vec![(2, 10)]);
    assert_eq!(Fp::factorize(3628800), vec![(2, 8), (3, 4), (5, 2), (7, 1)]);
    assert_eq!(Fp::factorize(1048576), vec![(2, 20)]);
    assert_eq!(Fp::factorize(998244353), vec![(998244353, 1)]);
    assert_eq!(Fp::factorize(1000000007), vec![(1000000007, 1)]);
}

#[test]
fn test_add() {
    let fp = Fp::new(P).unwrap();

    assert_eq!(fp.add(2, 10), 12);
    assert_eq!(fp.add(2, P - 1), 1);
}

#[test]
fn test_mul() {
    let fp = Fp::new(P).unwrap();

    assert_eq!(fp.mul(2, 10), 20);
    assert_eq!(fp.mul(2, P - 1), P - 2);
}

#[test]
fn test_pow() {
    let fp = Fp::new(P).unwrap();

    assert_eq!(fp.pow(2, 1), 2);
    assert_eq!(fp.pow(2, 2), 4);
    assert_eq!(fp.pow(2, 3), 8);
    assert_eq!(fp.pow(2, 4), 16);
    assert_eq!(fp.pow(2, 5), 32);
    assert_eq!(fp.pow(2, 6), 64);
    assert_eq!(fp.pow(2, 7), 128);
}

#[test]
fn test_inv() {
    let fp = Fp::new(P).unwrap();

    for x in (1..=10).chain(100000..=100010).chain(100000000..=100000010) {
        let xinv = fp.inv(x);
        assert_eq!(fp.mul(x, xinv), 1);
    }
}

#[test]
fn test_find_root() {
    let fp5 = Fp::new(5).unwrap();
    assert_eq!(fp5.root, 2);

    let fp7 = Fp::new(7).unwrap();
    assert_eq!(fp7.root, 3);

    let fp11 = Fp::new(11).unwrap();
    assert_eq!(fp11.root, 2);

    let fp_p = Fp::new(P).unwrap();
    assert_eq!(fp_p.root, 3);
}

#[test]
fn test_pow2m_root() {
    {
        let fp5 = Fp::new(5).unwrap();

        let fp5_0 = fp5.root_pow2m(0).unwrap();
        assert_eq!(fp5.pow(fp5_0, 1 << 0), 1);

        let fp5_1 = fp5.root_pow2m(1).unwrap();
        assert_eq!(fp5.pow(fp5_1, 1 << 1), 1);

        let fp5_2 = fp5.root_pow2m(2).unwrap();
        assert_eq!(fp5.pow(fp5_2, 1 << 2), 1);

        assert!(fp5.root_pow2m(3).is_err());
        assert_eq!(fp5.root_pow2m(3), Err(FieldError::InsufficientTwoAdicity));
    }

    {
        let fp_p = Fp::new(P).unwrap();
        for i in [0usize, 1, 2, 3, 4, 5, 6, 7, 8, 9, 10, 20, 21, 22, 23] {
            let w = fp_p.root_pow2m(i).unwrap();
            assert_eq!(fp_p.pow(w, 1 << i), 1);
        }

        assert!(fp_p.root_pow2m(24).is_err());
        assert_eq!(fp_p.root_pow2m(24), Err(FieldError::InsufficientTwoAdicity));
    }
}

#[test]
fn new_rejects_non_primes() {
    for p in [0u64, 1, 4, 9, 12289 * 3, 1000000007 * 2] {
        assert_eq!(Fp::new(p).unwrap_err(), FieldError::InvalidModulus);
    }
}

#[test]
fn new_on_two() {
    let fp = Fp::new(2).unwrap();
    assert_eq!((fp.root, fp.k, fp.m, fp.rinv), (1, 0, 1, 1));
}

#[test]
fn new_splits_p_minus_one() {
    let fp = Fp::new(P).unwrap();
    assert_eq!(fp.k, 23);
    assert_eq!(fp.m, 119);
    assert_eq!(fp.mul(fp.root, fp.rinv), 1);
    let fp17 = Fp::new(17).unwrap();
    assert_eq!((fp17.root, fp17.k, fp17.m), (3, 4, 1));
}

#[test]
fn arithmetic_reduces_large_operands() {
    let fp = Fp::new(P).unwrap();
    assert_eq!(fp.add(P, P + 3), 3);
    assert_eq!(fp.sub(2, 5), P - 3);
    assert_eq!(fp.sub(P + 5, 2), 3);
    assert_eq!(fp.neg(0), 0);
    assert_eq!(fp.neg(1), P - 1);
    assert_eq!(fp.neg(P + 1), P - 1);
    assert_eq!(fp.mul(P - 1, P - 1), 1);
    assert_eq!(fp.pow(3, 0), 1);
    assert_eq!(fp.pow(P + 3, 2), 9);
}

#[test]
fn arithmetic_near_u64_max() {
    let big = 18446744073709551557u64; // the largest prime below 2^64
    let fp = Fp::new(big).unwrap();
    assert_eq!(fp.add(big - 1, big - 1), big - 2);
    assert_eq!(fp.mul(big - 1, big - 1), 1);
    assert_eq!(fp.mul(big - 1, fp.inv(big - 1)), 1);
}

#[test]
fn root_is_primitive() {
    let fp = Fp::new(P).unwrap();
    for i in 1usize..=23 {
        let w = fp.root_pow2m(i).unwrap();
        assert_eq!(fp.pow(w, 1 << (i - 1)), P - 1);
        for j in 0..i {
            assert_ne!(fp.pow(w, 1 << j), 1);
        }
    }
}
