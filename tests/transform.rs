use fft::ntt::{DFT, FFT};
use fft::num::{FieldError, Fp};

#[test]
fn dft_test_extend_array() {
    let arr_1 = vec![1, 2, 3];
    let arr_2 = vec![1, 2, 3, 4];
    let arr_3 = vec![1, 2, 3, 4, 5];

    let fp = Fp::new(5).unwrap();
    let dft = DFT(fp);

    assert_eq!(dft.extend_array(&arr_1), Ok((2, vec![1, 2, 3, 0])));
    assert_eq!(dft.extend_array(&arr_2), Ok((2, vec![1, 2, 3, 4])));
    assert!(dft.extend_array(&arr_3).is_err());
}

#[test]
fn fft_test_extend_array() {
    let arr_1 = vec![1, 2, 3];
    let arr_2 = vec![1, 2, 3, 4];
    let arr_3 = vec![1, 2, 3, 4, 5];

    let fp = Fp::new(5).unwrap();
    let fft = FFT(fp);

    assert_eq!(fft.extend_array(&arr_1), Ok((2, vec![1, 2, 3, 0])));
    assert_eq!(fft.extend_array(&arr_2), Ok((2, vec![1, 2, 3, 4])));
    assert!(fft.extend_array(&arr_3).is_err());
}

#[test]
fn test_dft() {
    {
        let arr = vec![1, 2, 3, 4];
        let dft = DFT(Fp::new(5).unwrap());
        let res = dft.dft(&arr).unwrap();
        let res2 = dft.idft(&res).unwrap();
        assert_eq!(res2, arr);
    }
    {
        let arr = vec![3, 1, 4, 1, 5, 9];
        let dft = DFT(Fp::new(17).unwrap());
        let res = dft.dft(&arr).unwrap();
        let res2 = dft.idft(&res).unwrap();
        let arr_ext = vec![3, 1, 4, 1, 5, 9, 0, 0];
        assert_eq!(res2, arr_ext);
    }
    {
        let arr = vec![31415, 92653, 58979, 32384, 62643, 38327, 95028];
        let dft = DFT(Fp::new(5767169).unwrap());
        let res = dft.dft(&arr).unwrap();
        let res2 = dft.idft(&res).unwrap();
        let arr_ext = vec![31415, 92653, 58979, 32384, 62643, 38327, 95028, 0];
        assert_eq!(res2, arr_ext);
    }
    {
        let arr = vec![
            31415926, 53589793, 23846264, 33832795, 2884197, 16939937, 51058209, 74944592,
        ];
        let dft = DFT(Fp::new(998244353).unwrap());
        let res = dft.dft(&arr).unwrap();
        let res2 = dft.idft(&res).unwrap();
        assert_eq!(res2, arr);
    }
}

#[test]
fn test_fft() {
    {
        let arr = vec![1, 2, 3, 4];
        let fft = FFT(Fp::new(5).unwrap());
        let res = fft.fft(&arr).unwrap();
        let res2 = fft.ifft(&res).unwrap();
        assert_eq!(res2, arr);
    }
    {
        let arr = vec![3, 1, 4, 1, 5, 9];
        let fft = FFT(Fp::new(17).unwrap());
        let res = fft.fft(&arr).unwrap();
        let res2 = fft.ifft(&res).unwrap();
        let arr_ext = vec![3, 1, 4, 1, 5, 9, 0, 0];
        assert_eq!(res2, arr_ext);
    }
    {
        let arr = vec![31415, 92653, 58979, 32384, 62643, 38327, 95028];
        let fft = FFT(Fp::new(5767169).unwrap());
        let res = fft.fft(&arr).unwrap();
        let res2 = fft.ifft(&res).unwrap();
        let arr_ext = vec![31415, 92653, 58979, 32384, 62643, 38327, 95028, 0];
        assert_eq!(res2, arr_ext);
    }
    {
        let arr = vec![
            31415926, 53589793, 23846264, 33832795, 2884197, 16939937, 51058209, 74944592,
        ];
        let fft = FFT(Fp::new(998244353).unwrap());
        let res = fft.fft(&arr).unwrap();
        let res2 = fft.ifft(&res).unwrap();
        assert_eq!(res2, arr);
    }
}

#[test]
fn forward_p5_exact_values() {
    // w = 2 is the primitive 4th root of unity chosen for p = 5:
    // X_i = sum_j x_j 2^(ij) mod 5
    let arr = vec![1, 2, 3, 4];
    let dft = DFT(Fp::new(5).unwrap());
    assert_eq!(dft.dft(&arr).unwrap(), vec![0, 4, 3, 2]);
    let fft = FFT(Fp::new(5).unwrap());
    assert_eq!(fft.fft(&arr).unwrap(), vec![0, 4, 3, 2]);
}

#[test]
fn fast_and_naive_agree() {
    for (p, len) in [(17u64, 5usize), (5767169, 13), (998244353, 32), (12289, 16)] {
        let arr: Vec<u64> = (0..len as u64).map(|j| (j * 7919 + 13) % p).collect();
        let dft = DFT(Fp::new(p).unwrap());
        let fft = FFT(Fp::new(p).unwrap());
        assert_eq!(dft.dft(&arr).unwrap(), fft.fft(&arr).unwrap());
        assert_eq!(dft.idft(&arr).unwrap(), fft.ifft(&arr).unwrap());
    }
}

#[test]
fn two_adicity_boundary() {
    // p = 5 has k = 2: length four is the longest transform
    let fft = FFT(Fp::new(5).unwrap());
    assert_eq!(fft.fft(&[1, 2, 3, 4, 5]), Err(FieldError::InsufficientTwoAdicity));
    assert_eq!(fft.ifft(&[1, 2, 3, 4, 5]), Err(FieldError::InsufficientTwoAdicity));
    let dft = DFT(Fp::new(5).unwrap());
    assert_eq!(dft.dft(&[1, 2, 3, 4, 5]), Err(FieldError::InsufficientTwoAdicity));
    assert!(dft.dft(&[1, 2, 3, 4]).is_ok());
}

#[test]
fn round_trip_large() {
    let p = 998244353u64;
    let arr: Vec<u64> = (0..3000u64).map(|j| (j * j * 31 + 7) % p).collect();
    let fft = FFT(Fp::new(p).unwrap());
    let res = fft.ifft(&fft.fft(&arr).unwrap()).unwrap();
    assert_eq!(res.len(), 4096);
    assert_eq!(&res[..3000], &arr[..]);
    assert!(res[3000..].iter().all(|&v| v == 0));
}

#[test]
fn single_and_empty_inputs() {
    let fft = FFT(Fp::new(17).unwrap());
    assert_eq!(fft.fft(&[20]).unwrap(), vec![3]);
    assert_eq!(fft.fft(&[]).unwrap(), vec![0]);
    let dft = DFT(Fp::new(17).unwrap());
    assert_eq!(dft.dft(&[20]).unwrap(), vec![3]);
    assert_eq!(dft.extend_array(&[]), Ok((0, vec![0])));
}

#[test]
fn padding_keeps_powers_of_two() {
    let dft = DFT(Fp::new(998244353).unwrap());
    let arr: Vec<u64> = (0..16).collect();
    assert_eq!(dft.extend_array(&arr), Ok((4, arr.clone())));
    let arr17: Vec<u64> = (0..17).collect();
    let (i, v) = dft.extend_array(&arr17).unwrap();
    assert_eq!(i, 5);
    assert_eq!(v.len(), 32);
    assert_eq!(&v[..17], &arr17[..]);
    assert!(v[17..].iter().all(|&x| x == 0));
}
