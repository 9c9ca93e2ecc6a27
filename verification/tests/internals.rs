use mlkem_edu::arith::{bitrev, calc_zeta, compress, decompress, modq, modq64, pow_mod, zeta, zeta2};
use mlkem_edu::encoding::{decode, encode, to_bits, to_bytes};
use mlkem_edu::hashing::{expand, hash, kdf, prf};
use mlkem_edu::ntt::{dot, inv_ntt, mat_vec, mul_ntt, ntt};
use mlkem_edu::poly::{padd, psub, vadd};
use mlkem_edu::sampling::{sample_noise, sample_ntt_from_stream, sample_uniform};
use mlkem_edu::{pke_gen, MLKEMParameters};
use mlkem_edu::pke::{pke_dec, pke_enc};
use sha3::digest::{ExtendableOutput, Update, XofReader};
use sha3::{Digest, Sha3_256, Sha3_512, Shake128, Shake256};

const Q: i32 = 3329;

fn poly(seed: u32) -> [i32; 256] {
    let mut f = [0i32; 256];
    let mut x = seed;
    for c in f.iter_mut() {
        x = x.wrapping_mul(1103515245).wrapping_add(12345);
        *c = ((x >> 8) % 3329) as i32;
    }
    f
}

/// Schoolbook product in Z_q[X]/(X^256 + 1).
fn negacyclic_mul(f: &[i32; 256], g: &[i32; 256]) -> [i32; 256] {
    let mut r = [0i64; 256];
    for i in 0..256 {
        for j in 0..256 {
            let p = f[i] as i64 * g[j] as i64;
            if i + j < 256 {
                r[i + j] += p;
            } else {
                r[i + j - 256] -= p;
            }
        }
    }
    let mut out = [0i32; 256];
    for i in 0..256 {
        out[i] = r[i].rem_euclid(3329) as i32;
    }
    out
}

#[test]
fn modular_reduction() {
    assert_eq!(modq(-1, Q), 3328);
    assert_eq!(modq(3329, Q), 0);
    assert_eq!(modq(-6658, Q), 0);
    assert_eq!(modq(7000, Q), 342);
    assert_eq!(modq64(-1_000_000_007, Q), (-1_000_000_007i64).rem_euclid(3329) as i32);
    assert_eq!(modq64(i64::MAX, Q), (i64::MAX % 3329) as i32);
}

#[test]
fn modular_exponentiation() {
    assert_eq!(pow_mod(17, 0, 3329), 1);
    assert_eq!(pow_mod(17, 1, 3329), 17);
    assert_eq!(pow_mod(17, 128, 3329), 3328);
    assert_eq!(pow_mod(17, 256, 3329), 1);
    assert_eq!(pow_mod(2, 10, 1000), 24);
    assert_eq!(pow_mod(5, 0, 1), 1);
    assert_eq!(pow_mod(5, 3, 1), 0);
}

#[test]
fn bit_reversal_and_roots() {
    assert_eq!(bitrev(0), 0);
    assert_eq!(bitrev(1), 64);
    assert_eq!(bitrev(2), 32);
    assert_eq!(bitrev(127), 127);
    assert_eq!(bitrev(128 + 3), bitrev(3));
    assert_eq!(calc_zeta(64), 1729);
    assert_eq!(zeta(1), 1729);
    assert_eq!(zeta(2), 2580);
    assert_eq!(zeta(127), 2154);
    assert_eq!(zeta2(0), 17);
    assert_eq!(zeta2(1), 3312);
    assert_eq!(zeta2(127), 1175);
}

#[test]
fn compression_values() {
    assert_eq!(compress(1, 0), 0);
    assert_eq!(compress(1, 832), 0);
    assert_eq!(compress(1, 833), 1);
    assert_eq!(compress(1, 1664), 1);
    assert_eq!(compress(1, 2496), 1);
    assert_eq!(compress(1, 2497), 0);
    assert_eq!(decompress(1, 0), 0);
    assert_eq!(decompress(1, 1), 1665);
    assert_eq!(compress(10, 3328), 0);
    assert_eq!(decompress(4, 15), 3121);
}

#[test]
fn compress_of_decompress_is_identity() {
    for d in 1..12usize {
        for y in 0..(1i32 << d) {
            assert_eq!(compress(d, decompress(d, y)), y, "d={} y={}", d, y);
        }
    }
}

#[test]
fn decompress_of_compress_is_close() {
    for d in 1..12usize {
        let bound = (3329 + (1 << d)) / (2 * (1 << d));
        for x in 0..3329 {
            let x2 = decompress(d, compress(d, x));
            let r = (x2 - x).rem_euclid(3329);
            let dist = if r <= 1664 { r } else { 3329 - r };
            assert!(dist <= bound, "d={} x={} x'={}", d, x, x2);
        }
    }
}

#[test]
fn bits_and_bytes() {
    let mut bits = [false; 16];
    to_bits(&[0b1010_0001, 0xFF], &mut bits);
    assert_eq!(
        bits,
        [true, false, false, false, false, true, false, true, true, true, true, true, true, true, true, true]
    );
    let mut bytes = [0u8; 2];
    to_bytes(&bits, &mut bytes);
    assert_eq!(bytes, [0b1010_0001, 0xFF]);
    // a partial last chunk and a short output
    let mut one = [7u8; 1];
    to_bytes(&[true, true, false, true, true], &mut one);
    assert_eq!(one, [0b11011]);
    let mut few = [true; 3];
    to_bits(&[0b0000_0010], &mut few);
    assert_eq!(few, [false, true, false]);
}

#[test]
fn decode_of_encode_is_identity() {
    for d in 1..=12usize {
        let m = if d == 12 { 3329 } else { 1 << d };
        let mut f = poly(d as u32);
        for c in f.iter_mut() {
            *c %= m;
        }
        let mut bytes = vec![0u8; 32 * d];
        encode(d, &f, &mut bytes);
        let mut g = [0i32; 256];
        decode(d, &bytes, &mut g);
        assert_eq!(f, g, "d={}", d);
    }
}

#[test]
fn encode_of_decode_is_identity() {
    for d in 1..12usize {
        let bytes: Vec<u8> = (0..32 * d).map(|i| (i * 37 + d * 11) as u8).collect();
        let mut f = [0i32; 256];
        decode(d, &bytes, &mut f);
        let mut back = vec![0u8; 32 * d];
        encode(d, &f, &mut back);
        assert_eq!(bytes, back, "d={}", d);
    }
}

#[test]
fn decode_12_reduces_mod_q() {
    let bytes = [0xFFu8; 384];
    let mut f = [0i32; 256];
    decode(12, &bytes, &mut f);
    assert!(f.iter().all(|&c| c == 4095 % 3329));
}

#[test]
fn ntt_roundtrip() {
    for s in 0..4 {
        let f = poly(100 + s);
        let mut f_hat = [0i32; 256];
        ntt(&f, &mut f_hat);
        let mut back = [0i32; 256];
        inv_ntt(&f_hat, &mut back);
        assert_eq!(f, back);
        let mut g = [0i32; 256];
        inv_ntt(&f, &mut g);
        let mut again = [0i32; 256];
        ntt(&g, &mut again);
        assert_eq!(f, again);
    }
}

#[test]
fn ntt_gives_remainders_modulo_quadratic_factors() {
    // NTT(f)[2i] + NTT(f)[2i+1] X = f mod (X^2 - gamma_i), gamma_i = zeta^(2 BitRev7(i) + 1)
    let f = poly(31);
    let mut f_hat = [0i32; 256];
    ntt(&f, &mut f_hat);
    for i in 0..128usize {
        let g = zeta2(i) as i64;
        let (mut even, mut odd, mut power) = (0i64, 0i64, 1i64);
        for m in 0..128usize {
            even = (even + f[2 * m] as i64 * power) % 3329;
            odd = (odd + f[2 * m + 1] as i64 * power) % 3329;
            power = power * g % 3329;
        }
        assert_eq!(f_hat[2 * i] as i64, even);
        assert_eq!(f_hat[2 * i + 1] as i64, odd);
    }
}

#[test]
fn ntt_multiplication_is_negacyclic_product() {
    let f = poly(7);
    let g = poly(8);
    let (mut f_hat, mut g_hat, mut h_hat, mut h) = ([0i32; 256], [0i32; 256], [0i32; 256], [0i32; 256]);
    ntt(&f, &mut f_hat);
    ntt(&g, &mut g_hat);
    mul_ntt(&f_hat, &g_hat, &mut h_hat);
    inv_ntt(&h_hat, &mut h);
    assert_eq!(h, negacyclic_mul(&f, &g));
}

#[test]
fn polynomial_and_vector_sums() {
    let u = poly(1);
    let v = poly(2);
    let mut s = [0i32; 256];
    padd(&u, &v, &mut s);
    let mut d = [0i32; 256];
    psub(&s, &v, &mut d);
    assert_eq!(d, u);
    let vu = [u, v, u, v];
    let vv = [v, u, v, u];
    let mut out = [[9i32; 256]; 4];
    vadd(&vu, &vv, 2, &mut out);
    assert_eq!(out[0], s);
    assert_eq!(out[2], [9i32; 256]);
}

#[test]
fn dot_and_matrix_products() {
    let a = [[poly(1), poly(2), poly(3), poly(4)], [poly(5), poly(6), poly(7), poly(8)], [poly(9); 4], [poly(10); 4]];
    let s = [poly(11), poly(12), poly(13), poly(14)];
    let mut out = [[5i32; 256]; 4];
    mat_vec(&a, &s, 2, &mut out);
    let mut row0 = [0i32; 256];
    dot(&a[0], &s, 2, &mut row0);
    assert_eq!(out[0], row0);
    assert_eq!(out[3], [5i32; 256]);
    let mut p0 = [0i32; 256];
    let mut p1 = [0i32; 256];
    mul_ntt(&a[0][0], &s[0], &mut p0);
    mul_ntt(&a[0][1], &s[1], &mut p1);
    let mut sum = [0i32; 256];
    padd(&p0, &p1, &mut sum);
    assert_eq!(row0, sum);
}

#[test]
fn uniform_sampling_matches_shake128_stream() {
    let rho = [0x42u8; 32];
    let a = sample_uniform(&rho, 1, 2).unwrap();
    let mut xof = Shake128::default();
    xof.update(&rho);
    xof.update(&[2, 1]);
    let mut reader = xof.finalize_xof();
    let mut expected = Vec::new();
    while expected.len() < 256 {
        let mut b = [0u8; 3];
        reader.read(&mut b);
        let d1 = b[0] as i32 | ((b[1] as i32 & 0x0F) << 8);
        let d2 = (b[1] as i32 >> 4) | ((b[2] as i32) << 4);
        if d1 < 3329 {
            expected.push(d1);
        }
        if d2 < 3329 && expected.len() < 256 {
            expected.push(d2);
        }
    }
    assert_eq!(a.to_vec(), expected);
}

#[test]
fn noise_sampling_is_centered_binomial() {
    for eta in [2usize, 3] {
        let b: Vec<u8> = (0..64 * eta).map(|i| (i * 29 + 3) as u8).collect();
        let mut out = [0i32; 256];
        sample_noise(eta, &b, &mut out);
        for (i, &c) in out.iter().enumerate() {
            let bit = |t: usize| (b[t / 8] >> (t % 8)) & 1;
            let x: i32 = (0..eta).map(|j| bit(2 * i * eta + j) as i32).sum();
            let y: i32 = (0..eta).map(|j| bit(2 * i * eta + eta + j) as i32).sum();
            assert_eq!(c, (x - y).rem_euclid(3329));
        }
    }
}

#[test]
fn hash_functions() {
    let data = b"ML-KEM";
    assert_eq!(&hash(data)[..], &Sha3_256::digest(data)[..]);
    let (a, b) = expand(data);
    let g = Sha3_512::digest(data);
    assert_eq!(&a[..], &g[..32]);
    assert_eq!(&b[..], &g[32..]);
    let mut j = [0u8; 32];
    Shake256::digest_xof(data, &mut j);
    assert_eq!(kdf(data), j);
    let out = prf(2, data, 9);
    let mut xof = Shake256::default();
    xof.update(data);
    xof.update(&[9]);
    let mut expected = [0u8; 128];
    xof.finalize_xof().read(&mut expected);
    assert_eq!(out, expected.to_vec());
}

#[test]
fn pke_roundtrip() {
    for name in ["ML-KEM-512", "ML-KEM-768", "ML-KEM-1024"] {
        let p = MLKEMParameters::new(name).unwrap();
        let mut ek = vec![0u8; 384 * p.k + 32];
        let mut dk = vec![0u8; 384 * p.k];
        pke_gen(&[1u8; 32], &p, &mut ek, &mut dk).unwrap();
        let m: Vec<u8> = (0..32).map(|i| (i * 101) as u8).collect();
        let mut c = vec![0u8; p.ciphertext_length];
        pke_enc(&ek, &m, &[5u8; 32], &p, &mut c).unwrap();
        let mut m2 = [0u8; 32];
        pke_dec(&dk, &c, &p, &mut m2);
        assert_eq!(m, m2.to_vec(), "{}", name);
    }
}

#[test]
fn message_only_changes_the_v_part() {
    for name in ["ML-KEM-512", "ML-KEM-768", "ML-KEM-1024"] {
        let p = MLKEMParameters::new(name).unwrap();
        let mut ek = vec![0u8; 384 * p.k + 32];
        let mut dk = vec![0u8; 384 * p.k];
        pke_gen(&[3u8; 32], &p, &mut ek, &mut dk).unwrap();
        let m1 = [0u8; 32];
        let mut m2 = [0u8; 32];
        m2[17] = 0x10;
        let mut c1 = vec![0u8; p.ciphertext_length];
        let mut c2 = vec![0u8; p.ciphertext_length];
        pke_enc(&ek, &m1, &[6u8; 32], &p, &mut c1).unwrap();
        pke_enc(&ek, &m2, &[6u8; 32], &p, &mut c2).unwrap();
        let split = 32 * p.du * p.k;
        assert_eq!(&c1[..split], &c2[..split], "{}", name);
        assert_ne!(&c1[split..], &c2[split..], "{}", name);
    }
}

#[test]
fn rejection_sampling_on_given_bytes() {
    // each group 01 00 00 gives the candidates 1 and 0, both kept
    let stream: Vec<u8> = (0..128).flat_map(|_| [0x01u8, 0x00, 0x00]).collect();
    let a = sample_ntt_from_stream(&stream).unwrap();
    for i in 0..128 {
        assert_eq!((a[2 * i], a[2 * i + 1]), (1, 0));
    }
    // one group short, and a trailing partial group is ignored
    assert!(sample_ntt_from_stream(&stream[..381]).is_none());
    assert!(sample_ntt_from_stream(&stream[..383]).is_none());
    // 01 2D 0C: the first candidate is q itself (rejected), the second is 194
    let mut mixed = vec![0x01u8, 0x2D, 0x0C, 0xFF, 0xFF, 0xFF];
    mixed.extend_from_slice(&stream);
    let b = sample_ntt_from_stream(&mixed).unwrap();
    assert_eq!(b[0], 194);
    assert_eq!((b[1], b[2]), (1, 0));
    assert_eq!(b[255], 1);
    assert!(sample_ntt_from_stream(&[]).is_none());
}

#[test]
fn uniform_sampling_is_rejection_sampling_of_the_stream() {
    let rho = [0x17u8; 32];
    let mut xof = Shake128::default();
    xof.update(&rho);
    xof.update(&[0, 3]);
    let mut stream = vec![0u8; 504];
    xof.finalize_xof().read(&mut stream);
    assert_eq!(sample_uniform(&rho, 3, 0), sample_ntt_from_stream(&stream));
}
