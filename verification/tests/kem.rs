use mlkem_edu::{
    check_dk, check_ek, ml_kem_decaps, ml_kem_encaps, ml_kem_keygen, pke_gen, MLKEMParameters,
    MlKemError,
};
use sha3::digest::{ExtendableOutput, Update, XofReader};
use sha3::{Digest, Sha3_256, Sha3_512, Shake256};

const NAMES: [&str; 3] = ["ML-KEM-512", "ML-KEM-768", "ML-KEM-1024"];

fn seed(start: u8) -> [u8; 32] {
    let mut s = [0u8; 32];
    for (i, b) in s.iter_mut().enumerate() {
        *b = start.wrapping_add(i as u8).wrapping_mul(7);
    }
    s
}

fn keypair(p: &MLKEMParameters, d: &[u8; 32], z: &[u8; 32]) -> (Vec<u8>, Vec<u8>) {
    let mut ek = vec![0u8; p.public_key_length];
    let mut dk = vec![0u8; p.secret_key_length];
    ml_kem_keygen(d, z, p, &mut ek, &mut dk).unwrap();
    (ek, dk)
}

#[test]
fn parameter_sets_by_name() {
    let p = MLKEMParameters::new("ML-KEM-512").unwrap();
    assert_eq!(p.name, "ML-KEM-512");
    assert_eq!((p.k, p.eta1, p.eta2, p.du, p.dv), (2, 3, 2, 10, 4));
    assert_eq!((p.public_key_length, p.secret_key_length, p.ciphertext_length), (800, 1632, 768));
    let p = MLKEMParameters::new("ML-KEM-768").unwrap();
    assert_eq!((p.k, p.eta1, p.eta2, p.du, p.dv), (3, 2, 2, 10, 4));
    assert_eq!((p.public_key_length, p.secret_key_length, p.ciphertext_length), (1184, 2400, 1088));
    let p = MLKEMParameters::new("ML-KEM-1024").unwrap();
    assert_eq!((p.k, p.eta1, p.eta2, p.du, p.dv), (4, 2, 2, 11, 5));
    assert_eq!((p.public_key_length, p.secret_key_length, p.ciphertext_length), (1568, 3168, 1568));
}

#[test]
fn unknown_parameter_set_is_rejected() {
    assert_eq!(MLKEMParameters::new("ML-KEM-256").unwrap_err(), "Unknown parameter set");
    assert_eq!(MLKEMParameters::new("").unwrap_err(), "Unknown parameter set");
    assert_eq!(MLKEMParameters::new("ml-kem-512").unwrap_err(), "Unknown parameter set");
}

#[test]
fn encaps_then_decaps_agree() {
    for name in NAMES {
        let p = MLKEMParameters::new(name).unwrap();
        let (ek, dk) = keypair(&p, &seed(1), &seed(2));
        let mut key = [0u8; 32];
        let mut c = vec![0u8; p.ciphertext_length];
        ml_kem_encaps(&ek, &seed(3), &p, &mut key, &mut c).unwrap();
        let mut key2 = [0u8; 32];
        ml_kem_decaps(&dk, &c, &p, &mut key2).unwrap();
        assert_eq!(key, key2, "{}", name);
    }
}

#[test]
fn keygen_is_deterministic_and_seed_dependent() {
    let p = MLKEMParameters::new("ML-KEM-768").unwrap();
    let (ek1, dk1) = keypair(&p, &seed(10), &seed(11));
    let (ek2, dk2) = keypair(&p, &seed(10), &seed(11));
    assert_eq!(ek1, ek2);
    assert_eq!(dk1, dk2);
    let (ek3, _) = keypair(&p, &seed(12), &seed(11));
    assert_ne!(ek1, ek3);
}

#[test]
fn keygen_layout_follows_the_standard() {
    for name in NAMES {
        let p = MLKEMParameters::new(name).unwrap();
        let d = seed(20);
        let z = seed(21);
        let (ek, dk) = keypair(&p, &d, &z);
        let k = p.k;
        // rho = G(d || k)[..32] ends the encapsulation key
        let mut g_in = d.to_vec();
        g_in.push(k as u8);
        let g = Sha3_512::digest(&g_in);
        assert_eq!(&ek[384 * k..], &g[..32]);
        // dk = dk_pke || ek || H(ek) || z
        assert_eq!(&dk[384 * k..768 * k + 32], &ek[..]);
        assert_eq!(&dk[768 * k + 32..768 * k + 64], &Sha3_256::digest(&ek)[..]);
        assert_eq!(&dk[768 * k + 64..], &z[..]);
    }
}

#[test]
fn keygen_leaves_extra_bytes_alone() {
    let p = MLKEMParameters::new("ML-KEM-512").unwrap();
    let mut ek = vec![0xAAu8; p.public_key_length + 5];
    let mut dk = vec![0xBBu8; p.secret_key_length + 3];
    ml_kem_keygen(&seed(1), &seed(2), &p, &mut ek, &mut dk).unwrap();
    assert_eq!(&ek[p.public_key_length..], &[0xAA; 5]);
    assert_eq!(&dk[p.secret_key_length..], &[0xBB; 3]);
}

#[test]
fn encaps_key_is_first_half_of_g() {
    let p = MLKEMParameters::new("ML-KEM-512").unwrap();
    let (ek, _) = keypair(&p, &seed(30), &seed(31));
    let m = seed(32);
    let mut key = [0u8; 32];
    let mut c = vec![0u8; p.ciphertext_length];
    ml_kem_encaps(&ek, &m, &p, &mut key, &mut c).unwrap();
    let mut g_in = m.to_vec();
    g_in.extend_from_slice(&Sha3_256::digest(&ek));
    let g = Sha3_512::digest(&g_in);
    assert_eq!(&key[..], &g[..32]);
    assert_ne!(c, vec![0u8; p.ciphertext_length]);
}

#[test]
fn decaps_rejects_tampered_ciphertext_implicitly() {
    for name in NAMES {
        let p = MLKEMParameters::new(name).unwrap();
        let z = seed(41);
        let (ek, dk) = keypair(&p, &seed(40), &z);
        let mut key = [0u8; 32];
        let mut c = vec![0u8; p.ciphertext_length];
        ml_kem_encaps(&ek, &seed(42), &p, &mut key, &mut c).unwrap();
        c[5] ^= 0x01;
        let mut key2 = [0u8; 32];
        ml_kem_decaps(&dk, &c, &p, &mut key2).unwrap();
        assert_ne!(key, key2);
        // K = J(z || c)
        let mut xof = Shake256::default();
        xof.update(&z);
        xof.update(&c);
        let mut expected = [0u8; 32];
        xof.finalize_xof().read(&mut expected);
        assert_eq!(key2, expected, "{}", name);
    }
}

#[test]
fn check_ek_accepts_generated_and_rejects_bad_keys() {
    for name in NAMES {
        let p = MLKEMParameters::new(name).unwrap();
        let (ek, _) = keypair(&p, &seed(50), &seed(51));
        assert!(check_ek(&ek, &p));
        // wrong length
        assert!(!check_ek(&ek[..ek.len() - 1], &p));
        // first coefficient set to 4095 >= q
        let mut bad = ek.clone();
        bad[0] = 0xFF;
        bad[1] |= 0x0F;
        assert!(!check_ek(&bad, &p));
        // rho is not checked
        let mut other = ek.clone();
        let last = other.len() - 1;
        other[last] ^= 0xFF;
        assert!(check_ek(&other, &p));
    }
}

#[test]
fn check_dk_accepts_generated_and_rejects_bad_keys() {
    for name in NAMES {
        let p = MLKEMParameters::new(name).unwrap();
        let (_, dk) = keypair(&p, &seed(60), &seed(61));
        assert!(check_dk(&dk, &p));
        assert!(!check_dk(&dk[..dk.len() - 1], &p));
        let mut bad = dk.clone();
        bad[768 * p.k + 40] ^= 0x80;
        assert!(!check_dk(&bad, &p));
        let mut bad_ek = dk.clone();
        bad_ek[384 * p.k] ^= 0x01;
        assert!(!check_dk(&bad_ek, &p));
    }
}

#[test]
fn pke_gen_matches_keygen_parts() {
    let p = MLKEMParameters::new("ML-KEM-1024").unwrap();
    let d = seed(70);
    let mut ek = vec![0u8; 384 * p.k + 32];
    let mut dk = vec![0u8; 384 * p.k];
    pke_gen(&d, &p, &mut ek, &mut dk).unwrap();
    let (kem_ek, kem_dk) = keypair(&p, &d, &seed(71));
    assert_eq!(ek, kem_ek);
    assert_eq!(&dk[..], &kem_dk[..384 * p.k]);
}

#[test]
fn error_type_is_comparable() {
    let e = MlKemError::SamplingLimit;
    assert_eq!(e, MlKemError::SamplingLimit);
    assert_eq!(format!("{:?}", e), "SamplingLimit");
}

#[test]
fn z_only_changes_the_tail_of_dk() {
    for name in NAMES {
        let p = MLKEMParameters::new(name).unwrap();
        let (z1, z2) = (seed(80), seed(81));
        let (ek1, dk1) = keypair(&p, &seed(79), &z1);
        let (ek2, dk2) = keypair(&p, &seed(79), &z2);
        let t = 768 * p.k + 64;
        assert_eq!(ek1, ek2);
        assert_eq!(&dk1[..t], &dk2[..t]);
        assert_eq!(&dk1[t..], &z1[..]);
        assert_eq!(&dk2[t..], &z2[..]);
    }
}

#[test]
fn encaps_reads_only_the_key_prefix() {
    let p = MLKEMParameters::new("ML-KEM-512").unwrap();
    let (ek, _) = keypair(&p, &seed(90), &seed(91));
    let mut long_ek = ek.clone();
    long_ek.extend_from_slice(&[0xAB; 40]);
    let (mut k1, mut k2) = ([0u8; 32], [0u8; 32]);
    let mut c1 = vec![0u8; p.ciphertext_length];
    let mut c2 = vec![0x5Au8; p.ciphertext_length + 8];
    ml_kem_encaps(&ek, &seed(92), &p, &mut k1, &mut c1).unwrap();
    ml_kem_encaps(&long_ek, &seed(92), &p, &mut k2, &mut c2).unwrap();
    assert_eq!(k1, k2);
    assert_eq!(&c1[..], &c2[..p.ciphertext_length]);
    assert!(c2[p.ciphertext_length..].iter().all(|&b| b == 0x5A));
}

#[test]
fn decaps_reads_only_the_prefixes() {
    let p = MLKEMParameters::new("ML-KEM-768").unwrap();
    let (ek, dk) = keypair(&p, &seed(93), &seed(94));
    let mut key = [0u8; 32];
    let mut c = vec![0u8; p.ciphertext_length];
    ml_kem_encaps(&ek, &seed(95), &p, &mut key, &mut c).unwrap();
    let mut long_dk = dk.clone();
    long_dk.extend_from_slice(&[7u8; 11]);
    let mut long_c = c.clone();
    long_c.extend_from_slice(&[9u8; 13]);
    let (mut k1, mut k2) = ([0u8; 32], [1u8; 32]);
    ml_kem_decaps(&dk, &c, &p, &mut k1).unwrap();
    ml_kem_decaps(&long_dk, &long_c, &p, &mut k2).unwrap();
    assert_eq!(k1, key);
    assert_eq!(k2, key);
}

#[test]
fn key_checks_need_only_lengths_and_rank() {
    let p = MLKEMParameters::new("ML-KEM-512").unwrap();
    let (ek, dk) = keypair(&p, &seed(100), &seed(101));
    // eta, du, dv and the ciphertext length play no part in the checks
    let odd = MLKEMParameters { eta1: 9, eta2: 0, du: 0, dv: 40, ciphertext_length: 1, ..p };
    assert!(check_ek(&ek, &odd));
    assert!(check_dk(&dk, &odd));
    // a wrong length is rejected whatever the other fields say
    let huge = MLKEMParameters { k: 1000, ..p };
    assert!(!check_ek(&ek[..10], &huge));
    assert!(!check_dk(&dk[..10], &huge));
}
