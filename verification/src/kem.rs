//! The ML-KEM key-encapsulation mechanism: key generation, encapsulation,
//! decapsulation with implicit rejection, and the key checks.
use crate::bytes::{bytes_eq, copy_into};
use crate::encoding::{decode_spec, encode_spec};
use crate::hashing::{expand, hash, kdf, sha3_256_spec, sha3_512_spec, shake256_stream};
use crate::params::{MLKEMParameters, MAX_CIPHERTEXT_BYTES, MAX_PUBLIC_KEY_BYTES};
use crate::pke::{
    decode_vec, decode_vec_spec, encode_vec, encode_vec_into, lemma_decode_bounds, pke_dec,
    pke_dec_spec, pke_enc, pke_enc_spec, pke_gen, pke_keygen_spec, MlKemError,
};
use crate::poly::MAX_K;
use vstd::prelude::*;

verus! {

/// Algorithm 16 of FIPS 203, `ML-KEM.KeyGen_internal(d, z)`:
/// `ek = ek_pke` and `dk = dk_pke || ek || H(ek) || z`, or `None` when a
/// matrix entry cannot be sampled.
pub open spec fn kem_keygen_spec(d: Seq<u8>, z: Seq<u8>, p: MLKEMParameters) -> Option<
    (Seq<u8>, Seq<u8>),
> {
    match pke_keygen_spec(d, p) {
        Some((ekp, dkp)) => Some((ekp, dkp + ekp + sha3_256_spec(ekp)@ + z)),
        None => None,
    }
}

/// `(K, r) = G(m || H(ek))`.
pub open spec fn encaps_g(ek: Seq<u8>, m: Seq<u8>) -> Seq<u8> {
    sha3_512_spec(m + sha3_256_spec(ek)@)@
}

/// Algorithm 17 of FIPS 203, `ML-KEM.Encaps_internal(ek, m)` on the first
/// `public_key_length` bytes of `ek`: `(K, c)`, or `None` when a matrix
/// entry cannot be sampled.
pub open spec fn kem_encaps_spec(ek: Seq<u8>, m: Seq<u8>, p: MLKEMParameters) -> Option<
    (Seq<u8>, Seq<u8>),
> {
    let ekp = ek.take(p.public_key_length as int);
    let g = encaps_g(ekp, m);
    match pke_enc_spec(ekp, m, g.subrange(32, 64), p) {
        Some(c) => Some((g.subrange(0, 32), c)),
        None => None,
    }
}

/// The four parts `(dk_pke, ek_pke, h, z)` of a decapsulation key.
pub open spec fn dk_parts(dk: Seq<u8>, p: MLKEMParameters) -> (Seq<u8>, Seq<u8>, Seq<u8>, Seq<u8>) {
    let a = 384 * p.k as int;
    let b = a + p.public_key_length;
    (dk.subrange(0, a), dk.subrange(a, b), dk.subrange(b, b + 32), dk.subrange(b + 32, b + 64))
}

/// Algorithm 18 of FIPS 203, `ML-KEM.Decaps_internal(dk, c)` on the first
/// `ciphertext_length` bytes of `c`: the shared key `K'` when re-encryption
/// reproduces the ciphertext, the implicit-rejection key `J(z || c)`
/// otherwise; `None` when a matrix entry cannot be sampled.
pub open spec fn kem_decaps_spec(dk: Seq<u8>, c: Seq<u8>, p: MLKEMParameters) -> Option<Seq<u8>> {
    let (dkp, ekp, h, z) = dk_parts(dk, p);
    let cc = c.take(p.ciphertext_length as int);
    let m1 = pke_dec_spec(dkp, cc, p);
    let g = sha3_512_spec(m1 + h)@;
    match pke_enc_spec(ekp, m1, g.subrange(32, 64), p) {
        Some(c1) => Some(
            if c1 == cc {
                g.subrange(0, 32)
            } else {
                shake256_stream(z + cc, 32)
            },
        ),
        None => None,
    }
}

/// The encapsulation-key check of FIPS 203 (section 7.2): the key has the
/// expected length and re-encoding its decoded `t_hat` gives its bytes back.
pub open spec fn check_ek_spec(ek: Seq<u8>, p: MLKEMParameters) -> bool {
    let k = p.k as nat;
    &&& ek.len() == p.public_key_length
    &&& encode_vec(12, decode_vec_spec(12, ek, k), k) == ek.subrange(0, 384 * k as int)
}

/// The decapsulation-key check of FIPS 203 (section 7.3): the key has the
/// expected length and its stored hash is `H` of its stored encapsulation key.
pub open spec fn check_dk_spec(dk: Seq<u8>, p: MLKEMParameters) -> bool {
    let k = p.k as int;
    &&& dk.len() == p.secret_key_length
    &&& dk.subrange(768 * k + 32, 768 * k + 64) == sha3_256_spec(dk.subrange(384 * k, 768 * k + 32))@
}

/// Algorithm 19: ML-KEM key generation from the seeds `d` and `z`. Writes
/// the encapsulation key to `ek[..public_key_length]` and the decapsulation
/// key to `dk[..secret_key_length]`; the rest of both buffers is left as it
/// was, and on an error nothing is written.
pub fn ml_kem_keygen(d: &[u8; 32], z: &[u8; 32], p: &MLKEMParameters, ek: &mut [u8], dk: &mut [u8]) -> (r:
    Result<(), MlKemError>)
    requires
        p.wf(),
        old(ek).len() >= p.public_key_length,
        old(dk).len() >= p.secret_key_length,
    ensures
        match kem_keygen_spec(d@, z@, *p) {
            Some((e, s)) => {
                &&& r is Ok
                &&& final(ek)@ == e + old(ek)@.skip(p.public_key_length as int)
                &&& final(dk)@ == s + old(dk)@.skip(p.secret_key_length as int)
            },
            None => {
                &&& r == Err::<(), MlKemError>(MlKemError::SamplingLimit)
                &&& final(ek)@ == old(ek)@
                &&& final(dk)@ == old(dk)@
            },
        },
{
    let k = p.k;
    let pkl = p.public_key_length;
    let mut ek_pke = [0u8; MAX_PUBLIC_KEY_BYTES];
    let mut dk_pke = [0u8; 3136];
    pke_gen(d, p, &mut ek_pke, &mut dk_pke)?;
    let ghost ekp = ek_pke@.take(pkl as int);
    let ghost dkp = dk_pke@.take(384 * k as int);
    assert(pke_keygen_spec(d@, *p) == Some((ekp, dkp)));

    // Build ek
    let ek_part = vstd::slice::slice_subrange(ek_pke.as_slice(), 0, pkl);
    assert(ek_part@ == ekp);
    copy_into(ek, 0, ek_part);

    // Build dk
    let mut offset: usize = 0;
    let dk_part = vstd::slice::slice_subrange(dk_pke.as_slice(), 0, 384 * k);
    assert(dk_part@ == dkp);
    let ghost dk0 = dk@;
    copy_into(dk, offset, dk_part);
    offset += 384 * k;
    copy_into(dk, offset, ek_part);
    offset += pkl;

    let h = hash(ek_part);
    copy_into(dk, offset, &h);
    offset += 32;
    copy_into(dk, offset, z);
    proof {
        assert(ek@ =~= ekp + old(ek)@.skip(pkl as int));
        assert(dk@ =~= dkp + ekp + sha3_256_spec(ekp)@ + z@ + dk0.skip(p.secret_key_length as int));
    }
    Ok(())
}

/// Algorithm 20: ML-KEM encapsulation with the randomness `m`. Writes the
/// shared key to `k` and the ciphertext to `c[..ciphertext_length]`; the rest
/// of `c` is left as it was, and on an error nothing is written.
pub fn ml_kem_encaps(ek: &[u8], m: &[u8; 32], p: &MLKEMParameters, k: &mut [u8; 32], c: &mut [u8]) -> (r:
    Result<(), MlKemError>)
    requires
        p.wf(),
        ek.len() >= p.public_key_length,
        old(c).len() >= p.ciphertext_length,
    ensures
        match kem_encaps_spec(ek@, m@, *p) {
            Some((key, ct)) => {
                &&& r is Ok
                &&& final(k)@ == key
                &&& final(c)@ == ct + old(c)@.skip(p.ciphertext_length as int)
            },
            None => {
                &&& r == Err::<(), MlKemError>(MlKemError::SamplingLimit)
                &&& final(k)@ == old(k)@
                &&& final(c)@ == old(c)@
            },
        },
{
    let ek_pke = vstd::slice::slice_subrange(ek, 0, p.public_key_length);
    let h_ek = hash(ek_pke);

    let mut input = [0u8; 64];
    for i in 0..32
        invariant
            forall|t: int| 0 <= t < i ==> #[trigger] input@[t] == m@[t],
            forall|t: int| 0 <= t < i ==> #[trigger] input@[32 + t] == h_ek@[t],
    {
        input[i] = m[i];
        input[32 + i] = h_ek[i];
    }
    assert forall|x: int| 32 <= x < 64 implies #[trigger] input@[x] == h_ek@[x - 32] by {
        assert(input@[32 + (x - 32)] == h_ek@[x - 32]);
    }
    assert(input@ =~= m@ + h_ek@);

    let (k_out, r) = expand(&input);
    assert(ek_pke@ =~= ek@.take(p.public_key_length as int));

    pke_enc(ek_pke, m, &r, p, c)?;
    *k = k_out;
    Ok(())
}

/// Algorithm 21: ML-KEM decapsulation, with implicit rejection. Writes the
/// shared key to `k`; on an error nothing is written.
pub fn ml_kem_decaps(dk: &[u8], c: &[u8], p: &MLKEMParameters, k: &mut [u8; 32]) -> (r: Result<
    (),
    MlKemError,
>)
    requires
        p.wf(),
        dk.len() >= p.secret_key_length,
        c.len() >= p.ciphertext_length,
    ensures
        match kem_decaps_spec(dk@, c@, *p) {
            Some(key) => {
                &&& r is Ok
                &&& final(k)@ == key
            },
            None => {
                &&& r == Err::<(), MlKemError>(MlKemError::SamplingLimit)
                &&& final(k)@ == old(k)@
            },
        },
{
    let kk = p.k;
    let pkl = p.public_key_length;
    let ctl = p.ciphertext_length;
    let dk_pke = vstd::slice::slice_subrange(dk, 0, 384 * kk);
    let ek_pke = vstd::slice::slice_subrange(dk, 384 * kk, 384 * kk + pkl);
    let h = vstd::slice::slice_subrange(dk, 384 * kk + pkl, 384 * kk + pkl + 32);
    let z = vstd::slice::slice_subrange(dk, 384 * kk + pkl + 32, 384 * kk + pkl + 64);
    let cc = vstd::slice::slice_subrange(c, 0, ctl);
    assert(cc@ =~= c@.take(ctl as int));
    assert(32 * p.du * kk <= ctl) by (nonlinear_arith)
        requires
            ctl == 32 * (p.du * kk + p.dv),
    ;

    // Decrypt
    let mut m_prime = [0u8; 32];
    pke_dec(dk_pke, cc, p, &mut m_prime);
    assert(m_prime@ =~= pke_dec_spec(dk_pke@, cc@, *p));

    // Re-encrypt
    let mut input = [0u8; 64];
    for i in 0..32
        invariant
            h@.len() == 32,
            forall|t: int| 0 <= t < i ==> #[trigger] input@[t] == m_prime@[t],
            forall|t: int| 0 <= t < i ==> #[trigger] input@[32 + t] == h@[t],
    {
        input[i] = m_prime[i];
        input[32 + i] = h[i];
    }
    assert forall|x: int| 32 <= x < 64 implies #[trigger] input@[x] == h@[x - 32] by {
        assert(input@[32 + (x - 32)] == h@[x - 32]);
    }
    assert(input@ =~= m_prime@ + h@);

    let (k_prime, r_prime) = expand(&input);

    let mut c_prime = [0u8; MAX_CIPHERTEXT_BYTES];
    pke_enc(ek_pke, &m_prime, &r_prime, p, &mut c_prime)?;
    let ghost c1 = c_prime@.take(ctl as int);

    // Implicit rejection
    let c_re = vstd::slice::slice_subrange(c_prime.as_slice(), 0, ctl);
    let match_ct = bytes_eq(cc, c_re);
    proof {
        let (dkp, ekp, hh, zz) = dk_parts(dk@, *p);
        assert(dkp == dk_pke@ && ekp == ek_pke@ && hh == h@ && zz == z@);
        let g = sha3_512_spec(m_prime@ + h@)@;
        let ct = pke_enc_spec(ek_pke@, m_prime@, g.subrange(32, 64), *p)->0;
        assert(c_re@ =~= ct);
    }
    if !match_ct {
        let mut input_rej = [0u8; 1600];
        copy_into(&mut input_rej, 0, z);
        copy_into(&mut input_rej, 32, cc);
        let rej = vstd::slice::slice_subrange(input_rej.as_slice(), 0, 32 + ctl);
        assert(rej@ =~= z@ + cc@);
        *k = kdf(rej);
    } else {
        *k = k_prime;
    }
    Ok(())
}

/// Validates an encapsulation key: its length, and that every 12-bit value
/// of its `t_hat` part is below q (decoding and re-encoding gives it back).
pub fn check_ek(ek: &[u8], p: &MLKEMParameters) -> (r: bool)
    requires
        ek.len() == p.public_key_length ==> p.k <= MAX_K && 384 * p.k <= p.public_key_length,
    ensures
        r == check_ek_spec(ek@, *p),
{
    // Check exact length
    if ek.len() != p.public_key_length {
        return false;
    }
    let k = p.k;
    let t_hat_bytes = vstd::slice::slice_subrange(ek, 0, 384 * k);

    // Decode and re-encode to check validity
    let mut decoded = [[0i32; 256]; MAX_K];
    decode_vec(12, ek, k, &mut decoded);
    assert forall|i: int| 0 <= i < k implies crate::encoding::nonneg_coeffs(#[trigger] decoded@[i]@) by {
        let blk = ek@.subrange(32 * 12nat * i, 32 * 12nat * (i + 1));
        assert(decoded@[i]@ == decode_spec(12, blk));
        lemma_decode_bounds(12, blk);
    }
    let mut ek_test = [0u8; MAX_PUBLIC_KEY_BYTES];
    encode_vec_into(12, &decoded, k, &mut ek_test, 0);
    let re_encoded = vstd::slice::slice_subrange(ek_test.as_slice(), 0, 384 * k);
    proof {
        let kn = k as nat;
        assert forall|i: int| 0 <= i < kn implies #[trigger] crate::ntt::polys(decoded@)[i]
            == decode_vec_spec(12, ek@, kn)[i] by {}
        assert(re_encoded@ =~= encode_vec(12, crate::ntt::polys(decoded@), kn));
        assert(encode_vec(12, crate::ntt::polys(decoded@), kn) =~= encode_vec(
            12,
            decode_vec_spec(12, ek@, kn),
            kn,
        ));
    }

    // Compare
    bytes_eq(t_hat_bytes, re_encoded)
}

/// Validates a decapsulation key: its length, and that its stored hash is
/// `H` of its stored encapsulation key.
pub fn check_dk(dk: &[u8], p: &MLKEMParameters) -> (r: bool)
    requires
        dk.len() == p.secret_key_length ==> 768 * p.k + 64 <= p.secret_key_length,
    ensures
        r == check_dk_spec(dk@, *p),
{
    // Check exact length
    if dk.len() != p.secret_key_length {
        return false;
    }
    let k = p.k;
    let ek_pke = vstd::slice::slice_subrange(dk, 384 * k, 768 * k + 32);
    let h_stored = vstd::slice::slice_subrange(dk, 768 * k + 32, 768 * k + 64);

    let h_computed = hash(ek_pke);

    // Compare
    bytes_eq(h_stored, &h_computed)
}

} // verus!
