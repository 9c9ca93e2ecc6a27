//! Laws that relate the ML-KEM operations to each other: generated keys pass
//! the key checks, and decapsulation returns the encapsulated key when the
//! message is recovered.
use crate::encoding::{
    decode_spec, encode_spec, law_decode_encode, law_encode_decode, lemma_raw_of_encode, raw_coeff,
};
use crate::kem::{check_dk_spec, check_ek_spec, dk_parts, kem_decaps_spec, kem_encaps_spec, kem_keygen_spec};
use crate::pke::{decode_vec_spec, encode_vec, keygen_t_hat};
use vstd::arithmetic::div_mod::*;
use crate::params::MLKEMParameters;
use vstd::prelude::*;

verus! {

/// A decapsulation key produced by key generation passes the
/// decapsulation-key check.
pub proof fn law_keygen_dk_passes_check(d: Seq<u8>, z: Seq<u8>, p: MLKEMParameters)
    requires
        p.wf(),
        z.len() == 32,
        kem_keygen_spec(d, z, p) is Some,
    ensures
        check_dk_spec((kem_keygen_spec(d, z, p)->0).1, p),
{
    let (ek, dk) = kem_keygen_spec(d, z, p)->0;
    let k = p.k as int;
    let (ekp, dkp) = crate::pke::pke_keygen_spec(d, p)->0;
    let rho = crate::pke::keygen_rho(d, p.k as nat);
    assert(rho.len() == 32);
    assert(ekp == crate::pke::encode_vec(12, crate::pke::keygen_t_hat(d, p), p.k as nat) + rho);
    assert(crate::pke::encode_vec(12, crate::pke::keygen_t_hat(d, p), p.k as nat).len() == (p.k as nat) * (32 * 12nat));
    assert((p.k as nat) * (32 * 12nat) == 384 * k) by (nonlinear_arith)
        requires
            k == p.k as int,
    ;
    assert(ekp.len() == 384 * k + 32);
    assert(dkp.len() == 384 * k);
    assert(ek.len() == 384 * k + 32);
    assert(dk.subrange(384 * k, 768 * k + 32) =~= ek);
    assert(dk.subrange(768 * k + 32, 768 * k + 64) =~= crate::hashing::sha3_256_spec(ek)@);
}

/// Block `i` of `encode_vec(d, v, k)` is `ByteEncode_d(v[i])`.
pub proof fn lemma_encode_vec_block(d: nat, v: Seq<Seq<i32>>, k: nat, i: int)
    requires
        1 <= d,
        0 <= i < k,
    ensures
        encode_vec(d, v, k).subrange(32 * d * i, 32 * d * (i + 1)) == encode_spec(d, v[i]).take(
            32 * d as int,
        ),
{
    let w = 32 * d as int;
    assert(32 * d * (i + 1) <= k * (32 * d) && 0 <= 32 * d * i && 32 * d * (i + 1) == 32 * d * i
        + w) by (nonlinear_arith)
        requires
            0 <= i < k,
            w == 32 * d,
    ;
    assert((256 * d + 7) / 8 == 32 * d) by {
        lemma_fundamental_div_mod_converse((256 * d + 7) as int, 8, 32 * d as int, 7);
    }
    assert(encode_spec(d, v[i]).len() == w);
    assert forall|x: int| 0 <= x < w implies #[trigger] encode_vec(d, v, k).subrange(
        32 * d * i,
        32 * d * (i + 1),
    )[x] == encode_spec(d, v[i])[x] by {
        let y = w * i + x;
        assert(y == 32 * d * i + x && y == i * w + x && 0 <= y < k * (32 * d)) by (nonlinear_arith)
            requires
                w == 32 * d,
                y == w * i + x,
                0 <= x < w,
                0 <= i < k,
        ;
        lemma_fundamental_div_mod_converse(y, w, i, x);
        assert(encode_vec(d, v, k)[y] == encode_spec(d, v[i])[x]);
    }
    assert(encode_vec(d, v, k).subrange(32 * d * i, 32 * d * (i + 1)) =~= encode_spec(d, v[i]).take(w));
}

/// An encapsulation key produced by key generation passes the
/// encapsulation-key check.
pub proof fn law_keygen_ek_passes_check(d: Seq<u8>, z: Seq<u8>, p: MLKEMParameters)
    requires
        p.wf(),
        kem_keygen_spec(d, z, p) is Some,
    ensures
        check_ek_spec((kem_keygen_spec(d, z, p)->0).0, p),
{
    let ek = (kem_keygen_spec(d, z, p)->0).0;
    let k = p.k as nat;
    let t = keygen_t_hat(d, p);
    let rho = crate::pke::keygen_rho(d, k);
    assert(rho.len() == 32);
    assert(ek == encode_vec(12, t, k) + rho);
    assert(encode_vec(12, t, k).len() == k * (32 * 12nat));
    assert(k * (32 * 12nat) == 384 * k) by (nonlinear_arith);
    assert(ek.len() == p.public_key_length);
    let dv = decode_vec_spec(12, ek, k);
    assert forall|i: int| 0 <= i < k implies #[trigger] dv[i] == t[i] by {
        lemma_encode_vec_block(12, t, k, i);
        assert(32 * 12nat * (i + 1) <= 384 * k) by (nonlinear_arith)
            requires
                i < k,
        ;
        assert(ek.subrange(32 * 12nat * i, 32 * 12nat * (i + 1)) =~= encode_vec(12, t, k).subrange(
            32 * 12nat * i,
            32 * 12nat * (i + 1),
        ));
        assert(encode_spec(12, t[i]).take(384) =~= encode_spec(12, t[i]));
        law_decode_encode(12, t[i]);
    }
    crate::pke::lemma_encode_vec_ext(12, dv, t, k);
    assert(ek.subrange(0, 384 * k as int) =~= encode_vec(12, t, k));
}

/// Decapsulation with a generated key pair returns the encapsulated key
/// whenever K-PKE decryption of the ciphertext recovers the encapsulated
/// message: implicit rejection never replaces the key of an honest
/// ciphertext that decrypts correctly.
pub proof fn law_decaps_recovers_key(
    d: Seq<u8>,
    z: Seq<u8>,
    m: Seq<u8>,
    p: MLKEMParameters,
)
    requires
        p.wf(),
        z.len() == 32,
        kem_keygen_spec(d, z, p) is Some,
        kem_encaps_spec((kem_keygen_spec(d, z, p)->0).0, m, p) is Some,
        crate::pke::pke_dec_spec(
            dk_parts((kem_keygen_spec(d, z, p)->0).1, p).0,
            (kem_encaps_spec((kem_keygen_spec(d, z, p)->0).0, m, p)->0).1,
            p,
        ) == m,
    ensures
        kem_decaps_spec(
            (kem_keygen_spec(d, z, p)->0).1,
            (kem_encaps_spec((kem_keygen_spec(d, z, p)->0).0, m, p)->0).1,
            p,
        ) == Some((kem_encaps_spec((kem_keygen_spec(d, z, p)->0).0, m, p)->0).0),
{
    let (ek, dk) = kem_keygen_spec(d, z, p)->0;
    let (key, c) = kem_encaps_spec(ek, m, p)->0;
    let k = p.k as int;
    let (ekp, dkp) = crate::pke::pke_keygen_spec(d, p)->0;
    let rho = crate::pke::keygen_rho(d, p.k as nat);
    assert(rho.len() == 32);
    assert(crate::pke::encode_vec(12, crate::pke::keygen_t_hat(d, p), p.k as nat).len() == (p.k as nat) * (32 * 12nat));
    assert(crate::pke::encode_vec(12, crate::pke::keygen_s_hat(d, p), p.k as nat).len() == (p.k as nat) * (32 * 12nat));
    assert((p.k as nat) * (32 * 12nat) == 384 * k) by (nonlinear_arith)
        requires
            k == p.k as int,
    ;
    assert(ekp.len() == 384 * k + 32);
    assert(dkp.len() == 384 * k);
    let (dkp2, ekp2, h, zz) = dk_parts(dk, p);
    assert(dkp2 =~= dkp);
    assert(ekp2 =~= ekp);
    assert(h =~= crate::hashing::sha3_256_spec(ekp)@);
    assert(ek.take(p.public_key_length as int) =~= ek);
    let cc = c.take(p.ciphertext_length as int);
    let ct = crate::pke::pke_enc_spec(ekp, m, crate::kem::encaps_g(ekp, m).subrange(32, 64), p)->0;
    assert(c == ct);
    crate::pke::lemma_pke_enc_len(ekp, m, crate::kem::encaps_g(ekp, m).subrange(32, 64), p);
    assert(cc =~= c);
}

/// The encapsulation-key check accepts exactly the keys of the expected
/// length in which every 12-bit coefficient of `t_hat` is below q.
pub proof fn law_check_ek_is_modulus_check(ek: Seq<u8>, p: MLKEMParameters)
    requires
        p.wf(),
    ensures
        check_ek_spec(ek, p) <==> (ek.len() == p.public_key_length && forall|i: int, c: int|
            0 <= i < p.k && 0 <= c < 256 ==> #[trigger] raw_coeff(
                12,
                ek.subrange(384 * i, 384 * i + 384),
                c,
            ) < 3329),
{
    let k = p.k as nat;
    let dv = decode_vec_spec(12, ek, k);
    let all_below = forall|i: int, c: int|
        0 <= i < p.k && 0 <= c < 256 ==> #[trigger] raw_coeff(
            12,
            ek.subrange(384 * i, 384 * i + 384),
            c,
        ) < 3329;
    if ek.len() == p.public_key_length {
        assert forall|i: int| 0 <= i < k implies #[trigger] dv[i] == decode_spec(
            12,
            ek.subrange(384 * i, 384 * i + 384),
        ) by {
            assert(ek.subrange(32 * 12nat * i, 32 * 12nat * (i + 1)) =~= ek.subrange(
                384 * i,
                384 * i + 384,
            ));
        }
        assert(encode_vec(12, dv, k).len() == k * (32 * 12nat));
        assert(k * (32 * 12nat) == 384 * k) by (nonlinear_arith);
        if all_below {
            assert forall|x: int| 0 <= x < 384 * k implies #[trigger] encode_vec(12, dv, k)[x]
                == ek[x] by {
                let i = x / 384;
                let c = x % 384;
                lemma_fundamental_div_mod(x, 384);
                let blk = ek.subrange(384 * i, 384 * i + 384);
                assert(0 <= i < k);
                assert forall|c2: int| 0 <= c2 < 256 implies #[trigger] raw_coeff(12, blk, c2)
                    < 3329 by {
                    assert(raw_coeff(12, ek.subrange(384 * i, 384 * i + 384), c2) < 3329);
                }
                law_encode_decode(12, blk);
                assert(encode_spec(12, dv[i]) == blk);
            }
            assert(encode_vec(12, dv, k) =~= ek.subrange(0, 384 * k as int));
        }
        if check_ek_spec(ek, p) {
            assert forall|i: int, c: int| 0 <= i < p.k && 0 <= c < 256 implies #[trigger] raw_coeff(
                12,
                ek.subrange(384 * i, 384 * i + 384),
                c,
            ) < 3329 by {
                let blk = ek.subrange(384 * i, 384 * i + 384);
                lemma_encode_vec_block(12, dv, k, i);
                assert(32 * 12nat * i == 384 * i && 32 * 12nat * (i + 1) == 384 * i + 384);
                assert(encode_vec(12, dv, k).subrange(384 * i, 384 * i + 384) =~= blk);
                assert((256 * 12 + 7) / 8 == 384);
                assert(encode_spec(12, dv[i]).take(384) =~= encode_spec(12, dv[i]));
                crate::pke::lemma_decode_bounds(12, blk);
                vstd::arithmetic::power2::lemma2_to64();
                lemma_raw_of_encode(12, dv[i], c);
            }
        }
    }
}

/// The lengths of the parts of a generated K-PKE key pair.
proof fn lemma_keygen_lengths(d: Seq<u8>, p: MLKEMParameters)
    requires
        p.wf(),
        crate::pke::pke_keygen_spec(d, p) is Some,
    ensures
        (crate::pke::pke_keygen_spec(d, p)->0).0.len() == p.public_key_length,
        (crate::pke::pke_keygen_spec(d, p)->0).1.len() == 384 * p.k,
{
    let k = p.k as int;
    let rho = crate::pke::keygen_rho(d, p.k as nat);
    assert(rho.len() == 32);
    assert(encode_vec(12, keygen_t_hat(d, p), p.k as nat).len() == 384 * k) by (nonlinear_arith)
        requires
            encode_vec(12, keygen_t_hat(d, p), p.k as nat).len() == (p.k as nat) * (32 * 12nat),
            k == p.k,
    ;
    assert(encode_vec(12, crate::pke::keygen_s_hat(d, p), p.k as nat).len() == 384 * k)
        by (nonlinear_arith)
        requires
            encode_vec(12, crate::pke::keygen_s_hat(d, p), p.k as nat).len() == (p.k as nat) * (32
                * 12nat),
            k == p.k,
    ;
}

/// The seed `z` of key generation affects only the last 32 bytes of the
/// decapsulation key: two key generations from the same `d` give the same
/// encapsulation key and decapsulation keys that agree but for their last
/// 32 bytes, which are `z`.
pub proof fn law_keygen_z_only_in_dk_tail(
    d: Seq<u8>,
    z1: Seq<u8>,
    z2: Seq<u8>,
    p: MLKEMParameters,
)
    requires
        p.wf(),
        z1.len() == 32,
        z2.len() == 32,
    ensures
        (kem_keygen_spec(d, z1, p) is Some) == (kem_keygen_spec(d, z2, p) is Some),
        kem_keygen_spec(d, z1, p) is Some ==> {
            let (ek1, dk1) = kem_keygen_spec(d, z1, p)->0;
            let (ek2, dk2) = kem_keygen_spec(d, z2, p)->0;
            let t = 768 * p.k + 64;
            &&& ek1 == ek2
            &&& dk1.len() == p.secret_key_length && dk2.len() == p.secret_key_length
            &&& dk1.take(t) == dk2.take(t)
            &&& dk1.skip(t) == z1
            &&& dk2.skip(t) == z2
        },
{
    if kem_keygen_spec(d, z1, p) is Some {
        lemma_keygen_lengths(d, p);
        let (ekp, dkp) = crate::pke::pke_keygen_spec(d, p)->0;
        let h = crate::hashing::sha3_256_spec(ekp)@;
        let head = dkp + ekp + h;
        assert(head.len() == 768 * p.k + 64);
        let dk1 = head + z1;
        let dk2 = head + z2;
        let t = 768 * p.k + 64;
        assert(dk1.take(t) =~= head);
        assert(dk2.take(t) =~= head);
        assert(dk1.skip(t) =~= z1);
        assert(dk2.skip(t) =~= z2);
    }
}

/// Encapsulation reads only the first `public_key_length` bytes of the
/// encapsulation key.
pub proof fn law_encaps_reads_key_prefix(ek1: Seq<u8>, ek2: Seq<u8>, m: Seq<u8>, p: MLKEMParameters)
    requires
        ek1.len() >= p.public_key_length,
        ek2.len() >= p.public_key_length,
        ek1.take(p.public_key_length as int) == ek2.take(p.public_key_length as int),
    ensures
        kem_encaps_spec(ek1, m, p) == kem_encaps_spec(ek2, m, p),
{
}

/// Decapsulation reads only the first `secret_key_length` bytes of the
/// decapsulation key and the first `ciphertext_length` bytes of the
/// ciphertext.
pub proof fn law_decaps_reads_prefixes(
    dk1: Seq<u8>,
    dk2: Seq<u8>,
    c1: Seq<u8>,
    c2: Seq<u8>,
    p: MLKEMParameters,
)
    requires
        p.wf(),
        dk1.len() >= p.secret_key_length,
        dk2.len() >= p.secret_key_length,
        c1.len() >= p.ciphertext_length,
        c2.len() >= p.ciphertext_length,
        dk1.take(p.secret_key_length as int) == dk2.take(p.secret_key_length as int),
        c1.take(p.ciphertext_length as int) == c2.take(p.ciphertext_length as int),
    ensures
        kem_decaps_spec(dk1, c1, p) == kem_decaps_spec(dk2, c2, p),
{
    let s = p.secret_key_length as int;
    let a = 384 * p.k as int;
    let b = a + p.public_key_length;
    assert(dk1.subrange(0, a) =~= dk1.take(s).subrange(0, a));
    assert(dk2.subrange(0, a) =~= dk2.take(s).subrange(0, a));
    assert(dk1.subrange(a, b) =~= dk1.take(s).subrange(a, b));
    assert(dk2.subrange(a, b) =~= dk2.take(s).subrange(a, b));
    assert(dk1.subrange(b, b + 32) =~= dk1.take(s).subrange(b, b + 32));
    assert(dk2.subrange(b, b + 32) =~= dk2.take(s).subrange(b, b + 32));
    assert(dk1.subrange(b + 32, b + 64) =~= dk1.take(s).subrange(b + 32, b + 64));
    assert(dk2.subrange(b + 32, b + 64) =~= dk2.take(s).subrange(b + 32, b + 64));
    assert(dk_parts(dk1, p) == dk_parts(dk2, p));
}

} // verus!
