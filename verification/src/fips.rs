//! The K-PKE and ML-KEM operations written out in terms of the primitives of
//! FIPS 203 alone: `G`, `H`, `J`, `PRF`, `XOF` and `SampleNTT`,
//! `SamplePolyCBD`, the NTT, `ByteEncode` / `ByteDecode` and compression.
//! Each law pins the domain separation (seeds, nonces, matrix indices) and
//! the comparisons of the algorithms.
use crate::encoding::{decode_spec, encode_spec};
use crate::hashing::{sha3_256_spec, sha3_512_spec, shake256_stream};
use crate::kem::{check_dk_spec, dk_parts, encaps_g, kem_decaps_spec, kem_encaps_spec, kem_keygen_spec};
use crate::ntt::{dot_spec, inv_ntt_spec, lemma_dot_spec_ext, ntt_spec};
use crate::params::MLKEMParameters;
use crate::pke::{
    a_row, a_t_row, compress_poly_spec, decode_vec_spec, decompress_poly_spec, enc_u, enc_v,
    encode_vec, keygen_e_hat, keygen_s_hat, keygen_seed, keygen_t_hat, pke_dec_spec, pke_enc_spec,
    pke_keygen_spec,
};
use crate::poly::poly_add;
use crate::sampling::{cbd_spec, sample_ntt_spec};
use vstd::prelude::*;

verus! {

/// `SamplePolyCBD_eta(PRF_eta(seed, nonce))`, with `PRF_eta(s, b)` the first
/// `64 eta` bytes of SHAKE256 over `s || b`.
pub open spec fn cbd_prf(eta: nat, seed: Seq<u8>, nonce: u8) -> Seq<i32> {
    cbd_spec(eta, shake256_stream(seed.push(nonce), 64 * eta))
}

/// `matrix_ok` is the sampling condition written with explicit bytes.
proof fn lemma_matrix_ok_bytes(rho: Seq<u8>, k: nat)
    requires
        k <= 4,
    ensures
        crate::pke::matrix_ok(rho, k) == (forall|i: int, j: int|
            0 <= i < k && 0 <= j < k ==> (#[trigger] sample_ntt_spec(
                rho.push(j as u8).push(i as u8),
            )) is Some),
{
    if crate::pke::matrix_ok(rho, k) {
        assert forall|i: int, j: int| 0 <= i < k && 0 <= j < k implies (#[trigger] sample_ntt_spec(
            rho.push(j as u8).push(i as u8),
        )) is Some by {
            assert(crate::sampling::xof_input(rho, i as usize, j as usize) == rho.push(j as u8).push(
                i as u8,
            ));
            assert(sample_ntt_spec(crate::sampling::xof_input(rho, i as usize, j as usize)) is Some);
        }
    }
    if forall|i: int, j: int|
        0 <= i < k && 0 <= j < k ==> (#[trigger] sample_ntt_spec(
            rho.push(j as u8).push(i as u8),
        )) is Some {
        assert forall|i: int, j: int| 0 <= i < k && 0 <= j < k implies (#[trigger] sample_ntt_spec(
            crate::sampling::xof_input(rho, i as usize, j as usize),
        )) is Some by {
            assert(crate::sampling::xof_input(rho, i as usize, j as usize) == rho.push(j as u8).push(
                i as u8,
            ));
            assert(sample_ntt_spec(rho.push(j as u8).push(i as u8)) is Some);
        }
    }
}

/// Algorithm 13, K-PKE.KeyGen: with `(rho, sigma) = G(d || k)`,
/// `s[i] = CBD_eta1(PRF(sigma, i))`, `e[i] = CBD_eta1(PRF(sigma, k + i))`
/// and `A[i][j] = SampleNTT(XOF(rho || j || i))`, key generation succeeds
/// exactly when every matrix entry can be sampled, and then
/// `ek = ByteEncode_12(A NTT(s) + NTT(e)) || rho` and
/// `dk = ByteEncode_12(NTT(s))`.
pub proof fn law_pke_keygen_is_algorithm_13(d: Seq<u8>, p: MLKEMParameters)
    requires
        p.wf(),
        d.len() == 32,
    ensures
        ({
            let k = p.k as nat;
            let g = sha3_512_spec(d + seq![p.k as u8])@;
            let rho = g.subrange(0, 32);
            let sigma = g.subrange(32, 64);
            let s = Seq::new(k, |i: int| ntt_spec(cbd_prf(p.eta1 as nat, sigma, i as u8)));
            let e = Seq::new(k, |i: int| ntt_spec(cbd_prf(p.eta1 as nat, sigma, (p.k + i) as u8)));
            let t = Seq::new(
                k,
                |i: int|
                    poly_add(
                        dot_spec(
                            Seq::new(k, |j: int| sample_ntt_spec(rho.push(j as u8).push(i as u8))->0),
                            s,
                            k as int,
                        ),
                        e[i],
                    ),
            );
            &&& (pke_keygen_spec(d, p) is Some) == (forall|i: int, j: int|
                0 <= i < k && 0 <= j < k ==> (#[trigger] sample_ntt_spec(
                    rho.push(j as u8).push(i as u8),
                )) is Some)
            &&& pke_keygen_spec(d, p) is Some ==> pke_keygen_spec(d, p)->0 == (
                encode_vec(12, t, k) + rho,
                encode_vec(12, s, k),
            )
        }),
{
    let k = p.k as nat;
    assert(keygen_seed(d, k) =~= d + seq![p.k as u8]);
    let g = sha3_512_spec(d + seq![p.k as u8])@;
    let rho = g.subrange(0, 32);
    let sigma = g.subrange(32, 64);
    let s = Seq::new(k, |i: int| ntt_spec(cbd_prf(p.eta1 as nat, sigma, i as u8)));
    let e = Seq::new(k, |i: int| ntt_spec(cbd_prf(p.eta1 as nat, sigma, (p.k + i) as u8)));
    assert(keygen_s_hat(d, p) =~= s);
    assert(keygen_e_hat(d, p) =~= e);
    let t = Seq::new(
        k,
        |i: int|
            poly_add(
                dot_spec(
                    Seq::new(k, |j: int| sample_ntt_spec(rho.push(j as u8).push(i as u8))->0),
                    s,
                    k as int,
                ),
                e[i],
            ),
    );
    assert forall|i: int| 0 <= i < k implies #[trigger] keygen_t_hat(d, p)[i] == t[i] by {
        assert(a_row(rho, i, k) =~= Seq::new(
            k,
            |j: int| sample_ntt_spec(rho.push(j as u8).push(i as u8))->0,
        ));
    }
    assert(keygen_t_hat(d, p) =~= t);
    lemma_matrix_ok_bytes(rho, k);
    assert(crate::pke::keygen_rho(d, k) == rho);
    if pke_keygen_spec(d, p) is Some {
        assert(pke_keygen_spec(d, p)->0 == (encode_vec(12, t, k) + rho, encode_vec(12, s, k)));
    }
}

/// Algorithm 14, K-PKE.Encrypt: with `t_hat` the decoded key, `rho` its last
/// 32 bytes, `y[i] = CBD_eta1(PRF(r, i))`, `e1[i] = CBD_eta2(PRF(r, k + i))`,
/// `e2 = CBD_eta2(PRF(r, 2k))` and `A^T[i][j] = A[j][i] =
/// SampleNTT(XOF(rho || i || j))`, encryption succeeds exactly when every
/// matrix entry can be sampled, and then the ciphertext is
/// `ByteEncode_du(Compress_du(u)) || ByteEncode_dv(Compress_dv(v))` with
/// `u = NTT^-1(A^T NTT(y)) + e1` and
/// `v = NTT^-1(t_hat^T NTT(y)) + e2 + Decompress_1(ByteDecode_1(m))`.
pub proof fn law_pke_enc_is_algorithm_14(ek: Seq<u8>, m: Seq<u8>, r: Seq<u8>, p: MLKEMParameters)
    requires
        p.wf(),
    ensures
        ({
            let k = p.k as nat;
            let rho = ek.subrange(384 * k as int, 384 * k as int + 32);
            let t = Seq::new(k, |i: int| decode_spec(12, ek.subrange(384 * i, 384 * (i + 1))));
            let y = Seq::new(k, |i: int| ntt_spec(cbd_prf(p.eta1 as nat, r, i as u8)));
            let u = Seq::new(
                k,
                |i: int|
                    poly_add(
                        inv_ntt_spec(
                            dot_spec(
                                Seq::new(
                                    k,
                                    |j: int| sample_ntt_spec(rho.push(i as u8).push(j as u8))->0,
                                ),
                                y,
                                k as int,
                            ),
                        ),
                        cbd_prf(p.eta2 as nat, r, (p.k + i) as u8),
                    ),
            );
            let v = poly_add(
                poly_add(
                    inv_ntt_spec(dot_spec(t, y, k as int)),
                    cbd_prf(p.eta2 as nat, r, (2 * p.k) as u8),
                ),
                decompress_poly_spec(1, decode_spec(1, m)),
            );
            &&& (pke_enc_spec(ek, m, r, p) is Some) == (forall|i: int, j: int|
                0 <= i < k && 0 <= j < k ==> (#[trigger] sample_ntt_spec(
                    rho.push(j as u8).push(i as u8),
                )) is Some)
            &&& pke_enc_spec(ek, m, r, p) is Some ==> pke_enc_spec(ek, m, r, p)->0 == encode_vec(
                p.du as nat,
                Seq::new(k, |i: int| compress_poly_spec(p.du as nat, u[i])),
                k,
            ) + encode_spec(p.dv as nat, compress_poly_spec(p.dv as nat, v))
        }),
{
    let k = p.k as nat;
    let rho = ek.subrange(384 * k as int, 384 * k as int + 32);
    let t = Seq::new(k, |i: int| decode_spec(12, ek.subrange(384 * i, 384 * (i + 1))));
    let y = Seq::new(k, |i: int| ntt_spec(cbd_prf(p.eta1 as nat, r, i as u8)));
    assert(crate::pke::enc_y_hat(r, p) =~= y);
    assert forall|i: int| 0 <= i < k implies #[trigger] decode_vec_spec(12, ek, k)[i] == t[i] by {
        assert(32 * 12nat * i == 384 * i && 32 * 12nat * (i + 1) == 384 * (i + 1));
    }
    assert(decode_vec_spec(12, ek, k) =~= t);
    let u = Seq::new(
        k,
        |i: int|
            poly_add(
                inv_ntt_spec(
                    dot_spec(
                        Seq::new(k, |j: int| sample_ntt_spec(rho.push(i as u8).push(j as u8))->0),
                        y,
                        k as int,
                    ),
                ),
                cbd_prf(p.eta2 as nat, r, (p.k + i) as u8),
            ),
    );
    assert forall|i: int| 0 <= i < k implies #[trigger] enc_u(ek, r, p)[i] == u[i] by {
        assert(a_t_row(rho, i, k) =~= Seq::new(
            k,
            |j: int| sample_ntt_spec(rho.push(i as u8).push(j as u8))->0,
        ));
    }
    let cu1 = Seq::new(k, |i: int| compress_poly_spec(p.du as nat, enc_u(ek, r, p)[i]));
    let cu2 = Seq::new(k, |i: int| compress_poly_spec(p.du as nat, u[i]));
    assert(cu1 =~= cu2);
    let v = poly_add(
        poly_add(
            inv_ntt_spec(dot_spec(t, y, k as int)),
            cbd_prf(p.eta2 as nat, r, (2 * p.k) as u8),
        ),
        decompress_poly_spec(1, decode_spec(1, m)),
    );
    assert(enc_v(ek, m, r, p) == v);
    lemma_matrix_ok_bytes(rho, k);
    assert(crate::pke::enc_rho(ek, k) == rho);
    if pke_enc_spec(ek, m, r, p) is Some {
        assert(pke_enc_spec(ek, m, r, p)->0 == encode_vec(p.du as nat, cu2, k) + encode_spec(
            p.dv as nat,
            compress_poly_spec(p.dv as nat, v),
        ));
    }
}

/// Section 7.3, the decapsulation-key check: it accepts exactly the keys of
/// `secret_key_length` bytes in which each of the 32 bytes at
/// `768k + 32 + t` equals byte `t` of `H(dk[384k .. 768k + 32])`.
pub proof fn law_check_dk_compares_whole_hash(dk: Seq<u8>, p: MLKEMParameters)
    requires
        p.wf(),
    ensures
        check_dk_spec(dk, p) == (dk.len() == p.secret_key_length && forall|t: int|
            0 <= t < 32 ==> dk[768 * p.k + 32 + t] == #[trigger] sha3_256_spec(
                dk.subrange(384 * p.k as int, 768 * p.k + 32),
            )@[t]),
{
    let k = p.k as int;
    let h = sha3_256_spec(dk.subrange(384 * k, 768 * k + 32))@;
    if dk.len() == p.secret_key_length {
        if forall|t: int| 0 <= t < 32 ==> dk[768 * k + 32 + t] == #[trigger] h[t] {
            assert(dk.subrange(768 * k + 32, 768 * k + 64) =~= h);
        }
        if dk.subrange(768 * k + 32, 768 * k + 64) == h {
            assert forall|t: int| 0 <= t < 32 implies dk[768 * k + 32 + t] == #[trigger] h[t] by {
                assert(dk.subrange(768 * k + 32, 768 * k + 64)[t] == dk[768 * k + 32 + t]);
            }
        }
    }
}

/// Algorithm 18, implicit rejection over the whole ciphertext: with
/// `dk = dk_pke || ek_pke || h || z` and `c'` the first `ciphertext_length`
/// bytes of `c`, `m' = K-PKE.Decrypt(dk_pke, c')` and
/// `(K', r') = G(m' || h)`, decapsulation returns `K'` when
/// `K-PKE.Encrypt(ek_pke, m', r')` equals `c'` in every byte, and
/// `J(z || c')` when it differs in any byte.
pub proof fn law_decaps_rejects_any_mismatch(dk: Seq<u8>, c: Seq<u8>, p: MLKEMParameters)
    requires
        p.wf(),
    ensures
        ({
            let a = 384 * p.k as int;
            let b = a + p.public_key_length;
            let dkp = dk.subrange(0, a);
            let ekp = dk.subrange(a, b);
            let h = dk.subrange(b, b + 32);
            let z = dk.subrange(b + 32, b + 64);
            let cc = c.take(p.ciphertext_length as int);
            let m1 = pke_dec_spec(dkp, cc, p);
            let g = sha3_512_spec(m1 + h)@;
            match pke_enc_spec(ekp, m1, g.subrange(32, 64), p) {
                Some(c1) => {
                    &&& (forall|x: int| 0 <= x < cc.len() ==> c1[x] == cc[x]) && c1.len()
                        == cc.len() ==> kem_decaps_spec(dk, c, p) == Some(g.subrange(0, 32))
                    &&& (exists|x: int| 0 <= x < cc.len() && c1[x] != cc[x]) ==> kem_decaps_spec(
                        dk,
                        c,
                        p,
                    ) == Some(shake256_stream(z + cc, 32))
                },
                None => kem_decaps_spec(dk, c, p) is None,
            }
        }),
{
    let a = 384 * p.k as int;
    let b = a + p.public_key_length;
    let cc = c.take(p.ciphertext_length as int);
    let dkp = dk.subrange(0, a);
    let ekp = dk.subrange(a, b);
    let h = dk.subrange(b, b + 32);
    let m1 = pke_dec_spec(dkp, cc, p);
    let g = sha3_512_spec(m1 + h)@;
    match pke_enc_spec(ekp, m1, g.subrange(32, 64), p) {
        Some(c1) => {
            if (forall|x: int| 0 <= x < cc.len() ==> c1[x] == cc[x]) && c1.len() == cc.len() {
                assert(c1 =~= cc);
            }
        },
        None => {},
    }
}

/// A changed ciphertext is rejected implicitly: for a generated key pair,
/// any ciphertext `c'` of `ciphertext_length` bytes that differs from the
/// honest encapsulation `c` of `m` in any byte, but still decrypts to `m`,
/// decapsulates to `J(z || c')` and not to the encapsulated key.
pub proof fn law_decaps_rejects_changed_ciphertext(
    d: Seq<u8>,
    z: Seq<u8>,
    m: Seq<u8>,
    c2: Seq<u8>,
    p: MLKEMParameters,
)
    requires
        p.wf(),
        z.len() == 32,
        kem_keygen_spec(d, z, p) is Some,
        kem_encaps_spec((kem_keygen_spec(d, z, p)->0).0, m, p) is Some,
        c2.len() == p.ciphertext_length,
        c2 != (kem_encaps_spec((kem_keygen_spec(d, z, p)->0).0, m, p)->0).1,
        pke_dec_spec((kem_keygen_spec(d, z, p)->0).1.subrange(0, 384 * p.k as int), c2, p) == m,
    ensures
        kem_decaps_spec((kem_keygen_spec(d, z, p)->0).1, c2, p) == Some(shake256_stream(z + c2, 32)),
{
    let (ek, dk) = kem_keygen_spec(d, z, p)->0;
    let c = (kem_encaps_spec(ek, m, p)->0).1;
    let k = p.k as int;
    let (ekp, dkp) = pke_keygen_spec(d, p)->0;
    let rho = crate::pke::keygen_rho(d, p.k as nat);
    assert(rho.len() == 32);
    assert(encode_vec(12, keygen_t_hat(d, p), p.k as nat).len() == 384 * k) by (nonlinear_arith)
        requires
            encode_vec(12, keygen_t_hat(d, p), p.k as nat).len() == (p.k as nat) * (32 * 12nat),
            k == p.k,
    ;
    assert(encode_vec(12, keygen_s_hat(d, p), p.k as nat).len() == 384 * k) by (nonlinear_arith)
        requires
            encode_vec(12, keygen_s_hat(d, p), p.k as nat).len() == (p.k as nat) * (32 * 12nat),
            k == p.k,
    ;
    assert(ekp.len() == 384 * k + 32);
    assert(dkp.len() == 384 * k);
    let (dkp2, ekp2, h, zz) = dk_parts(dk, p);
    assert(dkp2 =~= dkp);
    assert(ekp2 =~= ekp);
    assert(h =~= sha3_256_spec(ekp)@);
    assert(zz =~= z);
    assert(ek.take(p.public_key_length as int) =~= ek);
    assert(c2.take(p.ciphertext_length as int) =~= c2);
    let g = encaps_g(ekp, m);
    assert(sha3_512_spec(m + h)@ == g);
    crate::pke::lemma_pke_enc_len(ekp, m, g.subrange(32, 64), p);
    assert(c.len() == c2.len());
    assert(exists|x: int| 0 <= x < c2.len() && c[x] != c2[x]) by {
        if forall|x: int| 0 <= x < c2.len() ==> c[x] == c2[x] {
            assert(c =~= c2);
        }
    }
    law_decaps_rejects_any_mismatch(dk, c2, p);
}

/// Algorithm 16, ML-KEM.KeyGen_internal: it succeeds exactly when K-PKE key
/// generation does, and then `ek = ek_pke` and
/// `dk = dk_pke || ek_pke || H(ek_pke) || z`.
pub proof fn law_kem_keygen_is_algorithm_16(d: Seq<u8>, z: Seq<u8>, p: MLKEMParameters)
    ensures
        (kem_keygen_spec(d, z, p) is Some) == (pke_keygen_spec(d, p) is Some),
        pke_keygen_spec(d, p) is Some ==> kem_keygen_spec(d, z, p)->0 == (
            (pke_keygen_spec(d, p)->0).0,
            (pke_keygen_spec(d, p)->0).1 + (pke_keygen_spec(d, p)->0).0 + sha3_256_spec(
                (pke_keygen_spec(d, p)->0).0,
            )@ + z,
        ),
{
}

/// Algorithm 17, ML-KEM.Encaps_internal: with `ek'` the first
/// `public_key_length` bytes of `ek` and `(K, r) = G(m || H(ek'))`, it
/// succeeds exactly when `K-PKE.Encrypt(ek', m, r)` does, and then returns
/// `K` (the first 32 bytes of `G`) and that ciphertext.
pub proof fn law_encaps_is_algorithm_17(ek: Seq<u8>, m: Seq<u8>, p: MLKEMParameters)
    ensures
        ({
            let ekp = ek.take(p.public_key_length as int);
            let g = sha3_512_spec(m + sha3_256_spec(ekp)@)@;
            &&& (kem_encaps_spec(ek, m, p) is Some) == (pke_enc_spec(ekp, m, g.subrange(32, 64), p) is Some)
            &&& kem_encaps_spec(ek, m, p) is Some ==> kem_encaps_spec(ek, m, p)->0 == (
                g.subrange(0, 32),
                pke_enc_spec(ekp, m, g.subrange(32, 64), p)->0,
            )
        }),
{
}

} // verus!
