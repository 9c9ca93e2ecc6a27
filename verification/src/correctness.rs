//! Correctness of K-PKE and ML-KEM: decryption recovers the message whenever
//! the decryption noise is small.
use crate::algebra::{
    cong, lemma_cong_add, lemma_cong_mod, lemma_cong_sub, lemma_dot_add_left, lemma_dot_add_right,
    lemma_dot_psum, lemma_mat_exchange, lemma_poly_add_assoc, lemma_poly_add_sub,
    lemma_psum_reduced,
};
use crate::arith::{compress_spec, decompress_spec, mod_q_distance};
use crate::encoding::{
    decode_spec, encode_spec, law_decode_encode, law_encode_decode, lemma_raw_of_encode,
};
use crate::kem::{dk_parts, encaps_g, kem_decaps_spec, kem_encaps_spec, kem_keygen_spec};
use crate::laws::{law_decaps_recovers_key, lemma_encode_vec_block};
use crate::params::MLKEMParameters;
use crate::pke::{
    a_hat, a_row, a_t_row, compress_poly_spec, dec_u, dec_v, dec_w, decode_vec_spec, enc_e1,
    enc_e2, enc_rho, enc_t_hat, enc_u, enc_v, enc_y, enc_y_hat, encode_vec, keygen_e,
    keygen_e_hat, keygen_ek, keygen_rho, keygen_s, keygen_s_hat, keygen_t_hat, matrix_ok,
    message_poly, noise_u, pke_dec_spec, pke_enc_spec, pke_keygen_spec, pke_noise, pke_noise_ntt,
    transmitted,
};
use crate::ntt::{
    dot_spec, inv_ntt_spec, law_ntt_inv_ntt, lemma_inv_ntt_add, lemma_ntt_add, ntt_spec,
};
use crate::ntt_crt::lemma_inv_ntt_dot;
use crate::poly::{is_reduced, poly_add, poly_sub};
use vstd::arithmetic::div_mod::*;
use vstd::arithmetic::power2::*;
use vstd::prelude::*;

verus! {

/// `ByteEncode_d` produces `32 d` bytes.
pub proof fn lemma_encode_len(d: nat, f: Seq<i32>)
    requires
        1 <= d <= 12,
    ensures
        encode_spec(d, f).len() == 32 * d,
{
    assert((256 * d + 7) / 8 == 32 * d) by {
        lemma_fundamental_div_mod_converse((256 * d + 7) as int, 8, 32 * d as int, 7);
    }
}

/// Block `i` of a vector encoding, followed by any bytes, decodes to
/// `ByteDecode_d(ByteEncode_d(v[i]))`.
pub proof fn lemma_decode_vec_block(d: nat, v: Seq<Seq<i32>>, k: nat, rest: Seq<u8>, i: int)
    requires
        1 <= d <= 12,
        0 <= i < k,
    ensures
        decode_vec_spec(d, encode_vec(d, v, k) + rest, k)[i] == decode_spec(d, encode_spec(d, v[i])),
{
    let e = encode_vec(d, v, k);
    let lo = 32 * d * i;
    let hi = 32 * d * (i + 1);
    assert(0 <= lo <= hi <= k * (32 * d)) by (nonlinear_arith)
        requires
            0 <= i < k,
            lo == 32 * d * i,
            hi == 32 * d * (i + 1),
    ;
    assert((e + rest).subrange(lo, hi) =~= e.subrange(lo, hi));
    lemma_encode_vec_block(d, v, k, i);
    lemma_encode_len(d, v[i]);
    assert(encode_spec(d, v[i]).take(32 * d as int) =~= encode_spec(d, v[i]));
}

/// The NTT of any polynomial is reduced.
pub proof fn lemma_ntt_reduced(f: Seq<i32>)
    ensures
        is_reduced(ntt_spec(f)),
{
}

/// The parts of the key pair of `K-PKE.KeyGen(d)` read back as generated:
/// `rho` and `t_hat` from the encryption key, `s_hat` from the decryption key.
pub proof fn lemma_keygen_parts(d: Seq<u8>, p: MLKEMParameters)
    requires
        p.wf(),
    ensures
        enc_rho(keygen_ek(d, p), p.k as nat) == keygen_rho(d, p.k as nat),
        enc_t_hat(keygen_ek(d, p), p.k as nat) == keygen_t_hat(d, p),
        decode_vec_spec(12, encode_vec(12, keygen_s_hat(d, p), p.k as nat), p.k as nat)
            == keygen_s_hat(d, p),
{
    let k = p.k as nat;
    let t = keygen_t_hat(d, p);
    let sh = keygen_s_hat(d, p);
    let rho = keygen_rho(d, k);
    let et = encode_vec(12, t, k);
    assert(rho.len() == 32);
    assert(et.len() == 384 * k) by (nonlinear_arith)
        requires
            et.len() == k * (32 * 12nat),
    ;
    assert((et + rho).subrange(384 * k as int, 384 * k as int + 32) =~= rho);
    let dt = enc_t_hat(et + rho, k);
    assert forall|i: int| 0 <= i < k implies #[trigger] dt[i] == t[i] by {
        lemma_decode_vec_block(12, t, k, rho, i);
        law_decode_encode(12, t[i]);
    }
    assert(dt =~= t);
    let ds = decode_vec_spec(12, encode_vec(12, sh, k), k);
    assert forall|i: int| 0 <= i < k implies #[trigger] ds[i] == sh[i] by {
        lemma_decode_vec_block(12, sh, k, Seq::empty(), i);
        assert(encode_vec(12, sh, k) + Seq::<u8>::empty() =~= encode_vec(12, sh, k));
        lemma_ntt_reduced(crate::pke::noise_poly(p.eta1 as nat, crate::pke::keygen_sigma(d, k), i));
        law_decode_encode(12, sh[i]);
    }
    assert(ds =~= sh);
}

/// Decryption reads back `u` and `v` as transmitted.
pub proof fn lemma_ciphertext_parts(ek: Seq<u8>, m: Seq<u8>, r: Seq<u8>, p: MLKEMParameters)
    requires
        p.wf(),
        pke_enc_spec(ek, m, r, p) is Some,
    ensures
        forall|i: int|
            0 <= i < p.k ==> #[trigger] dec_u(pke_enc_spec(ek, m, r, p)->0, p)[i] == transmitted(
                p.du as nat,
                enc_u(ek, r, p)[i],
            ),
        dec_v(pke_enc_spec(ek, m, r, p)->0, p) == transmitted(p.dv as nat, enc_v(ek, m, r, p)),
{
    let k = p.k as nat;
    let du = p.du as nat;
    let dv = p.dv as nat;
    let u = enc_u(ek, r, p);
    let v = enc_v(ek, m, r, p);
    let cu = Seq::new(k, |i: int| compress_poly_spec(du, u[i]));
    let cv = encode_spec(dv, compress_poly_spec(dv, v));
    let c = pke_enc_spec(ek, m, r, p)->0;
    assert(c == encode_vec(du, cu, k) + cv);
    assert forall|i: int| 0 <= i < p.k implies #[trigger] dec_u(c, p)[i] == transmitted(du, u[i]) by {
        lemma_decode_vec_block(du, cu, k, cv, i);
    }
    assert(encode_vec(du, cu, k).len() == 32 * p.du * p.k) by (nonlinear_arith)
        requires
            encode_vec(du, cu, k).len() == k * (32 * du),
            k == p.k,
            du == p.du,
    ;
    assert(c.skip(32 * p.du * p.k) =~= cv);
}

/// A dot product in the NTT domain is reduced.
pub proof fn lemma_dot_reduced(u: Seq<Seq<i32>>, v: Seq<Seq<i32>>, n: int)
    ensures
        is_reduced(dot_spec(u, v, n)),
{
    lemma_dot_psum(u, v, n);
    lemma_psum_reduced(|j: int| crate::ntt::base_mul(u[j], v[j]), n);
}

/// What decryption computes before rounding, `w = v' - NTT^-1(s_hat^T NTT(u'))`,
/// is the message polynomial plus the decryption noise.
pub proof fn lemma_decrypt_algebra(d: Seq<u8>, m: Seq<u8>, r: Seq<u8>, p: MLKEMParameters)
    requires
        p.wf(),
        matrix_ok(keygen_rho(d, p.k as nat), p.k as nat),
    ensures
        pke_enc_spec(keygen_ek(d, p), m, r, p) is Some,
        dec_w(
            encode_vec(12, keygen_s_hat(d, p), p.k as nat),
            pke_enc_spec(keygen_ek(d, p), m, r, p)->0,
            p,
        ) == poly_add(pke_noise_ntt(d, m, r, p), message_poly(m)),
{
    let k = p.k as nat;
    let n = k as int;
    let du = p.du as nat;
    let dv = p.dv as nat;
    let ek = keygen_ek(d, p);
    let rho = keygen_rho(d, k);
    lemma_keygen_parts(d, p);
    let c = pke_enc_spec(ek, m, r, p)->0;
    lemma_ciphertext_parts(ek, m, r, p);
    let sh = keygen_s_hat(d, p);
    let eh = keygen_e_hat(d, p);
    let th = keygen_t_hat(d, p);
    let yh = enc_y_hat(r, p);
    let e1 = enc_e1(r, p);
    let e2 = enc_e2(r, p);
    let mu = message_poly(m);
    let u = enc_u(ek, r, p);
    let v = enc_v(ek, m, r, p);
    let vt = transmitted(dv, v);
    // NTT(u') = A^T y_hat + NTT(e1 + (u' - u))
    let xs = Seq::new(k, |j: int| dot_spec(a_t_row(rho, j, k), yh, n));
    let nvec = noise_u(d, r, p);
    let es = Seq::new(k, |j: int| ntt_spec(nvec[j]));
    let nu = Seq::new(k, |i: int| ntt_spec(dec_u(c, p)[i]));
    assert forall|j: int| 0 <= j < n implies #[trigger] nu[j] == poly_add(xs[j], es[j]) by {
        let uj = u[j];
        let tj = transmitted(du, uj);
        let ix = inv_ntt_spec(xs[j]);
        assert(uj == poly_add(ix, e1[j]));
        lemma_poly_add_sub(tj, uj);
        lemma_poly_add_assoc(ix, e1[j], poly_sub(tj, uj));
        lemma_ntt_add(ix, poly_add(e1[j], poly_sub(tj, uj)));
        lemma_dot_reduced(a_t_row(rho, j, k), yh, n);
        law_ntt_inv_ntt(xs[j]);
    }
    lemma_dot_add_right(sh, xs, es, nu, n);
    let s1 = dot_spec(sh, xs, n);
    let s2 = dot_spec(sh, es, n);
    // t_hat^T y_hat = (A s_hat)^T y_hat + e_hat^T y_hat
    let rows = Seq::new(k, |i: int| dot_spec(a_row(rho, i, k), sh, n));
    lemma_dot_add_left(rows, eh, th, yh, n);
    let g = dot_spec(eh, yh, n);
    let a = |i: int, j: int| a_hat(rho, i, j);
    lemma_mat_exchange(a, sh, yh, k);
    let cols2 = Seq::new(k, |j: int| dot_spec(Seq::new(k, |i: int| a(i, j)), yh, n));
    let rows2 = Seq::new(k, |i: int| dot_spec(Seq::new(k, |j: int| a(i, j)), sh, n));
    assert forall|j: int| 0 <= j < n implies #[trigger] cols2[j] == xs[j] by {
        assert(Seq::new(k, |i: int| a(i, j)) =~= a_t_row(rho, j, k));
    }
    assert(cols2 =~= xs);
    assert forall|i: int| 0 <= i < n implies #[trigger] rows2[i] == rows[i] by {
        assert(Seq::new(k, |j: int| a(i, j)) =~= a_row(rho, i, k));
    }
    assert(rows2 =~= rows);
    // linearity of the inverse NTT
    lemma_inv_ntt_add(s1, g);
    lemma_inv_ntt_add(s1, s2);
    let w = dec_w(encode_vec(12, sh, k), c, p);
    let nz = pke_noise_ntt(d, m, r, p);
    assert(v == poly_add(poly_add(inv_ntt_spec(poly_add(s1, g)), e2), mu));
    assert(w == poly_sub(vt, inv_ntt_spec(poly_add(s1, s2))));
    assert(nz == poly_sub(
        poly_add(poly_add(inv_ntt_spec(g), e2), poly_sub(vt, v)),
        inv_ntt_spec(s2),
    ));
    assert forall|x: int| 0 <= x < 256 implies #[trigger] w[x] == poly_add(nz, mu)[x] by {
        let is1 = inv_ntt_spec(s1)[x] as int;
        let is2 = inv_ntt_spec(s2)[x] as int;
        let ig = inv_ntt_spec(g)[x] as int;
        let e2x = e2[x] as int;
        let mux = mu[x] as int;
        let vx = v[x] as int;
        let vtx = vt[x] as int;
        let it = (is1 + ig) % 3329;
        // v = (s1 + g) + e2 + mu
        lemma_cong_mod(is1 + ig);
        lemma_cong_add(it, e2x, is1 + ig, e2x);
        lemma_cong_mod(it + e2x);
        lemma_cong_add((it + e2x) % 3329, mux, is1 + ig + e2x, mux);
        lemma_cong_mod((it + e2x) % 3329 + mux);
        assert(cong(vx, is1 + ig + e2x + mux));
        // w = v' - (s1 + s2)
        let id = (is1 + is2) % 3329;
        lemma_cong_mod(is1 + is2);
        lemma_cong_sub(vtx, id, vtx, is1 + is2);
        lemma_cong_mod(vtx - id);
        // noise + mu
        let b = (ig + e2x) % 3329;
        let cc = (vtx - vx) % 3329;
        lemma_cong_mod(ig + e2x);
        lemma_cong_mod(vtx - vx);
        lemma_cong_sub(vtx, vx, vtx, is1 + ig + e2x + mux);
        lemma_cong_add(b, cc, ig + e2x, vtx - (is1 + ig + e2x + mux));
        lemma_cong_mod(b + cc);
        lemma_cong_sub((b + cc) % 3329, is2, vtx - is1 - mux, is2);
        lemma_cong_mod((b + cc) % 3329 - is2);
        let nx = ((b + cc) % 3329 - is2) % 3329;
        assert(nz[x] as int == nx);
        lemma_cong_add(nx, mux, vtx - is1 - mux - is2, mux);
    }
    assert(w =~= poly_add(nz, mu));
}

/// The decryption noise computed in the NTT domain is the noise in
/// `Z_q[X]/(X^256 + 1)`.
pub proof fn lemma_noise_forms(d: Seq<u8>, m: Seq<u8>, r: Seq<u8>, p: MLKEMParameters)
    ensures
        pke_noise_ntt(d, m, r, p) == pke_noise(d, m, r, p),
{
    let k = p.k as nat;
    let nu = noise_u(d, r, p);
    lemma_inv_ntt_dot(keygen_e(d, p), enc_y(r, p), keygen_e_hat(d, p), enc_y_hat(r, p), k as int);
    lemma_inv_ntt_dot(
        keygen_s(d, p),
        nu,
        keygen_s_hat(d, p),
        Seq::new(k, |j: int| ntt_spec(nu[j])),
        k as int,
    );
}

/// A message bit survives a noise of distance below `832` from zero modulo
/// q: `Compress_1(Decompress_1(bit) + noise) = bit`.
pub proof fn lemma_decrypt_bit(noise: int, bit: int)
    requires
        0 <= noise < 3329,
        mod_q_distance(noise, 0) < 832,
        0 <= bit < 2,
    ensures
        compress_spec(1, (noise + decompress_spec(1, bit)) % 3329) == bit,
{
    lemma2_to64();
    lemma_small_mod(noise as nat, 3329);
    if bit == 0 {
        assert(decompress_spec(1, bit) == 0);
        let w = noise;
        assert(w % 3329 == w);
        if w < 832 {
            assert((w * 2 + 1664) / 3329 == 0);
        } else {
            assert((w * 2 + 1664) / 3329 == 2);
        }
    } else {
        assert(decompress_spec(1, bit) == 1665);
        if noise < 832 {
            let w = noise + 1665;
            lemma_small_mod(w as nat, 3329);
            assert((w * 2 + 1664) / 3329 == 1);
        } else {
            let w = noise + 1665 - 3329;
            lemma_mod_sub_multiples_vanish(noise + 1665, 3329);
            lemma_small_mod(w as nat, 3329);
            assert((w * 2 + 1664) / 3329 == 1);
        }
    }
}

/// K-PKE decryption recovers the message: for a key pair generated from the
/// seed `d`, every 32-byte message `m` and every randomness `r`, decrypting
/// the encryption of `m` gives `m` back whenever each coefficient of the
/// decryption noise lies within distance `832` (just under `q / 4`) of zero
/// modulo q.
pub proof fn law_pke_decrypt_recovers_message(
    d: Seq<u8>,
    m: Seq<u8>,
    r: Seq<u8>,
    p: MLKEMParameters,
)
    requires
        p.wf(),
        m.len() == 32,
        pke_keygen_spec(d, p) is Some,
        forall|x: int|
            0 <= x < 256 ==> mod_q_distance(#[trigger] pke_noise(d, m, r, p)[x] as int, 0) < 832,
    ensures
        pke_enc_spec((pke_keygen_spec(d, p)->0).0, m, r, p) is Some,
        pke_dec_spec(
            (pke_keygen_spec(d, p)->0).1,
            pke_enc_spec((pke_keygen_spec(d, p)->0).0, m, r, p)->0,
            p,
        ) == m,
{
    let k = p.k as nat;
    lemma_decrypt_algebra(d, m, r, p);
    lemma_noise_forms(d, m, r, p);
    let c = pke_enc_spec(keygen_ek(d, p), m, r, p)->0;
    let w = dec_w(encode_vec(12, keygen_s_hat(d, p), k), c, p);
    let nz = pke_noise(d, m, r, p);
    let bits = decode_spec(1, m);
    let mu = message_poly(m);
    lemma2_to64();
    assert forall|x: int| 0 <= x < 256 implies #[trigger] compress_poly_spec(1, w)[x] == bits[x] by {
        let b = bits[x] as int;
        assert(0 <= b < 2);
        assert(mu[x] as int == decompress_spec(1, b));
        lemma_decrypt_bit(nz[x] as int, b);
    }
    assert(compress_poly_spec(1, w) =~= bits);
    law_encode_decode(1, m);
}

/// ML-KEM decapsulation inverts encapsulation: for a key pair generated
/// from the seeds `d` and `z` and every 32-byte message `m`, decapsulating
/// the ciphertext of `Encaps_internal(ek, m)` with `dk` gives the
/// encapsulated key, whenever the decryption noise of that encryption (with
/// the randomness `r` drawn from `G(m || H(ek))`) lies within distance `832`
/// of zero modulo q in every coefficient.
pub proof fn law_decaps_inverts_encaps(d: Seq<u8>, z: Seq<u8>, m: Seq<u8>, p: MLKEMParameters)
    requires
        p.wf(),
        z.len() == 32,
        m.len() == 32,
        kem_keygen_spec(d, z, p) is Some,
        forall|x: int|
            0 <= x < 256 ==> mod_q_distance(
                #[trigger] pke_noise(d, m, encaps_g(keygen_ek(d, p), m).subrange(32, 64), p)[x]
                    as int,
                0,
            ) < 832,
    ensures
        kem_encaps_spec((kem_keygen_spec(d, z, p)->0).0, m, p) is Some,
        kem_decaps_spec(
            (kem_keygen_spec(d, z, p)->0).1,
            (kem_encaps_spec((kem_keygen_spec(d, z, p)->0).0, m, p)->0).1,
            p,
        ) == Some((kem_encaps_spec((kem_keygen_spec(d, z, p)->0).0, m, p)->0).0),
{
    let k = p.k as int;
    let (ek, dk) = kem_keygen_spec(d, z, p)->0;
    let (ekp, dkp) = pke_keygen_spec(d, p)->0;
    let r = encaps_g(keygen_ek(d, p), m).subrange(32, 64);
    law_pke_decrypt_recovers_message(d, m, r, p);
    let rho = keygen_rho(d, p.k as nat);
    assert(rho.len() == 32);
    assert(encode_vec(12, keygen_t_hat(d, p), p.k as nat).len() == 384 * k) by (nonlinear_arith)
        requires
            encode_vec(12, keygen_t_hat(d, p), p.k as nat).len() == (p.k as nat) * (32 * 12nat),
            k == p.k,
    ;
    assert(encode_vec(12, keygen_s_hat(d, p), p.k as nat).len() == 384 * k) by (nonlinear_arith)
        requires
            encode_vec(12, keygen_s_hat(d, p), p.k as nat).len() == (p.k as nat) * (32 * 12nat),
            k == p.k,
    ;
    assert(ekp.len() == p.public_key_length);
    assert(ek.take(p.public_key_length as int) =~= ek);
    assert(ek == keygen_ek(d, p));
    assert(dk_parts(dk, p).0 =~= dkp);
    law_decaps_recovers_key(d, z, m, p);
}

/// Adding `1665 = (q + 1) / 2` modulo q changes `Compress_d` for `d >= 2`:
/// the compressed value moves by `2^(d-1)` or `2^(d-1) + 1` modulo `2^d`.
pub proof fn lemma_compress_half_shift(d: nat, w: int)
    requires
        2 <= d <= 12,
        0 <= w < 3329,
    ensures
        compress_spec(d, w) != compress_spec(d, (w + 1665) % 3329),
{
    let pp = pow2(d) as int;
    let h = pow2((d - 1) as nat) as int;
    lemma_pow2_unfold(d);
    lemma2_to64();
    lemma_pow2_strictly_increases(1, d);
    if d < 12 {
        lemma_pow2_strictly_increases(d, 12);
    }
    assert(pp == 2 * h && 4 <= pp <= 4096);
    let a = w * pp + 1664;
    let f = a / 3329;
    let r = a % 3329;
    lemma_fundamental_div_mod(a, 3329);
    let dl: int = if r + h >= 3329 { 1 } else { 0 };
    let w2 = (w + 1665) % 3329;
    let b = w2 * pp + 1664;
    let e: int = if w + 1665 >= 3329 { 1 } else { 0 };
    assert(w2 == w + 1665 - 3329 * e);
    assert(b == a + 1665 * pp - 3329 * e * pp) by (nonlinear_arith)
        requires
            b == w2 * pp + 1664,
            a == w * pp + 1664,
            w2 == w + 1665 - 3329 * e,
    ;
    assert(3329 * e * pp == 3329 * (e * pp)) by (nonlinear_arith);
    let qf = f + h + dl - e * pp;
    assert(b == 3329 * qf + (r + h - 3329 * dl)) by (nonlinear_arith)
        requires
            b == a + 1665 * pp - 3329 * (e * pp),
            a == 3329 * f + r,
            pp == 2 * h,
            qf == f + h + dl - e * pp,
    ;
    lemma_fundamental_div_mod_converse(b, 3329, qf, r + h - 3329 * dl);
    // compress_spec(d, w2) = (f + h + dl - e pp) % pp = (f + h + dl) % pp
    lemma_mod_multiples_vanish(-e, f + h + dl, pp);
    assert(pp * (-e) + (f + h + dl) == qf) by (nonlinear_arith)
        requires
            qf == f + h + dl - e * pp,
    ;
    let c1 = f % pp;
    let c2 = (f + h + dl) % pp;
    assert(compress_spec(d, w) == c1);
    assert(compress_spec(d, w2) == c2);
    if c1 == c2 {
        lemma_sub_mod_noop(f + h + dl, f, pp);
        assert((f + h + dl) - f == h + dl);
        assert(c2 - c1 == 0);
        lemma_small_mod(0, pp as nat);
        assert(0 <= h + dl < pp);
        lemma_small_mod((h + dl) as nat, pp as nat);
        assert((h + dl) % pp == h + dl);
        assert(h + dl > 0);
    }
}

/// A ciphertext is the encoded, compressed `u` followed by the encoded,
/// compressed `v`.
proof fn lemma_ciphertext_split(ek: Seq<u8>, m: Seq<u8>, r: Seq<u8>, p: MLKEMParameters)
    requires
        p.wf(),
        pke_enc_spec(ek, m, r, p) is Some,
    ensures
        (pke_enc_spec(ek, m, r, p)->0).take(32 * p.du * p.k) == encode_vec(
            p.du as nat,
            Seq::new(p.k as nat, |i: int| compress_poly_spec(p.du as nat, enc_u(ek, r, p)[i])),
            p.k as nat,
        ),
        (pke_enc_spec(ek, m, r, p)->0).skip(32 * p.du * p.k) == encode_spec(
            p.dv as nat,
            compress_poly_spec(p.dv as nat, enc_v(ek, m, r, p)),
        ),
{
    let k = p.k as nat;
    let du = p.du as nat;
    let cu = Seq::new(k, |i: int| compress_poly_spec(du, enc_u(ek, r, p)[i]));
    let cv = encode_spec(p.dv as nat, compress_poly_spec(p.dv as nat, enc_v(ek, m, r, p)));
    let c = pke_enc_spec(ek, m, r, p)->0;
    assert(c == encode_vec(du, cu, k) + cv);
    assert(encode_vec(du, cu, k).len() == 32 * p.du * p.k) by (nonlinear_arith)
        requires
            encode_vec(du, cu, k).len() == k * (32 * du),
            k == p.k,
            du == p.du,
    ;
    assert(c.take(32 * p.du * p.k) =~= encode_vec(du, cu, k));
    assert(c.skip(32 * p.du * p.k) =~= cv);
}

/// The `u` part of a K-PKE ciphertext does not depend on the message: two
/// encryptions with the same key and randomness agree in their first
/// `32 du k` bytes, and both succeed or both fail.
pub proof fn law_pke_enc_u_ignores_message(
    ek: Seq<u8>,
    m1: Seq<u8>,
    m2: Seq<u8>,
    r: Seq<u8>,
    p: MLKEMParameters,
)
    requires
        p.wf(),
    ensures
        (pke_enc_spec(ek, m1, r, p) is Some) == (pke_enc_spec(ek, m2, r, p) is Some),
        pke_enc_spec(ek, m1, r, p) is Some ==> (pke_enc_spec(ek, m1, r, p)->0).take(
            32 * p.du * p.k,
        ) == (pke_enc_spec(ek, m2, r, p)->0).take(32 * p.du * p.k),
{
    if pke_enc_spec(ek, m1, r, p) is Some {
        lemma_ciphertext_split(ek, m1, r, p);
        lemma_ciphertext_split(ek, m2, r, p);
    }
}

/// Two distinct 32-byte messages differ in some bit of `ByteDecode_1`.
proof fn lemma_message_bits_differ(m1: Seq<u8>, m2: Seq<u8>) -> (i: int)
    requires
        m1.len() == 32,
        m2.len() == 32,
        m1 != m2,
    ensures
        0 <= i < 256,
        decode_spec(1, m1)[i] != decode_spec(1, m2)[i],
        0 <= decode_spec(1, m1)[i] < 2,
        0 <= decode_spec(1, m2)[i] < 2,
{
    let b1 = decode_spec(1, m1);
    let b2 = decode_spec(1, m2);
    law_encode_decode(1, m1);
    law_encode_decode(1, m2);
    assert(exists|i: int| 0 <= i < 256 && b1[i] != b2[i]) by {
        if forall|i: int| 0 <= i < 256 ==> b1[i] == b2[i] {
            assert(b1 =~= b2);
        }
    }
    let i = choose|i: int| 0 <= i < 256 && b1[i] != b2[i];
    lemma2_to64();
    i
}

/// Distinct message bits added to the same value give distinct compressed
/// values, for `d >= 2`.
proof fn lemma_bits_compress_differ(d: nat, w: int, b1: int, b2: int)
    requires
        2 <= d <= 12,
        0 <= w < 3329,
        0 <= b1 < 2,
        0 <= b2 < 2,
        b1 != b2,
    ensures
        compress_spec(d, (w + decompress_spec(1, b1)) % 3329) != compress_spec(
            d,
            (w + decompress_spec(1, b2)) % 3329,
        ),
{
    lemma2_to64();
    assert(decompress_spec(1, 0) == 0);
    assert(decompress_spec(1, 1) == 1665);
    lemma_small_mod(w as nat, 3329);
    lemma_compress_half_shift(d, w);
}

/// `ByteEncode_d` of polynomials with coefficients below `2^d` that differ
/// at position `i` differ.
proof fn lemma_encode_differs(d: nat, c1: Seq<i32>, c2: Seq<i32>, i: int)
    requires
        1 <= d <= 12,
        c1.len() == 256,
        c2.len() == 256,
        0 <= i < 256,
        0 <= c1[i] < pow2(d),
        0 <= c2[i] < pow2(d),
        c1[i] != c2[i],
    ensures
        encode_spec(d, c1) != encode_spec(d, c2),
{
    lemma_raw_of_encode(d, c1, i);
    lemma_raw_of_encode(d, c2, i);
}

/// Distinct 32-byte messages give distinct `v` parts of the ciphertext, for
/// the same key and randomness, whenever `v` keeps at least two bits per
/// coefficient: a flipped message bit moves its coefficient of `v` by about
/// `q / 2`, which moves the compressed value by `2^(dv - 1)` or
/// `2^(dv - 1) + 1` modulo `2^dv`.
pub proof fn law_pke_enc_distinct_messages(
    ek: Seq<u8>,
    m1: Seq<u8>,
    m2: Seq<u8>,
    r: Seq<u8>,
    p: MLKEMParameters,
)
    requires
        p.wf(),
        2 <= p.dv,
        m1.len() == 32,
        m2.len() == 32,
        m1 != m2,
        pke_enc_spec(ek, m1, r, p) is Some,
    ensures
        pke_enc_spec(ek, m2, r, p) is Some,
        (pke_enc_spec(ek, m1, r, p)->0).skip(32 * p.du * p.k) != (pke_enc_spec(
            ek,
            m2,
            r,
            p,
        )->0).skip(32 * p.du * p.k),
{
    let dv = p.dv as nat;
    lemma_ciphertext_split(ek, m1, r, p);
    lemma_ciphertext_split(ek, m2, r, p);
    let i = lemma_message_bits_differ(m1, m2);
    let bi1 = decode_spec(1, m1)[i] as int;
    let bi2 = decode_spec(1, m2)[i] as int;
    let v1 = enc_v(ek, m1, r, p);
    let v2 = enc_v(ek, m2, r, p);
    let k = p.k as nat;
    let wp = poly_add(
        inv_ntt_spec(dot_spec(enc_t_hat(ek, k), enc_y_hat(r, p), k as int)),
        enc_e2(r, p),
    );
    let w = wp[i] as int;
    assert(v1[i] as int == (w + decompress_spec(1, bi1)) % 3329);
    assert(v2[i] as int == (w + decompress_spec(1, bi2)) % 3329);
    lemma_bits_compress_differ(dv, w, bi1, bi2);
    let c1 = compress_poly_spec(dv, v1);
    let c2 = compress_poly_spec(dv, v2);
    lemma_pow2_pos(dv);
    if dv < 12 {
        lemma_pow2_strictly_increases(dv, 12);
    }
    lemma2_to64();
    assert(pow2(dv) <= 4096);
    assert(c1[i] != c2[i]);
    lemma_encode_differs(dv, c1, c2, i);
}

} // verus!
