//! The K-PKE public-key encryption scheme (Algorithms 13 to 15 of FIPS 203)
//! and the specifications of its intermediate values.
use crate::arith::{compress, compress_spec, decompress, decompress_spec};
use crate::bytes::copy_into;
use crate::encoding::{decode, decode_spec, encode, encode_spec};
use crate::hashing::{expand, prf, sha3_512_spec, shake256_stream};
use crate::ntt::{
    dot, dot_spec, inv_ntt, inv_ntt_spec, lemma_dot_spec_ext, mat_vec, ntt, ntt_spec, polys,
};
use crate::ntt_crt::ring_dot;
use crate::params::MLKEMParameters;
use crate::poly::{is_reduced, padd, poly_add, poly_sub, psub, vadd, vec_reduced, MAX_K, N};
use crate::sampling::{cbd_spec, sample_noise, sample_ntt_spec, sample_uniform, xof_input};
use vstd::arithmetic::div_mod::*;
use vstd::prelude::*;

verus! {

/// Why an operation could not complete.
#[derive(Debug, Clone, Copy, PartialEq, Eq)]
pub enum MlKemError {
    /// The SHAKE128 stream of a matrix entry held fewer than 256 candidates
    /// below q in the bytes that `sample_uniform` reads.
    SamplingLimit,
}

/// `SamplePolyCBD_eta(PRF_eta(seed, nonce))`.
pub open spec fn noise_poly(eta: nat, seed: Seq<u8>, nonce: int) -> Seq<i32> {
    cbd_spec(eta, shake256_stream(seed.push(nonce as u8), 64 * eta))
}

/// Every matrix entry `A[i][j]`, `i, j < k`, can be sampled from `rho`.
pub open spec fn matrix_ok(rho: Seq<u8>, k: nat) -> bool {
    forall|i: int, j: int|
        0 <= i < k && 0 <= j < k ==> (#[trigger] sample_ntt_spec(
            xof_input(rho, i as usize, j as usize),
        )) is Some
}

/// Entry `A[i][j]` of the matrix expanded from `rho`.
pub open spec fn a_hat(rho: Seq<u8>, i: int, j: int) -> Seq<i32> {
    sample_ntt_spec(xof_input(rho, i as usize, j as usize))->0
}

/// Row `i` of `A`, entries `0..k`.
pub open spec fn a_row(rho: Seq<u8>, i: int, k: nat) -> Seq<Seq<i32>> {
    Seq::new(k, |j: int| a_hat(rho, i, j))
}

/// Row `i` of the transpose of `A`, entries `0..k`.
pub open spec fn a_t_row(rho: Seq<u8>, i: int, k: nat) -> Seq<Seq<i32>> {
    Seq::new(k, |j: int| a_hat(rho, j, i))
}

/// `ByteEncode_12` of each of the `k` polynomials, concatenated.
pub open spec fn encode_vec(d: nat, v: Seq<Seq<i32>>, k: nat) -> Seq<u8> {
    Seq::new(k * (32 * d), |x: int| encode_spec(d, v[x / (32 * d) as int])[x % (32 * d) as int])
}

/// The seed hashed by `G` in key generation: `d` followed by `k`, in 33
/// bytes.
pub open spec fn keygen_seed(d: Seq<u8>, k: nat) -> Seq<u8> {
    Seq::new(33, |t: int| if t == 32 { k as u8 } else if t < d.len() { d[t] } else { 0u8 })
}

/// `rho`, the public seed of key generation.
pub open spec fn keygen_rho(d: Seq<u8>, k: nat) -> Seq<u8> {
    sha3_512_spec(keygen_seed(d, k))@.subrange(0, 32)
}

/// `sigma`, the noise seed of key generation.
pub open spec fn keygen_sigma(d: Seq<u8>, k: nat) -> Seq<u8> {
    sha3_512_spec(keygen_seed(d, k))@.subrange(32, 64)
}

/// The secret vector `s_hat = NTT(s)`.
pub open spec fn keygen_s_hat(d: Seq<u8>, p: MLKEMParameters) -> Seq<Seq<i32>> {
    Seq::new(
        p.k as nat,
        |i: int| ntt_spec(noise_poly(p.eta1 as nat, keygen_sigma(d, p.k as nat), i)),
    )
}

/// The error vector `e_hat = NTT(e)`.
pub open spec fn keygen_e_hat(d: Seq<u8>, p: MLKEMParameters) -> Seq<Seq<i32>> {
    Seq::new(
        p.k as nat,
        |i: int| ntt_spec(noise_poly(p.eta1 as nat, keygen_sigma(d, p.k as nat), p.k + i)),
    )
}

/// The public vector `t_hat = A s_hat + e_hat`.
pub open spec fn keygen_t_hat(d: Seq<u8>, p: MLKEMParameters) -> Seq<Seq<i32>> {
    let rho = keygen_rho(d, p.k as nat);
    Seq::new(
        p.k as nat,
        |i: int|
            poly_add(
                dot_spec(a_row(rho, i, p.k as nat), keygen_s_hat(d, p), p.k as int),
                keygen_e_hat(d, p)[i],
            ),
    )
}

/// Algorithm 13 of FIPS 203, `K-PKE.KeyGen(d)`: `(ek, dk)`, or `None` when a
/// matrix entry cannot be sampled.
pub open spec fn pke_keygen_spec(d: Seq<u8>, p: MLKEMParameters) -> Option<(Seq<u8>, Seq<u8>)> {
    let k = p.k as nat;
    let rho = keygen_rho(d, k);
    if matrix_ok(rho, k) {
        Some((encode_vec(12, keygen_t_hat(d, p), k) + rho, encode_vec(12, keygen_s_hat(d, p), k)))
    } else {
        None
    }
}

/// Locates index `x` inside block `i` of width `n`.
proof fn lemma_in_block(x: int, n: int, i: int)
    requires
        n > 0,
        n * i <= x < n * i + n,
    ensures
        x / n == i,
        x % n == x - n * i,
{
    assert(x == i * n + (x - n * i)) by (nonlinear_arith)
        requires
            n * i <= x,
    ;
    lemma_fundamental_div_mod_converse(x, n, i, x - n * i);
}

/// `encode_vec` reads only the first `k` polynomials.
pub proof fn lemma_encode_vec_ext(d: nat, v1: Seq<Seq<i32>>, v2: Seq<Seq<i32>>, k: nat)
    requires
        d >= 1,
        forall|i: int| 0 <= i < k ==> v1[i] == v2[i],
    ensures
        encode_vec(d, v1, k) == encode_vec(d, v2, k),
{
    let w = (32 * d) as int;
    assert forall|x: int| 0 <= x < k * (32 * d) implies #[trigger] encode_vec(d, v1, k)[x]
        == encode_vec(d, v2, k)[x] by {
        lemma_div_is_ordered(x, (k * (32 * d)) as int, w);
        assert((k * (32 * d)) as int / w == k as int) by {
            lemma_div_by_multiple(k as int, w);
        }
        lemma_div_pos_is_pos(x, w);
        if x / w >= k {
            lemma_fundamental_div_mod(x, w);
            assert(false) by (nonlinear_arith)
                requires
                    x == w * (x / w) + x % w,
                    x / w >= k,
                    x % w >= 0,
                    x < k * w,
                    w > 0,
            ;
        }
    }
    assert(encode_vec(d, v1, k) =~= encode_vec(d, v2, k));
}

/// Writes `ByteEncode_d` of the first `k` polynomials of `v` to
/// `out[offset..offset + 32 d k]`.
pub(crate) fn encode_vec_into(d: usize, v: &[[i32; N]; MAX_K], k: usize, out: &mut [u8], offset: usize)
    requires
        1 <= d <= 12,
        k <= MAX_K,
        offset + k * (32 * d) <= old(out).len(),
        forall|i: int| 0 <= i < k ==> crate::encoding::nonneg_coeffs(#[trigger] v@[i]@),
    ensures
        final(out)@ == old(out)@.take(offset as int) + encode_vec(d as nat, polys(v@), k as nat)
            + old(out)@.skip(offset + k * (32 * d)),
{
    let ghost enc = encode_vec(d as nat, polys(v@), k as nat);
    let w = 32 * d;
    assert(0 * w == 0) by (nonlinear_arith);
    for i in 0..k
        invariant
            1 <= d <= 12,
            k <= MAX_K,
            w == 32 * d,
            offset + k * w <= out.len(),
            out.len() == old(out).len(),
            enc == encode_vec(d as nat, polys(v@), k as nat),
            forall|i: int| 0 <= i < k ==> crate::encoding::nonneg_coeffs(#[trigger] v@[i]@),
            forall|t: int| 0 <= t < offset ==> #[trigger] out@[t] == old(out)@[t],
            forall|t: int| 0 <= t < i * w ==> #[trigger] out@[offset + t] == enc[t],
            forall|t: int| offset + i * w <= t < out.len() ==> #[trigger] out@[t] == old(out)@[t],
    {
        let mut buf = [0u8; 384];
        encode(d, &v[i], &mut buf);
        assert(i * w + w <= k * w && (i + 1) * w == i * w + w && w * i == i * w)
            by (nonlinear_arith)
            requires
                i < k,
        ;
        let chunk = vstd::slice::slice_subrange(buf.as_slice(), 0, w);
        assert(chunk@ =~= encode_spec(d as nat, v@[i as int]@));
        let ghost before = out@;
        copy_into(out, offset + i * w, chunk);
        assert forall|t: int| 0 <= t < (i + 1) * w implies #[trigger] out@[offset + t] == enc[t] by {
            if t >= i * w {
                lemma_in_block(t, w as int, i as int);
                assert(t < k * w) by (nonlinear_arith)
                    requires
                        t < (i + 1) * w,
                        i < k,
                ;
                assert(polys(v@)[i as int] == v@[i as int]@);
            }
        }
    }
    let ghost expected = old(out)@.take(offset as int) + enc + old(out)@.skip(offset + k * w);
    assert forall|t: int| 0 <= t < out.len() implies #[trigger] out@[t] == expected[t] by {
        if offset <= t < offset + k * w {
            assert(out@[offset + (t - offset)] == enc[t - offset]);
        }
    }
    assert(out@ =~= expected);
}

/// `Compress_d` applied to every coefficient.
pub open spec fn compress_poly_spec(d: nat, f: Seq<i32>) -> Seq<i32> {
    Seq::new(256, |i: int| compress_spec(d, f[i] as int) as i32)
}

/// `Decompress_d` applied to every coefficient.
pub open spec fn decompress_poly_spec(d: nat, f: Seq<i32>) -> Seq<i32> {
    Seq::new(256, |i: int| decompress_spec(d, f[i] as int) as i32)
}

/// `ByteDecode_d` of the `k` consecutive `32 d`-byte blocks of `b`.
pub open spec fn decode_vec_spec(d: nat, b: Seq<u8>, k: nat) -> Seq<Seq<i32>> {
    Seq::new(k, |i: int| decode_spec(d, b.subrange(32 * d * i, 32 * d * (i + 1))))
}

/// Coefficients below `2^12`.
pub open spec fn below_4096(f: Seq<i32>) -> bool {
    forall|i: int| 0 <= i < 256 ==> 0 <= #[trigger] f[i] < 4096
}

/// `Compress_d` of every coefficient of a reduced polynomial.
fn compress_poly(d: usize, f: &[i32; N]) -> (r: [i32; N])
    requires
        1 <= d <= 12,
        is_reduced(f@),
    ensures
        r@ == compress_poly_spec(d as nat, f@),
        crate::encoding::nonneg_coeffs(r@),
{
    let mut r = [0i32; N];
    proof {
        vstd::arithmetic::power2::lemma2_to64();
    }
    for j in 0..N
        invariant
            1 <= d <= 12,
            is_reduced(f@),
            vstd::arithmetic::power2::pow2(d as nat) <= 4096,
            forall|t: int| 0 <= t < j ==> #[trigger] r@[t] == compress_poly_spec(d as nat, f@)[t],
            forall|t: int| 0 <= t < j ==> 0 <= #[trigger] r@[t],
    {
        assert(f@[j as int] * vstd::arithmetic::power2::pow2(d as nat) <= 3328 * 4096)
            by (nonlinear_arith)
            requires
                0 <= f@[j as int] < 3329,
                vstd::arithmetic::power2::pow2(d as nat) <= 4096,
        ;
        r[j] = compress(d, f[j]);
        proof {
            vstd::arithmetic::power2::lemma_pow2_pos(d as nat);
            lemma_mod_bound(
                (f@[j as int] * vstd::arithmetic::power2::pow2(d as nat) + 1664) / 3329,
                vstd::arithmetic::power2::pow2(d as nat) as int,
            );
        }
    }
    assert(r@ =~= compress_poly_spec(d as nat, f@));
    r
}

/// `Decompress_d` of every coefficient of a polynomial with 12-bit
/// coefficients.
fn decompress_poly(d: usize, f: &[i32; N]) -> (r: [i32; N])
    requires
        1 <= d <= 12,
        below_4096(f@),
    ensures
        r@ == decompress_poly_spec(d as nat, f@),
        is_reduced(r@),
{
    let mut r = [0i32; N];
    proof {
        vstd::arithmetic::power2::lemma2_to64();
        vstd::arithmetic::power2::lemma_pow2_pos(d as nat);
    }
    for j in 0..N
        invariant
            1 <= d <= 12,
            below_4096(f@),
            vstd::arithmetic::power2::pow2((d - 1) as nat) <= 2048,
            vstd::arithmetic::power2::pow2(d as nat) > 0,
            forall|t: int| 0 <= t < j ==> #[trigger] r@[t] == decompress_poly_spec(d as nat, f@)[t],
            forall|t: int| 0 <= t < j ==> 0 <= #[trigger] r@[t] < 3329,
    {
        r[j] = decompress(d, f[j]);
    }
    assert(r@ =~= decompress_poly_spec(d as nat, f@));
    r
}

/// Decodes `k` consecutive `32 d`-byte blocks of `b` into `out[..k]`; the
/// other entries of `out` are left as they were.
pub(crate) fn decode_vec(d: usize, b: &[u8], k: usize, out: &mut [[i32; N]; MAX_K])
    requires
        1 <= d <= 12,
        k <= MAX_K,
        b.len() >= 32 * d * k,
    ensures
        forall|i: int| 0 <= i < k ==> #[trigger] final(out)@[i]@ == decode_vec_spec(d as nat, b@, k as nat)[i],
        forall|i: int| k <= i < MAX_K ==> #[trigger] final(out)@[i] == old(out)@[i],
{
    for i in 0..k
        invariant
            1 <= d <= 12,
            k <= MAX_K,
            b.len() >= 32 * d * k,
            forall|t: int| 0 <= t < i ==> #[trigger] out@[t]@ == decode_vec_spec(d as nat, b@, k as nat)[t],
            forall|t: int| i <= t < MAX_K ==> #[trigger] out@[t] == old(out)@[t],
    {
        assert(32 * d * (i + 1) <= 32 * d * k && 32 * d * i <= 32 * d * (i + 1) && 32 * d * (i
            + 1) <= 32 * 12 * 4) by (nonlinear_arith)
            requires
                i < k,
                k <= 4,
                d <= 12,
        ;
        let block = vstd::slice::slice_subrange(b, 32 * d * i, 32 * d * (i + 1));
        decode(d, block, &mut out[i]);
    }
}

/// Every coefficient of `ByteDecode_d` lies in `[0, 2^12)`, and for `d = 12`
/// in `[0, q)`.
pub proof fn lemma_decode_bounds(d: nat, b: Seq<u8>)
    requires
        1 <= d <= 12,
    ensures
        below_4096(decode_spec(d, b)),
        d == 12 ==> is_reduced(decode_spec(d, b)),
{
    vstd::arithmetic::power2::lemma2_to64();
    vstd::arithmetic::power2::lemma_pow2_pos(d);
    assert forall|i: int| 0 <= i < 256 implies 0 <= #[trigger] decode_spec(d, b)[i] < 4096 by {
        let x = crate::encoding::bits_value(crate::encoding::padded_bits(b, 3072), i * d, d) as int;
        lemma_mod_bound(x, crate::encoding::decode_modulus(d));
        if d < 12 {
            vstd::arithmetic::power2::lemma_pow2_strictly_increases(d, 12);
        }
    }
}

/// The message polynomial `Decompress_1(ByteDecode_1(m))`.
pub open spec fn message_poly(m: Seq<u8>) -> Seq<i32> {
    decompress_poly_spec(1, decode_spec(1, m))
}

/// `t_hat` as parsed from an encryption key.
pub open spec fn enc_t_hat(ek: Seq<u8>, k: nat) -> Seq<Seq<i32>> {
    decode_vec_spec(12, ek, k)
}

/// `rho` as parsed from an encryption key.
pub open spec fn enc_rho(ek: Seq<u8>, k: nat) -> Seq<u8> {
    ek.subrange(384 * k as int, 384 * k as int + 32)
}

/// `y_hat = NTT(y)`, the encryption randomness in the NTT domain.
pub open spec fn enc_y_hat(r: Seq<u8>, p: MLKEMParameters) -> Seq<Seq<i32>> {
    Seq::new(p.k as nat, |i: int| ntt_spec(noise_poly(p.eta1 as nat, r, i)))
}

/// The error vector `e1`.
pub open spec fn enc_e1(r: Seq<u8>, p: MLKEMParameters) -> Seq<Seq<i32>> {
    Seq::new(p.k as nat, |i: int| noise_poly(p.eta2 as nat, r, p.k + i))
}

/// The error polynomial `e2`.
pub open spec fn enc_e2(r: Seq<u8>, p: MLKEMParameters) -> Seq<i32> {
    noise_poly(p.eta2 as nat, r, 2 * p.k)
}

/// `u = NTT^-1(A^T y_hat) + e1`.
pub open spec fn enc_u(ek: Seq<u8>, r: Seq<u8>, p: MLKEMParameters) -> Seq<Seq<i32>> {
    let k = p.k as nat;
    Seq::new(
        k,
        |i: int|
            poly_add(
                inv_ntt_spec(dot_spec(a_t_row(enc_rho(ek, k), i, k), enc_y_hat(r, p), k as int)),
                enc_e1(r, p)[i],
            ),
    )
}

/// `v = NTT^-1(t_hat^T y_hat) + e2 + mu`.
pub open spec fn enc_v(ek: Seq<u8>, m: Seq<u8>, r: Seq<u8>, p: MLKEMParameters) -> Seq<i32> {
    let k = p.k as nat;
    poly_add(
        poly_add(
            inv_ntt_spec(dot_spec(enc_t_hat(ek, k), enc_y_hat(r, p), k as int)),
            enc_e2(r, p),
        ),
        message_poly(m),
    )
}

/// Algorithm 14 of FIPS 203, `K-PKE.Encrypt(ek, m, r)`: the ciphertext, or
/// `None` when a matrix entry cannot be sampled.
pub open spec fn pke_enc_spec(ek: Seq<u8>, m: Seq<u8>, r: Seq<u8>, p: MLKEMParameters) -> Option<
    Seq<u8>,
> {
    let k = p.k as nat;
    if matrix_ok(enc_rho(ek, k), k) {
        Some(
            encode_vec(
                p.du as nat,
                Seq::new(k, |i: int| compress_poly_spec(p.du as nat, enc_u(ek, r, p)[i])),
                k,
            ) + encode_spec(p.dv as nat, compress_poly_spec(p.dv as nat, enc_v(ek, m, r, p))),
        )
    } else {
        None
    }
}

/// Entry `(i, j)` of the matrix filled by `sample_matrix`: `A[i][j]`, or
/// `A[j][i]` when `transpose` is set.
pub open spec fn matrix_entry(rho: Seq<u8>, i: int, j: int, transpose: bool) -> Seq<i32> {
    if transpose {
        a_hat(rho, j, i)
    } else {
        a_hat(rho, i, j)
    }
}

/// Samples the leading `k x k` block of `A` (or of its transpose) from
/// `rho`.
fn sample_matrix(rho: &[u8], k: usize, transpose: bool, ntt_a: &mut [[[i32; N]; MAX_K]; MAX_K]) -> (r:
    Result<(), MlKemError>)
    requires
        k <= MAX_K,
    ensures
        r is Ok <==> matrix_ok(rho@, k as nat),
        r is Err ==> r == Err::<(), MlKemError>(MlKemError::SamplingLimit),
        r is Ok ==> forall|i: int, j: int|
            0 <= i < k && 0 <= j < k ==> #[trigger] final(ntt_a)@[i]@[j]@ == matrix_entry(
                rho@,
                i,
                j,
                transpose,
            ),
        r is Ok ==> forall|i: int| 0 <= i < k ==> vec_reduced(#[trigger] final(ntt_a)@[i]@, k as int),
{
    for i in 0..k
        invariant
            k <= MAX_K,
            !transpose ==> forall|i2: int, j2: int|
                0 <= i2 < i && 0 <= j2 < k ==> (#[trigger] sample_ntt_spec(
                    xof_input(rho@, i2 as usize, j2 as usize),
                )) is Some,
            transpose ==> forall|i2: int, j2: int|
                0 <= i2 < i && 0 <= j2 < k ==> (#[trigger] sample_ntt_spec(
                    xof_input(rho@, j2 as usize, i2 as usize),
                )) is Some,
            forall|i2: int, j2: int|
                0 <= i2 < i && 0 <= j2 < k ==> #[trigger] ntt_a@[i2]@[j2]@ == matrix_entry(
                    rho@,
                    i2,
                    j2,
                    transpose,
                ),
            forall|i2: int| 0 <= i2 < i ==> vec_reduced(#[trigger] ntt_a@[i2]@, k as int),
    {
        for j in 0..k
            invariant
                k <= MAX_K,
                i < k,
                !transpose ==> forall|i2: int, j2: int|
                    0 <= i2 < i && 0 <= j2 < k ==> (#[trigger] sample_ntt_spec(
                        xof_input(rho@, i2 as usize, j2 as usize),
                    )) is Some,
                transpose ==> forall|i2: int, j2: int|
                    0 <= i2 < i && 0 <= j2 < k ==> (#[trigger] sample_ntt_spec(
                        xof_input(rho@, j2 as usize, i2 as usize),
                    )) is Some,
                !transpose ==> forall|j2: int|
                    0 <= j2 < j ==> (#[trigger] sample_ntt_spec(
                        xof_input(rho@, i as usize, j2 as usize),
                    )) is Some,
                transpose ==> forall|j2: int|
                    0 <= j2 < j ==> (#[trigger] sample_ntt_spec(
                        xof_input(rho@, j2 as usize, i as usize),
                    )) is Some,
                forall|i2: int, j2: int|
                    0 <= i2 < i && 0 <= j2 < k ==> #[trigger] ntt_a@[i2]@[j2]@ == matrix_entry(
                        rho@,
                        i2,
                        j2,
                        transpose,
                    ),
                forall|j2: int|
                    0 <= j2 < j ==> #[trigger] ntt_a@[i as int]@[j2]@ == matrix_entry(
                        rho@,
                        i as int,
                        j2,
                        transpose,
                    ),
                forall|i2: int| 0 <= i2 < i ==> vec_reduced(#[trigger] ntt_a@[i2]@, k as int),
                vec_reduced(ntt_a@[i as int]@, j as int),
        {
            let entry = if transpose {
                sample_uniform(rho, j, i)
            } else {
                sample_uniform(rho, i, j)
            };
            match entry {
                Some(a) => {
                    ntt_a[i][j] = a;
                },
                None => {
                    if transpose {
                        assert(sample_ntt_spec(
                            xof_input(rho@, (j as int) as usize, (i as int) as usize),
                        ) is None);
                    } else {
                        assert(sample_ntt_spec(
                            xof_input(rho@, (i as int) as usize, (j as int) as usize),
                        ) is None);
                    }
                    return Err(MlKemError::SamplingLimit);
                },
            }
            if transpose {
                assert(sample_ntt_spec(xof_input(rho@, (j as int) as usize, (i as int) as usize)) is Some);
            } else {
                assert(sample_ntt_spec(xof_input(rho@, (i as int) as usize, (j as int) as usize)) is Some);
            }
        }
    }
    assert forall|a: int, b: int| 0 <= a < k && 0 <= b < k implies (#[trigger] sample_ntt_spec(
        xof_input(rho@, a as usize, b as usize),
    )) is Some by {
        if transpose {
            assert(sample_ntt_spec(xof_input(rho@, (a as int) as usize, (b as int) as usize)) is Some);
        }
    }
    Ok(())
}

/// Samples `out[i] = SamplePolyCBD_eta(PRF_eta(seed, nonce0 + i))` for
/// `i < k`; the other entries of `out` are left as they were.
fn sample_noise_vec(eta: usize, seed: &[u8], nonce0: usize, k: usize, out: &mut [[i32; N]; MAX_K])
    requires
        eta <= 3,
        k <= MAX_K,
        nonce0 <= 8,
    ensures
        forall|i: int| 0 <= i < k ==> #[trigger] final(out)@[i]@ == noise_poly(eta as nat, seed@, nonce0 + i),
        vec_reduced(final(out)@, k as int),
{
    for i in 0..k
        invariant
            eta <= 3,
            k <= MAX_K,
            nonce0 <= 8,
            forall|t: int| 0 <= t < i ==> #[trigger] out@[t]@ == noise_poly(eta as nat, seed@, nonce0 + t),
            vec_reduced(out@, i as int),
    {
        let prf_out = prf(eta, seed, (nonce0 + i) as u8);
        sample_noise(eta, prf_out.as_slice(), &mut out[i]);
    }
}

/// `out[i] = NTT(v[i])` for `i < k`.
fn ntt_vec(v: &[[i32; N]; MAX_K], k: usize, out: &mut [[i32; N]; MAX_K])
    requires
        k <= MAX_K,
        vec_reduced(v@, k as int),
    ensures
        forall|i: int| 0 <= i < k ==> #[trigger] final(out)@[i]@ == ntt_spec(v@[i]@),
        vec_reduced(final(out)@, k as int),
{
    for i in 0..k
        invariant
            k <= MAX_K,
            vec_reduced(v@, k as int),
            forall|t: int| 0 <= t < i ==> #[trigger] out@[t]@ == ntt_spec(v@[t]@),
            vec_reduced(out@, i as int),
    {
        ntt(&v[i], &mut out[i]);
    }
}

/// Algorithm 13: K-PKE key generation. Writes the encryption key to
/// `ek[..384 k + 32]` and the decryption key to `dk[..384 k]`; the rest of
/// both buffers is left as it was, and on an error nothing is written.
pub fn pke_gen(d: &[u8], p: &MLKEMParameters, ek: &mut [u8], dk: &mut [u8]) -> (r: Result<
    (),
    MlKemError,
>)
    requires
        p.wf(),
        d.len() <= 33,
        old(ek).len() >= 384 * p.k + 32,
        old(dk).len() >= 384 * p.k,
    ensures
        match pke_keygen_spec(d@, *p) {
            Some((e, s)) => {
                &&& r is Ok
                &&& final(ek)@ == e + old(ek)@.skip(384 * p.k + 32)
                &&& final(dk)@ == s + old(dk)@.skip(384 * p.k)
            },
            None => {
                &&& r == Err::<(), MlKemError>(MlKemError::SamplingLimit)
                &&& final(ek)@ == old(ek)@
                &&& final(dk)@ == old(dk)@
            },
        },
{
    let k = p.k;
    let ghost kn = k as nat;
    let mut input = [0u8; 33];
    for i in 0..d.len()
        invariant
            d.len() <= 33,
            forall|t: int| 0 <= t < i ==> #[trigger] input@[t] == d@[t],
            forall|t: int| i <= t < 33 ==> #[trigger] input@[t] == 0,
    {
        input[i] = d[i];
    }
    input[32] = k as u8;
    assert(input@ =~= keygen_seed(d@, kn));
    let (rho, sigma) = expand(&input);
    let ghost rho_s = keygen_rho(d@, kn);
    let ghost sigma_s = keygen_sigma(d@, kn);
    assert(rho@ == rho_s && sigma@ == sigma_s);

    // Sample matrix A
    let mut ntt_a = [[[0i32; 256]; MAX_K]; MAX_K];
    sample_matrix(&rho, k, false, &mut ntt_a)?;

    // Sample secret and error vectors
    let mut s = [[0i32; 256]; MAX_K];
    let mut e = [[0i32; 256]; MAX_K];
    sample_noise_vec(p.eta1, &sigma, 0, k, &mut s);
    sample_noise_vec(p.eta1, &sigma, k, k, &mut e);

    // Convert to NTT domain
    let mut ntt_s = [[0i32; 256]; MAX_K];
    let mut ntt_e = [[0i32; 256]; MAX_K];
    ntt_vec(&s, k, &mut ntt_s);
    ntt_vec(&e, k, &mut ntt_e);
    let ghost s_hat = keygen_s_hat(d@, *p);
    let ghost e_hat = keygen_e_hat(d@, *p);
    assert forall|t: int| 0 <= t < k implies #[trigger] ntt_s@[t]@ == s_hat[t] && ntt_e@[t]@
        == e_hat[t] by {}

    // Compute ntt_t = A * ntt_s + ntt_e
    let mut ntt_t = [[0i32; 256]; MAX_K];
    let mut temp = [[0i32; 256]; MAX_K];
    mat_vec(&ntt_a, &ntt_s, k, &mut temp);
    vadd(&temp, &ntt_e, k, &mut ntt_t);
    let ghost t_hat = keygen_t_hat(d@, *p);
    assert forall|t: int| 0 <= t < k implies #[trigger] ntt_t@[t]@ == t_hat[t] by {
        lemma_dot_spec_ext(polys(ntt_a@[t]@), polys(ntt_s@), a_row(rho_s, t, kn), s_hat, k as int);
    }

    // Encode public key
    let ghost ek0 = ek@;
    encode_vec_into(12, &ntt_t, k, ek, 0);
    copy_into(ek, 384 * k, &rho);
    // Encode secret key
    encode_vec_into(12, &ntt_s, k, dk, 0);
    proof {
        assert(encode_vec(12, polys(ntt_t@), kn) =~= encode_vec(12, t_hat, kn));
        assert(encode_vec(12, polys(ntt_s@), kn) =~= encode_vec(12, s_hat, kn));
        assert(ek@ =~= encode_vec(12, t_hat, kn) + rho_s + ek0.skip(384 * k + 32));
        assert(dk@ =~= encode_vec(12, s_hat, kn) + old(dk)@.skip(384 * k));
    }
    Ok(())
}

/// `out[i] = NTT^-1(v[i]) + e[i]` for `i < k`.
fn inv_ntt_add_vec(v: &[[i32; N]; MAX_K], e: &[[i32; N]; MAX_K], k: usize, out: &mut [[i32; N]; MAX_K])
    requires
        k <= MAX_K,
        vec_reduced(v@, k as int),
        vec_reduced(e@, k as int),
    ensures
        forall|i: int| 0 <= i < k ==> #[trigger] final(out)@[i]@ == poly_add(inv_ntt_spec(v@[i]@), e@[i]@),
        vec_reduced(final(out)@, k as int),
{
    for i in 0..k
        invariant
            k <= MAX_K,
            vec_reduced(v@, k as int),
            vec_reduced(e@, k as int),
            forall|t: int| 0 <= t < i ==> #[trigger] out@[t]@ == poly_add(inv_ntt_spec(v@[t]@), e@[t]@),
            vec_reduced(out@, i as int),
    {
        let mut temp = [0i32; 256];
        inv_ntt(&v[i], &mut temp);
        padd(&temp, &e[i], &mut out[i]);
    }
}

/// `out[i] = Compress_d(v[i])` for `i < k`.
fn compress_vec(d: usize, v: &[[i32; N]; MAX_K], k: usize, out: &mut [[i32; N]; MAX_K])
    requires
        1 <= d <= 12,
        k <= MAX_K,
        vec_reduced(v@, k as int),
    ensures
        forall|i: int| 0 <= i < k ==> #[trigger] final(out)@[i]@ == compress_poly_spec(d as nat, v@[i]@),
        forall|i: int| 0 <= i < k ==> crate::encoding::nonneg_coeffs(#[trigger] final(out)@[i]@),
{
    for i in 0..k
        invariant
            1 <= d <= 12,
            k <= MAX_K,
            vec_reduced(v@, k as int),
            forall|t: int| 0 <= t < i ==> #[trigger] out@[t]@ == compress_poly_spec(d as nat, v@[t]@),
            forall|t: int| 0 <= t < i ==> crate::encoding::nonneg_coeffs(#[trigger] out@[t]@),
    {
        out[i] = compress_poly(d, &v[i]);
    }
}

/// Algorithm 14: K-PKE encryption. Writes the ciphertext to
/// `c[..ciphertext_length]`; the rest of `c` is left as it was, and on an
/// error nothing is written.
pub fn pke_enc(ek: &[u8], m: &[u8], r: &[u8], p: &MLKEMParameters, c: &mut [u8]) -> (res: Result<
    (),
    MlKemError,
>)
    requires
        p.wf(),
        ek.len() >= 384 * p.k + 32,
        old(c).len() >= p.ciphertext_length,
    ensures
        match pke_enc_spec(ek@, m@, r@, *p) {
            Some(ct) => {
                &&& res is Ok
                &&& final(c)@ == ct + old(c)@.skip(p.ciphertext_length as int)
            },
            None => {
                &&& res == Err::<(), MlKemError>(MlKemError::SamplingLimit)
                &&& final(c)@ == old(c)@
            },
        },
{
    let k = p.k;
    let ghost kn = k as nat;
    // Parse public key
    let mut ntt_t = [[0i32; 256]; MAX_K];
    decode_vec(12, ek, k, &mut ntt_t);
    let rho = vstd::slice::slice_subrange(ek, 384 * k, 384 * k + 32);
    let ghost rho_s = enc_rho(ek@, kn);
    assert(rho@ == rho_s);
    assert forall|i: int| 0 <= i < k implies is_reduced(#[trigger] ntt_t@[i]@) by {
        lemma_decode_bounds(12, ek@.subrange(32 * 12 * i, 32 * 12 * (i + 1)));
    }

    // Sample matrix A^T
    let mut ntt_a = [[[0i32; 256]; MAX_K]; MAX_K];
    sample_matrix(rho, k, true, &mut ntt_a)?;

    // Sample vectors
    let mut y = [[0i32; 256]; MAX_K];
    let mut e1 = [[0i32; 256]; MAX_K];
    sample_noise_vec(p.eta1, r, 0, k, &mut y);
    sample_noise_vec(p.eta2, r, k, k, &mut e1);
    let mut e2 = [0i32; 256];
    let prf_out = prf(p.eta2, r, (2 * k) as u8);
    sample_noise(p.eta2, prf_out.as_slice(), &mut e2);

    // Convert y to NTT domain
    let mut ntt_y = [[0i32; 256]; MAX_K];
    ntt_vec(&y, k, &mut ntt_y);
    let ghost y_hat = enc_y_hat(r@, *p);
    assert forall|t: int| 0 <= t < k implies #[trigger] polys(ntt_y@)[t] == y_hat[t] by {}

    // Compute u = NTT^-1(A^T * ntt_y) + e1
    let mut u_temp = [[0i32; 256]; MAX_K];
    mat_vec(&ntt_a, &ntt_y, k, &mut u_temp);
    let mut u = [[0i32; 256]; MAX_K];
    inv_ntt_add_vec(&u_temp, &e1, k, &mut u);
    let ghost u_s = enc_u(ek@, r@, *p);
    assert forall|t: int| 0 <= t < k implies #[trigger] u@[t]@ == u_s[t] by {
        lemma_dot_spec_ext(polys(ntt_a@[t]@), polys(ntt_y@), a_t_row(rho_s, t, kn), y_hat, k as int);
    }

    // Decode and decompress message
    let mut mu_bits = [0i32; 256];
    decode(1, m, &mut mu_bits);
    proof {
        lemma_decode_bounds(1, m@);
    }
    let mu = decompress_poly(1, &mu_bits);

    // Compute v = NTT^-1(ntt_t^T * ntt_y) + e2 + mu
    let mut dot_result = [0i32; 256];
    dot(&ntt_t, &ntt_y, k, &mut dot_result);
    let mut inv_result = [0i32; 256];
    inv_ntt(&dot_result, &mut inv_result);
    let mut temp = [0i32; 256];
    padd(&inv_result, &e2, &mut temp);
    let mut v = [0i32; 256];
    padd(&temp, &mu, &mut v);
    proof {
        assert forall|t: int| 0 <= t < k implies #[trigger] polys(ntt_t@)[t] == enc_t_hat(
            ek@,
            kn,
        )[t] by {}
        lemma_dot_spec_ext(polys(ntt_t@), polys(ntt_y@), enc_t_hat(ek@, kn), y_hat, k as int);
        assert(v@ == enc_v(ek@, m@, r@, *p));
    }

    // Compress and encode ciphertext
    let mut compressed_u = [[0i32; 256]; MAX_K];
    compress_vec(p.du, &u, k, &mut compressed_u);
    let ghost c0 = c@;
    assert(32 * p.du * k + 32 * p.dv == p.ciphertext_length) by (nonlinear_arith)
        requires
            p.ciphertext_length == 32 * (p.du * p.k + p.dv),
            k == p.k,
    ;
    assert(k * (32 * p.du) == 32 * p.du * k) by (nonlinear_arith);
    encode_vec_into(p.du, &compressed_u, k, c, 0);
    let compressed_v = compress_poly(p.dv, &v);
    let offset = 32 * p.du * k;
    let mut buf = [0u8; 384];
    encode(p.dv, &compressed_v, &mut buf);
    let chunk = vstd::slice::slice_subrange(buf.as_slice(), 0, 32 * p.dv);
    copy_into(c, offset, chunk);
    proof {
        let cu = Seq::new(kn, |i: int| compress_poly_spec(p.du as nat, u_s[i]));
        lemma_encode_vec_ext(p.du as nat, polys(compressed_u@), cu, kn);
        assert(chunk@ =~= encode_spec(p.dv as nat, compress_poly_spec(p.dv as nat, enc_v(ek@, m@, r@, *p))));
        assert(c@ =~= encode_vec(p.du as nat, cu, kn) + chunk@ + c0.skip(p.ciphertext_length as int));
    }
    Ok(())
}

/// `u`, decompressed from the first part of a ciphertext.
pub open spec fn dec_u(c: Seq<u8>, p: MLKEMParameters) -> Seq<Seq<i32>> {
    Seq::new(
        p.k as nat,
        |i: int| decompress_poly_spec(p.du as nat, decode_vec_spec(p.du as nat, c, p.k as nat)[i]),
    )
}

/// `v`, decompressed from the rest of a ciphertext.
pub open spec fn dec_v(c: Seq<u8>, p: MLKEMParameters) -> Seq<i32> {
    decompress_poly_spec(p.dv as nat, decode_spec(p.dv as nat, c.skip(32 * p.du * p.k)))
}

/// `w = v - NTT^-1(s_hat^T NTT(u))`.
pub open spec fn dec_w(dk: Seq<u8>, c: Seq<u8>, p: MLKEMParameters) -> Seq<i32> {
    let k = p.k as nat;
    poly_sub(
        dec_v(c, p),
        inv_ntt_spec(
            dot_spec(
                decode_vec_spec(12, dk, k),
                Seq::new(k, |i: int| ntt_spec(dec_u(c, p)[i])),
                k as int,
            ),
        ),
    )
}

/// Algorithm 15 of FIPS 203, `K-PKE.Decrypt(dk, c)`: the 32-byte message.
pub open spec fn pke_dec_spec(dk: Seq<u8>, c: Seq<u8>, p: MLKEMParameters) -> Seq<u8> {
    encode_spec(1, compress_poly_spec(1, dec_w(dk, c, p)))
}

/// Algorithm 15: K-PKE decryption. Writes `min(m.len(), 32)` bytes of the
/// message to `m` and leaves the rest of `m` as it was.
pub fn pke_dec(dk: &[u8], c: &[u8], p: &MLKEMParameters, m: &mut [u8])
    requires
        p.wf(),
        dk.len() >= 384 * p.k,
        c.len() >= 32 * p.du * p.k,
    ensures
        ({
            let n = if old(m).len() < 32 {
                old(m).len() as int
            } else {
                32
            };
            final(m)@ == pke_dec_spec(dk@, c@, *p).take(n) + old(m)@.skip(n)
        }),
{
    let k = p.k;
    let ghost kn = k as nat;
    assert(32 * 12 * k <= dk.len() && 32 * p.du * k <= 32 * 12 * 4) by (nonlinear_arith)
        requires
            dk.len() >= 384 * k,
            p.du <= 12,
            k <= 4,
    ;

    // Decode and decompress u
    let mut decoded_u = [[0i32; 256]; MAX_K];
    decode_vec(p.du, c, k, &mut decoded_u);
    let mut u = [[0i32; 256]; MAX_K];
    for i in 0..k
        invariant
            k == p.k,
            p.wf(),
            kn == k as nat,
            forall|t: int| 0 <= t < k ==> #[trigger] decoded_u@[t]@ == decode_vec_spec(p.du as nat, c@, kn)[t],
            forall|t: int| 0 <= t < i ==> #[trigger] u@[t]@ == dec_u(c@, *p)[t],
            vec_reduced(u@, i as int),
    {
        proof {
            let blk = c@.subrange(32 * (p.du as nat) * (i as int), 32 * (p.du as nat) * (i + 1));
            assert(decoded_u@[i as int]@ == decode_spec(p.du as nat, blk));
            lemma_decode_bounds(p.du as nat, blk);
        }
        u[i] = decompress_poly(p.du, &decoded_u[i]);
    }

    // Decode and decompress v
    let c1_len = 32 * p.du * k;
    let c2 = vstd::slice::slice_subrange(c, c1_len, c.len());
    assert(c2@ =~= c@.skip(32 * p.du * p.k));
    let mut decoded_v = [0i32; 256];
    decode(p.dv, c2, &mut decoded_v);
    proof {
        lemma_decode_bounds(p.dv as nat, c2@);
    }
    let v = decompress_poly(p.dv, &decoded_v);

    // Parse secret key
    let mut ntt_s = [[0i32; 256]; MAX_K];
    decode_vec(12, dk, k, &mut ntt_s);
    assert forall|i: int| 0 <= i < k implies is_reduced(#[trigger] ntt_s@[i]@) by {
        let blk = dk@.subrange(32 * 12nat * i, 32 * 12nat * (i + 1));
        assert(ntt_s@[i]@ == decode_spec(12, blk));
        lemma_decode_bounds(12, blk);
    }

    // Convert u to NTT domain
    let mut u_hat = [[0i32; 256]; MAX_K];
    ntt_vec(&u, k, &mut u_hat);

    // Compute w = v - NTT^-1(ntt_s^T * u_hat)
    let mut dot_result = [0i32; 256];
    dot(&ntt_s, &u_hat, k, &mut dot_result);
    let mut inv_result = [0i32; 256];
    inv_ntt(&dot_result, &mut inv_result);
    let mut w = [0i32; 256];
    psub(&v, &inv_result, &mut w);
    proof {
        lemma_dot_spec_ext(
            polys(ntt_s@),
            polys(u_hat@),
            decode_vec_spec(12, dk@, kn),
            Seq::new(kn, |i: int| ntt_spec(dec_u(c@, *p)[i])),
            k as int,
        );
        assert(w@ == dec_w(dk@, c@, *p));
    }

    // Compress and encode message
    let compressed = compress_poly(1, &w);
    encode(1, &compressed, m);
}

/// The encryption key of `K-PKE.KeyGen(d)`: `ByteEncode_12(t_hat) || rho`.
pub open spec fn keygen_ek(d: Seq<u8>, p: MLKEMParameters) -> Seq<u8> {
    encode_vec(12, keygen_t_hat(d, p), p.k as nat) + keygen_rho(d, p.k as nat)
}

/// A polynomial as decryption recovers it from its compressed, encoded form:
/// `Decompress_d(ByteDecode_d(ByteEncode_d(Compress_d(f))))`.
pub open spec fn transmitted(d: nat, f: Seq<i32>) -> Seq<i32> {
    decompress_poly_spec(d, decode_spec(d, encode_spec(d, compress_poly_spec(d, f))))
}

/// The secret vector `s` of `K-PKE.KeyGen(d)`.
pub open spec fn keygen_s(d: Seq<u8>, p: MLKEMParameters) -> Seq<Seq<i32>> {
    Seq::new(p.k as nat, |i: int| noise_poly(p.eta1 as nat, keygen_sigma(d, p.k as nat), i))
}

/// The error vector `e` of `K-PKE.KeyGen(d)`.
pub open spec fn keygen_e(d: Seq<u8>, p: MLKEMParameters) -> Seq<Seq<i32>> {
    Seq::new(
        p.k as nat,
        |i: int| noise_poly(p.eta1 as nat, keygen_sigma(d, p.k as nat), p.k + i),
    )
}

/// The randomness vector `y` of encryption with randomness `r`.
pub open spec fn enc_y(r: Seq<u8>, p: MLKEMParameters) -> Seq<Seq<i32>> {
    Seq::new(p.k as nat, |i: int| noise_poly(p.eta1 as nat, r, i))
}

/// `e1 + (u' - u)`: the error vector `e1` of encryption under the key of
/// `K-PKE.KeyGen(d)`, plus the rounding error of transmitting `u`.
pub open spec fn noise_u(d: Seq<u8>, r: Seq<u8>, p: MLKEMParameters) -> Seq<Seq<i32>> {
    let u = enc_u(keygen_ek(d, p), r, p);
    Seq::new(
        p.k as nat,
        |j: int| poly_add(enc_e1(r, p)[j], poly_sub(transmitted(p.du as nat, u[j]), u[j])),
    )
}

/// `v' - v`: the rounding error of transmitting `v`.
pub open spec fn noise_v(d: Seq<u8>, m: Seq<u8>, r: Seq<u8>, p: MLKEMParameters) -> Seq<i32> {
    let v = enc_v(keygen_ek(d, p), m, r, p);
    poly_sub(transmitted(p.dv as nat, v), v)
}

/// The decryption noise of encrypting `m` with randomness `r` under the key
/// pair of `K-PKE.KeyGen(d)`, in `Z_q[X]/(X^256 + 1)`:
/// `e^T y + e2 + (v' - v) - s^T (e1 + (u' - u))`, where `u'` and `v'` are
/// `u` and `v` as transmitted.
pub open spec fn pke_noise(d: Seq<u8>, m: Seq<u8>, r: Seq<u8>, p: MLKEMParameters) -> Seq<i32> {
    let k = p.k as int;
    poly_sub(
        poly_add(
            poly_add(ring_dot(keygen_e(d, p), enc_y(r, p), k), enc_e2(r, p)),
            noise_v(d, m, r, p),
        ),
        ring_dot(keygen_s(d, p), noise_u(d, r, p), k),
    )
}

/// The decryption noise computed in the NTT domain, as decryption does.
pub open spec fn pke_noise_ntt(d: Seq<u8>, m: Seq<u8>, r: Seq<u8>, p: MLKEMParameters) -> Seq<i32> {
    let k = p.k as int;
    let nu = noise_u(d, r, p);
    poly_sub(
        poly_add(
            poly_add(inv_ntt_spec(dot_spec(keygen_e_hat(d, p), enc_y_hat(r, p), k)), enc_e2(r, p)),
            noise_v(d, m, r, p),
        ),
        inv_ntt_spec(
            dot_spec(keygen_s_hat(d, p), Seq::new(p.k as nat, |j: int| ntt_spec(nu[j])), k),
        ),
    )
}

/// A ciphertext has `ciphertext_length` bytes.
pub proof fn lemma_pke_enc_len(ek: Seq<u8>, m: Seq<u8>, r: Seq<u8>, p: MLKEMParameters)
    requires
        p.wf(),
        pke_enc_spec(ek, m, r, p) is Some,
    ensures
        (pke_enc_spec(ek, m, r, p)->0).len() == p.ciphertext_length,
{
    let k = p.k as nat;
    let du = p.du as nat;
    let dv = p.dv as nat;
    let cu = Seq::new(k, |i: int| compress_poly_spec(du, enc_u(ek, r, p)[i]));
    assert(encode_vec(du, cu, k).len() == k * (32 * du));
    assert((256 * dv + 7) / 8 == 32 * dv) by {
        lemma_fundamental_div_mod_converse((256 * dv + 7) as int, 8, 32 * dv as int, 7);
    }
    assert(encode_spec(dv, compress_poly_spec(dv, enc_v(ek, m, r, p))).len() == 32 * dv);
    assert(k * (32 * du) + 32 * dv == p.ciphertext_length) by (nonlinear_arith)
        requires
            p.ciphertext_length == 32 * (p.du * p.k + p.dv),
            k == p.k,
            du == p.du,
            dv == p.dv,
    ;
}

} // verus!
