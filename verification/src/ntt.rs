//! The number-theoretic transform (Algorithms 9 and 10 of FIPS 203), its
//! inverse, and multiplication, dot products and matrix products in the NTT
//! domain.
use crate::arith::{
    bitrev7, lemma_bitrev_pair, lemma_root_pow_product, modq, modq64, root_pow, zeta, zeta2, Q,
};
use crate::poly::{
    add_fits, is_reduced, padd, poly_add, poly_zero, vec_reduced, MAX_K, N,
};
use crate::algebra::{lemma_cong_add, lemma_cong_mod, lemma_cong_mul, lemma_cong_sub};
use vstd::arithmetic::div_mod::*;
use vstd::arithmetic::mul::*;
use vstd::arithmetic::power2::*;
use vstd::prelude::*;

verus! {

/// `gamma_i = zeta^(2 BitRev7(i) + 1)`, the root of the i-th quadratic factor.
pub open spec fn gamma(i: int) -> int {
    root_pow((2 * bitrev7(i as usize) + 1) as nat)
}

/// Multiplication of two polynomials in the NTT domain: 128 products in
/// `Z_q[X]/(X^2 - gamma_i)`.
pub open spec fn base_mul(f: Seq<i32>, g: Seq<i32>) -> Seq<i32> {
    Seq::new(
        256,
        |idx: int|
            {
                let i = idx / 2;
                let a0 = f[2 * i];
                let a1 = f[2 * i + 1];
                let b0 = g[2 * i];
                let b1 = g[2 * i + 1];
                if idx % 2 == 0 {
                    ((a0 * b0 + a1 * b1 * gamma(i)) % 3329) as i32
                } else {
                    ((a0 * b1 + a1 * b0) % 3329) as i32
                }
            },
    )
}

/// Algorithm 11: multiplication in the NTT domain.
pub fn mul_ntt(ntt_f: &[i32; N], ntt_g: &[i32; N], out: &mut [i32; N])
    requires
        is_reduced(ntt_f@),
        is_reduced(ntt_g@),
    ensures
        final(out)@ == base_mul(ntt_f@, ntt_g@),
        is_reduced(final(out)@),
{
    for i in 0..(N / 2)
        invariant
            is_reduced(ntt_f@),
            is_reduced(ntt_g@),
            forall|j: int| 0 <= j < 2 * i ==> out@[j] == base_mul(ntt_f@, ntt_g@)[j],
            forall|j: int| 0 <= j < 2 * i ==> 0 <= #[trigger] out@[j] < 3329,
    {
        let a0 = ntt_f[2 * i] as i64;
        let a1 = ntt_f[2 * i + 1] as i64;
        let b0 = ntt_g[2 * i] as i64;
        let b1 = ntt_g[2 * i + 1] as i64;
        let gamma = zeta2(i) as i64;
        assert(0 <= a1 * b1 <= 3328 * 3328) by (nonlinear_arith)
            requires
                0 <= a1 < 3329,
                0 <= b1 < 3329,
        ;
        assert(0 <= a1 * b1 * gamma <= 3328 * 3328 * 3328) by (nonlinear_arith)
            requires
                0 <= a1 * b1 <= 3328 * 3328,
                0 <= gamma < 3329,
        ;
        assert(0 <= a0 * b0 <= 3328 * 3328) by (nonlinear_arith)
            requires
                0 <= a0 < 3329,
                0 <= b0 < 3329,
        ;
        assert(0 <= a0 * b1 <= 3328 * 3328) by (nonlinear_arith)
            requires
                0 <= a0 < 3329,
                0 <= b1 < 3329,
        ;
        assert(0 <= a1 * b0 <= 3328 * 3328) by (nonlinear_arith)
            requires
                0 <= a1 < 3329,
                0 <= b0 < 3329,
        ;
        let c0 = modq64(a0 * b0 + a1 * b1 * gamma, Q);
        let c1 = modq64(a0 * b1 + a1 * b0, Q);

        out[2 * i] = c0;
        out[2 * i + 1] = c1;
        assert((2 * i) as int / 2 == i && (2 * i + 1) as int / 2 == i);
    }
    assert(out@ =~= base_mul(ntt_f@, ntt_g@));
}

/// `sum_{j < n} u_j * v_j` in the NTT domain.
pub open spec fn dot_spec(u: Seq<Seq<i32>>, v: Seq<Seq<i32>>, n: int) -> Seq<i32>
    decreases n,
{
    if n <= 0 {
        poly_zero()
    } else {
        poly_add(dot_spec(u, v, n - 1), base_mul(u[n - 1], v[n - 1]))
    }
}

/// `dot_spec` reads only the first `n` entries of its vectors.
pub proof fn lemma_dot_spec_ext(u1: Seq<Seq<i32>>, v1: Seq<Seq<i32>>, u2: Seq<Seq<i32>>, v2: Seq<Seq<i32>>, n: int)
    requires
        forall|j: int| 0 <= j < n ==> u1[j] == u2[j] && v1[j] == v2[j],
    ensures
        dot_spec(u1, v1, n) == dot_spec(u2, v2, n),
    decreases n,
{
    if n > 0 {
        lemma_dot_spec_ext(u1, v1, u2, v2, n - 1);
    }
}

/// The coefficient sequences of a vector of polynomials.
pub open spec fn polys(v: Seq<[i32; 256]>) -> Seq<Seq<i32>> {
    v.map_values(|a: [i32; 256]| a@)
}

/// Dot product of the first `k` entries of two vectors in the NTT domain.
pub fn dot(u: &[[i32; N]; MAX_K], v: &[[i32; N]; MAX_K], k: usize, out: &mut [i32; N])
    requires
        k <= MAX_K,
        vec_reduced(u@, k as int),
        vec_reduced(v@, k as int),
    ensures
        final(out)@ == dot_spec(polys(u@), polys(v@), k as int),
        is_reduced(final(out)@),
{
    let mut acc = [0i32; N];
    assert(acc@ =~= poly_zero());
    for i in 0..k
        invariant
            k <= MAX_K,
            vec_reduced(u@, k as int),
            vec_reduced(v@, k as int),
            acc@ == dot_spec(polys(u@), polys(v@), i as int),
            is_reduced(acc@),
    {
        let mut prod = [0i32; N];
        mul_ntt(&u[i], &v[i], &mut prod);
        let mut temp = [0i32; N];
        padd(&acc, &prod, &mut temp);
        acc = temp;
    }
    *out = acc;
}

/// `(A s)_i = sum_{j < k} A_ij * s_j` for `i < k`, in the NTT domain.
pub open spec fn mat_vec_row(a: Seq<[[i32; 256]; 4]>, s: Seq<[i32; 256]>, i: int, k: int) -> Seq<
    i32,
> {
    dot_spec(polys(a[i]@), polys(s), k)
}

/// Matrix-vector product of the leading `k x k` block; rows `k..` of `out`
/// are left as they were.
pub fn mat_vec(
    a: &[[[i32; N]; MAX_K]; MAX_K],
    s: &[[i32; N]; MAX_K],
    k: usize,
    out: &mut [[i32; N]; MAX_K],
)
    requires
        k <= MAX_K,
        forall|i: int| 0 <= i < k ==> vec_reduced(#[trigger] a@[i]@, k as int),
        vec_reduced(s@, k as int),
    ensures
        forall|i: int| 0 <= i < k ==> #[trigger] final(out)@[i]@ == mat_vec_row(a@, s@, i, k as int),
        forall|i: int| k <= i < MAX_K ==> #[trigger] final(out)@[i] == old(out)@[i],
        vec_reduced(final(out)@, k as int),
{
    for i in 0..k
        invariant
            k <= MAX_K,
            forall|i: int| 0 <= i < k ==> vec_reduced(#[trigger] a@[i]@, k as int),
            vec_reduced(s@, k as int),
            forall|r: int| 0 <= r < i ==> #[trigger] out@[r]@ == mat_vec_row(a@, s@, r, k as int),
            forall|r: int| i <= r < MAX_K ==> #[trigger] out@[r] == old(out)@[r],
            vec_reduced(out@, i as int),
    {
        let mut acc = [0i32; N];
        assert(acc@ =~= poly_zero());
        for j in 0..k
            invariant
                k <= MAX_K,
                i < k,
                forall|i: int| 0 <= i < k ==> vec_reduced(#[trigger] a@[i]@, k as int),
                vec_reduced(s@, k as int),
                acc@ == dot_spec(polys(a@[i as int]@), polys(s@), j as int),
                is_reduced(acc@),
        {
            let mut prod = [0i32; N];
            mul_ntt(&a[i][j], &s[j], &mut prod);
            let mut temp = [0i32; N];
            padd(&acc, &prod, &mut temp);
            acc = temp;
        }
        out[i] = acc;
    }
}

/// `zeta^BitRev7(k) mod q`.
pub open spec fn zeta_k(k: int) -> int {
    root_pow(bitrev7(k as usize) as nat)
}

/// Every coefficient has magnitude below `2^30`, so that one butterfly
/// cannot overflow an `i32`.
pub open spec fn small_coeffs(f: Seq<i32>) -> bool {
    &&& f.len() == 256
    &&& forall|i: int| 0 <= i < 256 ==> -0x3fff_ffff <= #[trigger] f[i] <= 0x3fff_ffff
}

/// One layer of the forward NTT: Cooley-Tukey butterflies on blocks of
/// `2 len` coefficients, block `b` using `zeta_k(k0 + b)`.
pub open spec fn ntt_layer(f: Seq<i32>, len: int, k0: int) -> Seq<i32> {
    Seq::new(
        256,
        |x: int|
            {
                let z = zeta_k(k0 + x / (2 * len));
                if x % (2 * len) < len {
                    ((f[x] + z * f[x + len]) % 3329) as i32
                } else {
                    ((f[x - len] - z * f[x]) % 3329) as i32
                }
            },
    )
}

/// The first `s` layers of the forward NTT: layer `l` has half-length
/// `2^(7 - l)` and starts at `zeta_k(2^l)`.
pub open spec fn ntt_layers(f: Seq<i32>, s: nat) -> Seq<i32>
    decreases s,
{
    if s == 0 {
        f
    } else {
        ntt_layer(
            ntt_layers(f, (s - 1) as nat),
            pow2((8 - s) as nat) as int,
            pow2((s - 1) as nat) as int,
        )
    }
}

/// Algorithm 9 of FIPS 203: the number-theoretic transform.
pub open spec fn ntt_spec(f: Seq<i32>) -> Seq<i32> {
    ntt_layers(f, 7)
}

/// Places block `b` of a layer of half-length `len` inside `[0, 256)`.
proof fn lemma_block_index(x: int, start: int, len: int, b: int)
    requires
        len > 0,
        start == 2 * len * b,
        start <= x < start + 2 * len,
    ensures
        x / (2 * len) == b,
        x % (2 * len) == x - start,
{
    assert(x == b * (2 * len) + (x - start)) by (nonlinear_arith)
        requires
            start == 2 * len * b,
    ;
    lemma_fundamental_div_mod_converse(x, 2 * len, b, x - start);
}

/// Algorithm 9: forward NTT.
pub fn ntt(f: &[i32; N], out: &mut [i32; N])
    requires
        small_coeffs(f@),
    ensures
        final(out)@ == ntt_spec(f@),
        is_reduced(final(out)@),
{
    *out = *f;
    let mut k: usize = 1;
    let mut length: usize = 128;
    let ghost mut l: nat = 0;
    proof {
        lemma2_to64();
    }
    while length >= 2
        invariant
            l <= 7,
            length == pow2((7 - l) as nat),
            l < 7 ==> 2 <= length <= 128 && k <= 64,
            l == 7 ==> length == 1,
            k == pow2(l),
            2 * length * k == 256,
            out@ == ntt_layers(f@, l),
            small_coeffs(out@),
            l > 0 ==> is_reduced(out@),
        decreases length,
    {
        let ghost prev = out@;
        let ghost k0 = k as int;
        let ghost layer = ntt_layer(prev, length as int, k0);
        let mut start: usize = 0;
        let ghost mut b: int = 0;
        while start < N
            invariant
                l < 7,
                2 <= length <= 128,
                2 * length * k0 == 256,
                start == 2 * length * b,
                start <= 256,
                0 <= b <= k0,
                k == k0 + b,
                k0 <= 64,
                small_coeffs(prev),
                layer == ntt_layer(prev, length as int, k0),
                out@.len() == 256,
                forall|x: int|
                    0 <= x < 256 ==> #[trigger] out@[x] == if x < start {
                        layer[x]
                    } else {
                        prev[x]
                    },
                forall|x: int| 0 <= x < start ==> 0 <= #[trigger] out@[x] < 3329,
            decreases N - start,
        {
            assert(b < k0 && start + 2 * length <= 256) by (nonlinear_arith)
                requires
                    start == 2 * length * b,
                    2 * length * k0 == 256,
                    start < 256,
                    length > 0,
            ;
            let z = zeta(k);
            k += 1;
            for j in start..start + length
                invariant
                    2 <= length <= 128,
                    start == 2 * length * b,
                    start + 2 * length <= 256,
                    z as int == zeta_k(k0 + b),
                    0 <= z < 3329,
                    small_coeffs(prev),
                    layer == ntt_layer(prev, length as int, k0),
                    out@.len() == 256,
                    forall|x: int|
                        0 <= x < 256 ==> #[trigger] out@[x] == if x < j || (start + length <= x
                            < j + length) {
                            layer[x]
                        } else {
                            prev[x]
                        },
                    forall|x: int|
                        0 <= x < 256 && (x < j || (start + length <= x < j + length)) ==> 0
                            <= #[trigger] out@[x] < 3329,
            {
                assert(out@[j + length] == prev[j + length]);
                assert(out@[j as int] == prev[j as int]);
                assert(-0x3fff_ffff * 3329 <= (z as i64) * (out[j + length] as i64) <= 0x3fff_ffff
                    * 3329) by (nonlinear_arith)
                    requires
                        0 <= z < 3329,
                        -0x3fff_ffff <= out[j + length] <= 0x3fff_ffff,
                ;
                proof {
                    lemma_block_index(j as int, start as int, length as int, b);
                    lemma_block_index(j + length, start as int, length as int, b);
                    lemma_sub_mod_noop_right(prev[j as int] as int, z * prev[j + length], 3329);
                    lemma_add_mod_noop_right(prev[j as int] as int, z * prev[j + length], 3329);
                }
                let t = modq64((z as i64) * (out[j + length] as i64), Q);
                out[j + length] = modq(out[j] - t, Q);
                out[j] = modq(out[j] + t, Q);
                proof {
                    let zz = zeta_k(k0 + b);
                    let pj = prev[j as int] as int;
                    let pl = prev[j + length] as int;
                    assert(t as int == (zz * pl) % 3329);
                    assert(out@[j as int] as int == (pj + (zz * pl) % 3329) % 3329);
                    assert(out@[j as int] as int == (pj + zz * pl) % 3329);
                    assert((j as int) % (2 * length as int) < length);
                    assert(zeta_k(k0 + (j as int) / (2 * length as int)) == zz);
                    assert(layer[j as int] == ((pj + zz * pl) % 3329) as i32);
                    assert(out@[j as int] == layer[j as int]);
                    assert(out@[j + length] == layer[j + length]);
                }
            }
            assert(start + 2 * length == 2 * length * (b + 1)) by (nonlinear_arith)
                requires
                    start == 2 * length * b,
            ;
            start += 2 * length;
            proof {
                b = b + 1;
            }
        }
        assert(out@ =~= layer);
        assert(b == k0) by (nonlinear_arith)
            requires
                2 * length * b == 256,
                2 * length * k0 == 256,
                length > 0,
        ;
        assert(length % 2 == 0) by {
            lemma2_to64();
        }
        length /= 2;
        assert(2 * length * k == 256) by (nonlinear_arith)
            requires
                k == 2 * k0,
                2 * (2 * length) * k0 == 256,
        ;
        proof {
            lemma2_to64();
            l = l + 1;
        }
    }
}

/// One layer of the inverse NTT: Gentleman-Sande butterflies on blocks of
/// `2 len` coefficients, block `b` using `zeta_k(k0 - b)`.
pub open spec fn inv_ntt_layer(f: Seq<i32>, len: int, k0: int) -> Seq<i32> {
    Seq::new(
        256,
        |x: int|
            {
                let z = zeta_k(k0 - x / (2 * len));
                if x % (2 * len) < len {
                    ((f[x] + f[x + len]) % 3329) as i32
                } else {
                    ((z * (f[x] - f[x - len])) % 3329) as i32
                }
            },
    )
}

/// The first `s` layers of the inverse NTT: layer `l` has half-length
/// `2^(l + 1)` and starts at `zeta_k(2^(7 - l) - 1)`.
pub open spec fn inv_ntt_layers(f: Seq<i32>, s: nat) -> Seq<i32>
    decreases s,
{
    if s == 0 {
        f
    } else {
        inv_ntt_layer(
            inv_ntt_layers(f, (s - 1) as nat),
            pow2(s) as int,
            pow2((8 - s) as nat) - 1,
        )
    }
}

/// `128^(-1) mod q`.
pub open spec fn inv_128() -> int {
    3303
}

/// Algorithm 10 of FIPS 203: the inverse number-theoretic transform.
pub open spec fn inv_ntt_spec(f: Seq<i32>) -> Seq<i32> {
    Seq::new(256, |i: int| ((inv_ntt_layers(f, 7)[i] * inv_128()) % 3329) as i32)
}

/// Algorithm 10: inverse NTT.
pub fn inv_ntt(ntt_f: &[i32; N], out: &mut [i32; N])
    requires
        small_coeffs(ntt_f@),
    ensures
        final(out)@ == inv_ntt_spec(ntt_f@),
        is_reduced(final(out)@),
{
    *out = *ntt_f;
    let mut k: usize = 127;
    let mut length: usize = 2;
    let ghost mut l: nat = 0;
    proof {
        lemma2_to64();
    }
    while length <= N / 2
        invariant
            l <= 7,
            length == pow2(l + 1),
            k + 1 == pow2((7 - l) as nat),
            k <= 127,
            (k + 1) * length == 256,
            l < 7 ==> 2 <= length <= 128,
            l == 7 ==> length == 256,
            out@ == inv_ntt_layers(ntt_f@, l),
            small_coeffs(out@),
            l > 0 ==> is_reduced(out@),
        decreases 256 - length,
    {
        let ghost prev = out@;
        let ghost k0 = k as int;
        let ghost layer = inv_ntt_layer(prev, length as int, k0);
        let mut start: usize = 0;
        let ghost mut b: int = 0;
        while start < N
            invariant
                l < 7,
                2 <= length <= 128,
                (k0 + 1) * length == 256,
                start == 2 * length * b,
                start <= 256,
                0 <= b,
                k == k0 - b,
                k0 <= 127,
                small_coeffs(prev),
                layer == inv_ntt_layer(prev, length as int, k0),
                out@.len() == 256,
                forall|x: int|
                    0 <= x < 256 ==> #[trigger] out@[x] == if x < start {
                        layer[x]
                    } else {
                        prev[x]
                    },
                forall|x: int| 0 <= x < start ==> 0 <= #[trigger] out@[x] < 3329,
            decreases N - start,
        {
            assert(start + 2 * length <= 256 && b < k0) by (nonlinear_arith)
                requires
                    start == 2 * length * b,
                    (k0 + 1) * length == 256,
                    start < 256,
                    2 <= length <= 128,
                    b >= 0,
            ;
            let z = zeta(k);
            k -= 1;
            for j in start..start + length
                invariant
                    2 <= length <= 128,
                    start == 2 * length * b,
                    start + 2 * length <= 256,
                    z as int == zeta_k(k0 - b),
                    0 <= z < 3329,
                    small_coeffs(prev),
                    layer == inv_ntt_layer(prev, length as int, k0),
                    out@.len() == 256,
                    forall|x: int|
                        0 <= x < 256 ==> #[trigger] out@[x] == if x < j || (start + length <= x
                            < j + length) {
                            layer[x]
                        } else {
                            prev[x]
                        },
                    forall|x: int|
                        0 <= x < 256 && (x < j || (start + length <= x < j + length)) ==> 0
                            <= #[trigger] out@[x] < 3329,
            {
                assert(out@[j + length] == prev[j + length]);
                assert(out@[j as int] == prev[j as int]);
                proof {
                    lemma_block_index(j as int, start as int, length as int, b);
                    lemma_block_index(j + length, start as int, length as int, b);
                }
                assert(-0x3fff_ffff <= prev[j as int] <= 0x3fff_ffff);
                assert(-0x3fff_ffff <= prev[j + length] <= 0x3fff_ffff);
                let t = out[j];
                out[j] = modq(t + out[j + length], Q);
                let diff = out[j + length] - t;
                assert(-0x7fff_ffff * 3329 <= (z as i64) * (diff as i64) <= 0x7fff_ffff * 3329)
                    by (nonlinear_arith)
                    requires
                        0 <= z < 3329,
                        -0x7fff_ffff <= diff <= 0x7fff_ffff,
                ;
                out[j + length] = modq64((z as i64) * (diff as i64), Q);
                assert(out@[j as int] == layer[j as int]);
                assert(out@[j + length] == layer[j + length]);
            }
            assert(start + 2 * length == 2 * length * (b + 1)) by (nonlinear_arith)
                requires
                    start == 2 * length * b,
            ;
            start += 2 * length;
            proof {
                b = b + 1;
            }
        }
        assert(out@ =~= layer);
        assert(2 * b == k0 + 1) by (nonlinear_arith)
            requires
                2 * length * b == 256,
                (k0 + 1) * length == 256,
                length > 0,
        ;
        length *= 2;
        assert((k + 1) * length == 256) by (nonlinear_arith)
            requires
                k == k0 - b,
                2 * b == k0 + 1,
                (k0 + 1) * (length / 2) == 256,
                length % 2 == 0,
        ;
        proof {
            lemma2_to64();
            l = l + 1;
        }
    }
    let ghost layered = out@;
    for i in 0..N
        invariant
            layered == inv_ntt_layers(ntt_f@, 7),
            is_reduced(layered),
            out@.len() == 256,
            forall|x: int| i <= x < 256 ==> #[trigger] out@[x] == layered[x],
            forall|x: int| 0 <= x < i ==> #[trigger] out@[x] == inv_ntt_spec(ntt_f@)[x],
            forall|x: int| 0 <= x < i ==> 0 <= #[trigger] out@[x] < 3329,
    {
        out[i] = modq64((out[i] as i64) * 3303, Q);
    }
    assert(out@ =~= inv_ntt_spec(ntt_f@));
}

/// Every coefficient multiplied by `c`, modulo q.
pub open spec fn scale(c: int, g: Seq<i32>) -> Seq<i32> {
    Seq::new(256, |x: int| ((c * g[x]) % 3329) as i32)
}

/// The first output of a forward butterfly plus the second is twice the
/// first input.
proof fn lemma_butterfly_sum(a: int, b: int, z: int)
    ensures
        ((a + z * b) % 3329 + (a - z * b) % 3329) % 3329 == (2 * a) % 3329,
{
    lemma_add_mod_noop(a + z * b, a - z * b, 3329);
}

/// When `z z' = -1 (mod q)`, `z'` times the difference of the outputs of a
/// forward butterfly is twice its second input.
proof fn lemma_butterfly_diff(a: int, b: int, z: int, z2: int)
    requires
        (z * z2) % 3329 == 3328,
    ensures
        (z2 * ((a - z * b) % 3329 - (a + z * b) % 3329)) % 3329 == (2 * b) % 3329,
{
    let u = (a - z * b) % 3329 - (a + z * b) % 3329;
    lemma_sub_mod_noop(a - z * b, a + z * b, 3329);
    assert((a - z * b) - (a + z * b) == -2 * z * b) by (nonlinear_arith);
    lemma_mul_mod_noop_right(z2, u, 3329);
    lemma_mul_mod_noop_right(z2, -2 * z * b, 3329);
    assert(z2 * (-2 * z * b) == (-2 * b) * (z * z2)) by (nonlinear_arith);
    lemma_mul_mod_noop_right(-2 * b, z * z2, 3329);
    assert((-2 * b) * 3328 == 2 * b + (-2 * b) * 3329) by (nonlinear_arith);
    lemma_mod_multiples_vanish(-2 * b, 2 * b, 3329);
    assert((-2 * b) * 3329 == 3329 * (-2 * b)) by (nonlinear_arith);
}

/// Positions `x` and `x + len` (or `x - len`) lie in the same block of
/// `2 len` coefficients.
proof fn lemma_partner(x: int, len: int, blocks: int)
    requires
        len > 0,
        2 * len * blocks == 256,
        0 <= x < 256,
    ensures
        0 <= x / (2 * len) < blocks,
        x % (2 * len) < len ==> x + len < 256 && (x + len) / (2 * len) == x / (2 * len) && (x
            + len) % (2 * len) == x % (2 * len) + len,
        x % (2 * len) >= len ==> x - len >= 0 && (x - len) / (2 * len) == x / (2 * len) && (x
            - len) % (2 * len) == x % (2 * len) - len,
{
    let w = 2 * len;
    let b = x / w;
    let t = x % w;
    lemma_fundamental_div_mod(x, w);
    lemma_div_pos_is_pos(x, w);
    if b >= blocks {
        assert(w * b >= w * blocks) by (nonlinear_arith)
            requires
                b >= blocks,
                w > 0,
        ;
    }
    if t < len {
        assert(x + len == b * w + (t + len)) by (nonlinear_arith)
            requires
                x == w * b + t,
        ;
        lemma_fundamental_div_mod_converse(x + len, w, b, t + len);
        assert(w * b + w <= w * blocks) by (nonlinear_arith)
            requires
                b + 1 <= blocks,
                w > 0,
        ;
    } else {
        assert(x - len == b * w + (t - len)) by (nonlinear_arith)
            requires
                x == w * b + t,
        ;
        lemma_fundamental_div_mod_converse(x - len, w, b, t - len);
        assert(x - len >= 0) by (nonlinear_arith)
            requires
                x - len == b * w + (t - len),
                t >= len,
                b >= 0,
                w > 0,
        ;
    }
}

/// The inverse layer of half-length `2^(7 - l)` undoes forward layer `l`, up
/// to a factor of two.
pub proof fn lemma_layer_pair(g: Seq<i32>, l: nat)
    requires
        l < 7,
        g.len() == 256,
    ensures
        inv_ntt_layer(ntt_layer(g, pow2((7 - l) as nat) as int, pow2(l) as int), pow2((7 - l) as nat) as int, pow2(l + 1) - 1)
            == scale(2, g),
{
    let len = pow2((7 - l) as nat) as int;
    let kf = pow2(l) as int;
    let ki = pow2(l + 1) - 1;
    let fl = ntt_layer(g, len, kf);
    let il = inv_ntt_layer(fl, len, ki);
    lemma_pow2_adds((7 - l) as nat, l);
    lemma_pow2_unfold(l + 1);
    lemma_pow2_pos((7 - l) as nat);
    lemma2_to64();
    assert(len * kf == 128);
    assert(2 * len * kf == 256) by (nonlinear_arith)
        requires
            len * kf == 128,
    ;
    vstd::bits::lemma_usize_shl_is_mul(1, l as usize);
    vstd::bits::lemma_usize_shl_is_mul(2, l as usize);
    vstd::bits::lemma_usize_pow2_no_overflow(l + 1);
    assert forall|x: int| 0 <= x < 256 implies #[trigger] il[x] == scale(2, g)[x] by {
        lemma_partner(x, len, kf);
        let b = x / (2 * len);
        let zf = zeta_k(kf + b);
        let zi = zeta_k(ki - b);
        lemma_bitrev_pair(l as usize, b as usize);
        assert((kf + b) as usize == ((1usize << (l as usize)) + (b as usize)) as usize);
        assert((ki - b) as usize == ((2usize << (l as usize)) - 1 - (b as usize)) as usize);
        lemma_root_pow_product(bitrev7((kf + b) as usize) as nat, bitrev7((ki - b) as usize) as nat);
        if x % (2 * len) < len {
            lemma_butterfly_sum(g[x] as int, g[x + len] as int, zf);
        } else {
            lemma_butterfly_diff(g[x - len] as int, g[x] as int, zf, zi);
        }
    }
    assert(il =~= scale(2, g));
}

/// An inverse layer commutes with scaling.
proof fn lemma_inv_layer_scale(g: Seq<i32>, len: int, k0: int, blocks: int, c: int)
    requires
        len > 0,
        2 * len * blocks == 256,
        g.len() == 256,
    ensures
        inv_ntt_layer(scale(c, g), len, k0) == scale(c, inv_ntt_layer(g, len, k0)),
{
    let sg = scale(c, g);
    assert forall|x: int| 0 <= x < 256 implies #[trigger] inv_ntt_layer(sg, len, k0)[x] == scale(
        c,
        inv_ntt_layer(g, len, k0),
    )[x] by {
        lemma_partner(x, len, blocks);
        let z = zeta_k(k0 - x / (2 * len));
        if x % (2 * len) < len {
            let a = g[x] as int;
            let b = g[x + len] as int;
            lemma_add_mod_noop(c * a, c * b, 3329);
            lemma_mul_mod_noop_right(c, a + b, 3329);
            assert(c * a + c * b == c * (a + b)) by (nonlinear_arith);
        } else {
            let a = g[x - len] as int;
            let b = g[x] as int;
            lemma_sub_mod_noop(c * b, c * a, 3329);
            lemma_mul_mod_noop_right(z, (c * b) % 3329 - (c * a) % 3329, 3329);
            lemma_mul_mod_noop_right(z, c * b - c * a, 3329);
            lemma_mul_mod_noop_right(c, z * (b - a), 3329);
            assert(z * (c * b - c * a) == c * (z * (b - a))) by (nonlinear_arith);
        }
    }
    assert(inv_ntt_layer(sg, len, k0) =~= scale(c, inv_ntt_layer(g, len, k0)));
}

/// Scaling twice multiplies the factors.
proof fn lemma_scale_scale(a: int, b: int, g: Seq<i32>)
    ensures
        scale(a, scale(b, g)) == scale(a * b, g),
{
    assert forall|x: int| 0 <= x < 256 implies #[trigger] scale(a, scale(b, g))[x] == scale(
        a * b,
        g,
    )[x] by {
        lemma_mul_mod_noop_right(a, b * g[x], 3329);
        lemma_mul_is_associative(a, b, g[x] as int);
    }
    assert(scale(a, scale(b, g)) =~= scale(a * b, g));
}

/// Applying the first `m` inverse layers to `NTT(f)` leaves `2^m` times the
/// state of the forward transform after `7 - m` layers.
proof fn lemma_inv_layers_of_ntt(f: Seq<i32>, m: nat)
    requires
        m <= 7,
        f.len() == 256,
    ensures
        inv_ntt_layers(ntt_layers(f, 7), m) == scale(pow2(m) as int, ntt_layers(f, (7 - m) as nat)),
    decreases m,
{
    lemma2_to64();
    if m == 0 {
        let f7 = ntt_layers(f, 7);
        assert(scale(1, f7) =~= f7);
    } else {
        lemma_inv_layers_of_ntt(f, (m - 1) as nat);
        let l = (7 - m) as nat;
        let fl = ntt_layers(f, l);
        let fl1 = ntt_layers(f, (8 - m) as nat);
        assert(fl1 == ntt_layer(fl, pow2((7 - l) as nat) as int, pow2(l) as int));
        lemma_pow2_adds(m, l);
        lemma_pow2_pos(m);
        let len = pow2(m) as int;
        let blocks = pow2(l) as int;
        assert(len * blocks == 128);
        assert(2 * len * blocks == 256) by (nonlinear_arith)
            requires
                len * blocks == 128,
        ;
        assert(pow2((8 - m) as nat) - 1 == pow2(l + 1) - 1);
        lemma_inv_layer_scale(fl1, len, pow2((8 - m) as nat) - 1, blocks, pow2((m - 1) as nat) as int);
        lemma_layer_pair(fl, l);
        lemma_scale_scale(pow2((m - 1) as nat) as int, 2, fl);
        lemma_pow2_unfold(m);
        assert(pow2((m - 1) as nat) * 2 == pow2(m));
    }
}

/// `NTT^-1(NTT(f)) = f` for every polynomial with coefficients in `[0, q)`.
pub proof fn law_inv_ntt_ntt(f: Seq<i32>)
    requires
        is_reduced(f),
    ensures
        inv_ntt_spec(ntt_spec(f)) == f,
{
    lemma_inv_layers_of_ntt(f, 7);
    lemma2_to64();
    let r = inv_ntt_layers(ntt_spec(f), 7);
    assert(r == scale(128, f));
    assert forall|i: int| 0 <= i < 256 implies #[trigger] inv_ntt_spec(ntt_spec(f))[i] == f[i] by {
        let x = f[i] as int;
        lemma_mul_mod_noop_left(128 * x, 3303, 3329);
        assert(128 * x * 3303 == x + 127 * x * 3329) by (nonlinear_arith);
        lemma_mod_multiples_vanish(127 * x, x, 3329);
        assert(127 * x * 3329 == 3329 * (127 * x)) by (nonlinear_arith);
        lemma_small_mod(x as nat, 3329);
    }
    assert(inv_ntt_spec(ntt_spec(f)) =~= f);
}

/// A forward butterfly applied to the outputs of an inverse butterfly gives
/// twice its inputs, when `z z' = -1 (mod q)`.
proof fn lemma_butterfly_inverse_then_forward(a: int, b: int, z: int, z2: int)
    requires
        (z * z2) % 3329 == 3328,
    ensures
        ((a + b) % 3329 + z * ((z2 * (b - a)) % 3329)) % 3329 == (2 * a) % 3329,
        ((a + b) % 3329 - z * ((z2 * (b - a)) % 3329)) % 3329 == (2 * b) % 3329,
{
    let s = a + b;
    let d = z2 * (b - a);
    lemma_mul_mod_noop_right(z, d, 3329);
    lemma_add_mod_noop(s, z * (d % 3329), 3329);
    lemma_add_mod_noop(s, z * d, 3329);
    lemma_sub_mod_noop(s, z * (d % 3329), 3329);
    lemma_sub_mod_noop(s, z * d, 3329);
    lemma_mod_twice(z * (d % 3329), 3329);
    lemma_mod_twice(s, 3329);
    // z d = (b - a)(z z2) = (a - b) + (b - a)(z z2 + 1), and z z2 + 1 = 0 (mod q)
    let m = (z * z2) / 3329;
    lemma_fundamental_div_mod(z * z2, 3329);
    assert(z * d == (a - b) + (b - a) * (m + 1) * 3329) by (nonlinear_arith)
        requires
            z * z2 == 3329 * m + 3328,
            d == z2 * (b - a),
    ;
    lemma_mod_multiples_vanish((b - a) * (m + 1), s + (a - b), 3329);
    lemma_mod_multiples_vanish(-((b - a) * (m + 1)), s - (a - b), 3329);
    assert(s + z * d == s + (a - b) + 3329 * ((b - a) * (m + 1))) by (nonlinear_arith)
        requires
            z * d == (a - b) + (b - a) * (m + 1) * 3329,
    ;
    assert(s - z * d == s - (a - b) + 3329 * (-((b - a) * (m + 1)))) by (nonlinear_arith)
        requires
            z * d == (a - b) + (b - a) * (m + 1) * 3329,
    ;
    lemma_mod_twice(s + z * d, 3329);
    lemma_mod_twice(s - z * d, 3329);
}

/// Forward layer `l` undoes the inverse layer of half-length `2^(7 - l)`, up
/// to a factor of two.
pub proof fn lemma_layer_pair_rev(h: Seq<i32>, l: nat)
    requires
        l < 7,
        h.len() == 256,
    ensures
        ntt_layer(inv_ntt_layer(h, pow2((7 - l) as nat) as int, pow2(l + 1) - 1), pow2((7 - l) as nat) as int, pow2(l) as int)
            == scale(2, h),
{
    let len = pow2((7 - l) as nat) as int;
    let kf = pow2(l) as int;
    let ki = pow2(l + 1) - 1;
    let il = inv_ntt_layer(h, len, ki);
    let fl = ntt_layer(il, len, kf);
    lemma_pow2_adds((7 - l) as nat, l);
    lemma_pow2_unfold(l + 1);
    lemma_pow2_pos((7 - l) as nat);
    lemma2_to64();
    assert(len * kf == 128);
    assert(2 * len * kf == 256) by (nonlinear_arith)
        requires
            len * kf == 128,
    ;
    vstd::bits::lemma_usize_shl_is_mul(1, l as usize);
    vstd::bits::lemma_usize_shl_is_mul(2, l as usize);
    vstd::bits::lemma_usize_pow2_no_overflow(l + 1);
    assert forall|x: int| 0 <= x < 256 implies #[trigger] fl[x] == scale(2, h)[x] by {
        lemma_partner(x, len, kf);
        let b = x / (2 * len);
        let zf = zeta_k(kf + b);
        let zi = zeta_k(ki - b);
        lemma_bitrev_pair(l as usize, b as usize);
        assert((kf + b) as usize == ((1usize << (l as usize)) + (b as usize)) as usize);
        assert((ki - b) as usize == ((2usize << (l as usize)) - 1 - (b as usize)) as usize);
        lemma_root_pow_product(bitrev7((kf + b) as usize) as nat, bitrev7((ki - b) as usize) as nat);
        if x % (2 * len) < len {
            lemma_butterfly_inverse_then_forward(h[x] as int, h[x + len] as int, zf, zi);
        } else {
            lemma_butterfly_inverse_then_forward(h[x - len] as int, h[x] as int, zf, zi);
        }
    }
    assert(fl =~= scale(2, h));
}

/// A forward layer commutes with scaling.
proof fn lemma_layer_scale(g: Seq<i32>, len: int, k0: int, blocks: int, c: int)
    requires
        len > 0,
        2 * len * blocks == 256,
        g.len() == 256,
    ensures
        ntt_layer(scale(c, g), len, k0) == scale(c, ntt_layer(g, len, k0)),
{
    let sg = scale(c, g);
    assert forall|x: int| 0 <= x < 256 implies #[trigger] ntt_layer(sg, len, k0)[x] == scale(
        c,
        ntt_layer(g, len, k0),
    )[x] by {
        lemma_partner(x, len, blocks);
        let z = zeta_k(k0 + x / (2 * len));
        if x % (2 * len) < len {
            let a = g[x] as int;
            let b = g[x + len] as int;
            lemma_mul_mod_noop_right(z, c * b, 3329);
            lemma_add_mod_noop(c * a, z * (c * b), 3329);
            lemma_add_mod_noop(c * a, (z * ((c * b) % 3329)), 3329);
            lemma_mod_twice(c * a, 3329);
            lemma_mul_mod_noop_right(c, a + z * b, 3329);
            assert(c * a + z * (c * b) == c * (a + z * b)) by (nonlinear_arith);
            lemma_add_mod_noop((c * a) % 3329, z * (c * b), 3329);
        } else {
            let a = g[x - len] as int;
            let b = g[x] as int;
            lemma_mul_mod_noop_right(z, c * b, 3329);
            lemma_sub_mod_noop(c * a, z * (c * b), 3329);
            lemma_sub_mod_noop((c * a) % 3329, z * (c * b), 3329);
            lemma_sub_mod_noop(c * a, (z * ((c * b) % 3329)), 3329);
            lemma_mod_twice(c * a, 3329);
            lemma_mul_mod_noop_right(c, a - z * b, 3329);
            assert(c * a - z * (c * b) == c * (a - z * b)) by (nonlinear_arith);
        }
    }
    assert(ntt_layer(sg, len, k0) =~= scale(c, ntt_layer(g, len, k0)));
}

/// The first `j` forward layers commute with scaling.
proof fn lemma_layers_scale(g: Seq<i32>, j: nat, c: int)
    requires
        j <= 7,
        g.len() == 256,
    ensures
        ntt_layers(scale(c, g), j) == scale(c, ntt_layers(g, j)),
    decreases j,
{
    if j > 0 {
        lemma_layers_scale(g, (j - 1) as nat, c);
        let l = (j - 1) as nat;
        lemma_pow2_adds((7 - l) as nat, l);
        lemma_pow2_pos((7 - l) as nat);
        lemma2_to64();
        let len = pow2((7 - l) as nat) as int;
        let blocks = pow2(l) as int;
        assert(len * blocks == 128);
        assert(2 * len * blocks == 256) by (nonlinear_arith)
            requires
                len * blocks == 128,
        ;
        assert(pow2((8 - j) as nat) == pow2((7 - l) as nat));
        lemma_layer_scale(ntt_layers(g, l), len, pow2(l) as int, blocks, c);
    }
}

/// Applying the first `j` forward layers to the inverse layers of `g` leaves
/// `2^j` times the state of the inverse transform after `7 - j` layers.
proof fn lemma_layers_of_inv_ntt(g: Seq<i32>, j: nat)
    requires
        j <= 7,
        g.len() == 256,
    ensures
        ntt_layers(inv_ntt_layers(g, 7), j) == scale(pow2(j) as int, inv_ntt_layers(g, (7 - j) as nat)),
    decreases j,
{
    lemma2_to64();
    if j == 0 {
        let r7 = inv_ntt_layers(g, 7);
        assert(scale(1, r7) =~= r7);
    } else {
        lemma_layers_of_inv_ntt(g, (j - 1) as nat);
        let l = (j - 1) as nat;
        let m = (6 - l) as nat;
        let rm = inv_ntt_layers(g, m);
        let rm1 = inv_ntt_layers(g, (7 - l) as nat);
        lemma_pow2_adds((7 - l) as nat, l);
        lemma_pow2_pos((7 - l) as nat);
        let len = pow2((7 - l) as nat) as int;
        let blocks = pow2(l) as int;
        assert(len * blocks == 128);
        assert(2 * len * blocks == 256) by (nonlinear_arith)
            requires
                len * blocks == 128,
        ;
        assert(rm1 == inv_ntt_layer(rm, pow2((7 - l) as nat) as int, pow2(l + 1) - 1));
        assert(pow2((8 - j) as nat) == pow2((7 - l) as nat));
        lemma_layer_scale(rm1, len, pow2(l) as int, blocks, pow2(l) as int);
        lemma_layer_pair_rev(rm, l);
        lemma_scale_scale(pow2(l) as int, 2, rm);
        lemma_pow2_unfold(j);
    }
}

/// `NTT(NTT^-1(g)) = g` for every polynomial with coefficients in `[0, q)`.
pub proof fn law_ntt_inv_ntt(g: Seq<i32>)
    requires
        is_reduced(g),
    ensures
        ntt_spec(inv_ntt_spec(g)) == g,
{
    let r7 = inv_ntt_layers(g, 7);
    assert(inv_ntt_spec(g) =~= scale(3303, r7));
    lemma_layers_scale(r7, 7, 3303);
    lemma_layers_of_inv_ntt(g, 7);
    lemma2_to64();
    lemma_scale_scale(3303, 128, g);
    assert forall|i: int| 0 <= i < 256 implies #[trigger] scale(3303int * 128, g)[i] == g[i] by {
        let x = g[i] as int;
        assert(3303 * 128 * x == x + 127 * x * 3329) by (nonlinear_arith);
        lemma_mod_multiples_vanish(127 * x, x, 3329);
        assert(127 * x * 3329 == 3329 * (127 * x)) by (nonlinear_arith);
        lemma_small_mod(x as nat, 3329);
    }
    assert(scale(3303int * 128, g) =~= g);
}

/// A forward layer is additive.
proof fn lemma_layer_add(a: Seq<i32>, b: Seq<i32>, len: int, k0: int, blocks: int)
    requires
        len > 0,
        2 * len * blocks == 256,
    ensures
        ntt_layer(poly_add(a, b), len, k0) == poly_add(ntt_layer(a, len, k0), ntt_layer(b, len, k0)),
{
    let ab = poly_add(a, b);
    let la = ntt_layer(a, len, k0);
    let lb = ntt_layer(b, len, k0);
    assert forall|x: int| 0 <= x < 256 implies #[trigger] ntt_layer(ab, len, k0)[x] == poly_add(
        la,
        lb,
    )[x] by {
        lemma_partner(x, len, blocks);
        let z = zeta_k(k0 + x / (2 * len));
        let (p, r) = if x % (2 * len) < len {
            (x, x + len)
        } else {
            (x - len, x)
        };
        let ap = a[p] as int;
        let ar = a[r] as int;
        let bp = b[p] as int;
        let br = b[r] as int;
        lemma_cong_mod(ap + bp);
        lemma_cong_mod(ar + br);
        lemma_cong_mul(z, (ar + br) % 3329, z, ar + br);
        lemma_mul_is_distributive_add(z, ar, br);
        if x % (2 * len) < len {
            lemma_cong_add((ap + bp) % 3329, z * ((ar + br) % 3329), ap + bp, z * (ar + br));
            lemma_cong_mod(ap + z * ar);
            lemma_cong_mod(bp + z * br);
            lemma_cong_add((ap + z * ar) % 3329, (bp + z * br) % 3329, ap + z * ar, bp + z * br);
        } else {
            lemma_cong_sub((ap + bp) % 3329, z * ((ar + br) % 3329), ap + bp, z * (ar + br));
            lemma_cong_mod(ap - z * ar);
            lemma_cong_mod(bp - z * br);
            lemma_cong_add((ap - z * ar) % 3329, (bp - z * br) % 3329, ap - z * ar, bp - z * br);
        }
    }
    assert(ntt_layer(ab, len, k0) =~= poly_add(la, lb));
}

/// The first `s` forward layers are additive.
proof fn lemma_layers_add(a: Seq<i32>, b: Seq<i32>, s: nat)
    requires
        s <= 7,
    ensures
        ntt_layers(poly_add(a, b), s) == poly_add(ntt_layers(a, s), ntt_layers(b, s)),
    decreases s,
{
    if s > 0 {
        lemma_layers_add(a, b, (s - 1) as nat);
        let len = pow2((8 - s) as nat) as int;
        let blocks = pow2((s - 1) as nat) as int;
        lemma_pow2_adds((8 - s) as nat, (s - 1) as nat);
        lemma_pow2_pos((8 - s) as nat);
        lemma2_to64();
        assert(len * blocks == 128);
        assert(2 * len * blocks == 256) by (nonlinear_arith)
            requires
                len * blocks == 128,
        ;
        lemma_layer_add(ntt_layers(a, (s - 1) as nat), ntt_layers(b, (s - 1) as nat), len, blocks, blocks);
    }
}

/// The NTT is additive modulo q.
pub proof fn lemma_ntt_add(a: Seq<i32>, b: Seq<i32>)
    ensures
        ntt_spec(poly_add(a, b)) == poly_add(ntt_spec(a), ntt_spec(b)),
{
    lemma_layers_add(a, b, 7);
}

/// An inverse layer is additive.
proof fn lemma_inv_layer_add(a: Seq<i32>, b: Seq<i32>, len: int, k0: int, blocks: int)
    requires
        len > 0,
        2 * len * blocks == 256,
    ensures
        inv_ntt_layer(poly_add(a, b), len, k0) == poly_add(
            inv_ntt_layer(a, len, k0),
            inv_ntt_layer(b, len, k0),
        ),
{
    let ab = poly_add(a, b);
    let la = inv_ntt_layer(a, len, k0);
    let lb = inv_ntt_layer(b, len, k0);
    assert forall|x: int| 0 <= x < 256 implies #[trigger] inv_ntt_layer(ab, len, k0)[x] == poly_add(
        la,
        lb,
    )[x] by {
        lemma_partner(x, len, blocks);
        let z = zeta_k(k0 - x / (2 * len));
        let (p, r) = if x % (2 * len) < len {
            (x, x + len)
        } else {
            (x - len, x)
        };
        let ap = a[p] as int;
        let ar = a[r] as int;
        let bp = b[p] as int;
        let br = b[r] as int;
        lemma_cong_mod(ap + bp);
        lemma_cong_mod(ar + br);
        if x % (2 * len) < len {
            lemma_cong_add((ap + bp) % 3329, (ar + br) % 3329, ap + bp, ar + br);
            lemma_cong_mod(ap + ar);
            lemma_cong_mod(bp + br);
            lemma_cong_add((ap + ar) % 3329, (bp + br) % 3329, ap + ar, bp + br);
        } else {
            lemma_cong_sub((ar + br) % 3329, (ap + bp) % 3329, ar + br, ap + bp);
            lemma_cong_mul(z, (ar + br) % 3329 - (ap + bp) % 3329, z, (ar + br) - (ap + bp));
            lemma_cong_mod(z * (ar - ap));
            lemma_cong_mod(z * (br - bp));
            lemma_cong_add(
                (z * (ar - ap)) % 3329,
                (z * (br - bp)) % 3329,
                z * (ar - ap),
                z * (br - bp),
            );
            lemma_mul_is_distributive_add(z, ar - ap, br - bp);
        }
    }
    assert(inv_ntt_layer(ab, len, k0) =~= poly_add(la, lb));
}

/// The first `s` inverse layers are additive.
proof fn lemma_inv_layers_add(a: Seq<i32>, b: Seq<i32>, s: nat)
    requires
        s <= 7,
    ensures
        inv_ntt_layers(poly_add(a, b), s) == poly_add(inv_ntt_layers(a, s), inv_ntt_layers(b, s)),
    decreases s,
{
    if s > 0 {
        lemma_inv_layers_add(a, b, (s - 1) as nat);
        let len = pow2(s) as int;
        let blocks = pow2((7 - s) as nat) as int;
        lemma_pow2_adds(s, (7 - s) as nat);
        lemma_pow2_pos(s);
        lemma2_to64();
        assert(len * blocks == 128);
        assert(2 * len * blocks == 256) by (nonlinear_arith)
            requires
                len * blocks == 128,
        ;
        lemma_inv_layer_add(
            inv_ntt_layers(a, (s - 1) as nat),
            inv_ntt_layers(b, (s - 1) as nat),
            len,
            pow2((8 - s) as nat) - 1,
            blocks,
        );
    }
}

/// The inverse NTT is additive modulo q.
pub proof fn lemma_inv_ntt_add(a: Seq<i32>, b: Seq<i32>)
    ensures
        inv_ntt_spec(poly_add(a, b)) == poly_add(inv_ntt_spec(a), inv_ntt_spec(b)),
{
    lemma_inv_layers_add(a, b, 7);
    let la = inv_ntt_layers(a, 7);
    let lb = inv_ntt_layers(b, 7);
    assert forall|x: int| 0 <= x < 256 implies #[trigger] inv_ntt_spec(poly_add(a, b))[x] == poly_add(
        inv_ntt_spec(a),
        inv_ntt_spec(b),
    )[x] by {
        let va = la[x] as int;
        let vb = lb[x] as int;
        lemma_cong_mod(va + vb);
        lemma_cong_mul((va + vb) % 3329, 3303, va + vb, 3303);
        lemma_cong_mod(va * 3303);
        lemma_cong_mod(vb * 3303);
        lemma_cong_add((va * 3303) % 3329, (vb * 3303) % 3329, va * 3303, vb * 3303);
        lemma_mul_is_distributive_add_other_way(3303, va, vb);
    }
    assert(inv_ntt_spec(poly_add(a, b)) =~= poly_add(inv_ntt_spec(a), inv_ntt_spec(b)));
}

} // verus!
