//! The NTT as the Chinese-remainder decomposition of `Z_q[X]/(X^256 + 1)`:
//! the layered butterflies of Algorithm 9 compute the remainders of a
//! polynomial modulo the 128 factors `X^2 - gamma_i`.
use crate::algebra::{
    cong, lemma_cong_add, lemma_cong_mod, lemma_cong_mul, lemma_cong_sub, lemma_dot_psum,
    lemma_psum_ext, psum,
};
use crate::arith::{bitrev7, lemma_root_pow_128, root_pow};
use crate::ntt::{
    base_mul, dot_spec, gamma, inv_ntt_spec, law_inv_ntt_ntt, lemma_inv_ntt_add, ntt_layer,
    ntt_layers, ntt_spec, scale, zeta_k,
};
use crate::poly::{poly_add, poly_zero};
use vstd::arithmetic::div_mod::*;
use vstd::arithmetic::power::*;
use vstd::arithmetic::power2::*;
use vstd::prelude::*;

verus! {

/// `f[t] + c f[t + step] + c^2 f[t + 2 step] + ...`, `n` terms, by Horner's
/// rule: the coefficient of `X^t` in `f mod (X^step - c)` when `n step`
/// covers the whole polynomial.
pub open spec fn horner(f: Seq<i32>, t: int, step: int, c: int, n: nat) -> int
    decreases n,
{
    if n == 0 {
        0
    } else {
        f[t] as int + c * horner(f, t + step, step, c, (n - 1) as nat)
    }
}

/// Splitting `X^len - z` into the even and odd terms:
/// `sum_m f[t + m len] z^m = sum_m f[t + 2m len] (z^2)^m + z sum_m f[t + len + 2m len] (z^2)^m`.
pub proof fn lemma_horner_split(f: Seq<i32>, t: int, len: int, z: int, n: nat)
    ensures
        horner(f, t, len, z, 2 * n) == horner(f, t, 2 * len, z * z, n) + z * horner(
            f,
            t + len,
            2 * len,
            z * z,
            n,
        ),
    decreases n,
{
    if n == 0 {
        assert(z * 0 == 0) by (nonlinear_arith);
    } else {
        let n1 = (n - 1) as nat;
        lemma_horner_split(f, t + 2 * len, len, z, n1);
        let h1 = horner(f, t + 2 * len, 2 * len, z * z, n1);
        let h2 = horner(f, t + 3 * len, 2 * len, z * z, n1);
        let rest = horner(f, t + 2 * len, len, z, 2 * n1);
        assert(rest == h1 + z * h2) by {
            assert(t + 2 * len + len == t + 3 * len);
        }
        assert(horner(f, t + len, len, z, (2 * n - 1) as nat) == f[t + len] as int + z * rest) by {
            assert((2 * n - 1 - 1) as nat == 2 * n1);
            assert(t + len + len == t + 2 * len);
        }
        assert(horner(f, t, len, z, 2 * n) == f[t] as int + z * horner(
            f,
            t + len,
            len,
            z,
            (2 * n - 1) as nat,
        ));
        assert(horner(f, t, 2 * len, z * z, n) == f[t] as int + z * z * h1);
        assert(horner(f, t + len, 2 * len, z * z, n) == f[t + len] as int + z * z * h2) by {
            assert(t + len + 2 * len == t + 3 * len);
        }
        let a = f[t] as int;
        let b = f[t + len] as int;
        assert(a + z * (b + z * (h1 + z * h2)) == (a + z * z * h1) + z * (b + z * z * h2))
            by (nonlinear_arith);
    }
}

/// Horner sums with congruent constants are congruent.
pub proof fn lemma_horner_cong(f: Seq<i32>, t: int, step: int, c1: int, c2: int, n: nat)
    requires
        cong(c1, c2),
    ensures
        cong(horner(f, t, step, c1, n), horner(f, t, step, c2, n)),
    decreases n,
{
    if n > 0 {
        let n1 = (n - 1) as nat;
        lemma_horner_cong(f, t + step, step, c1, c2, n1);
        let h1 = horner(f, t + step, step, c1, n1);
        let h2 = horner(f, t + step, step, c2, n1);
        lemma_cong_mul(c1, h1, c2, h2);
        lemma_cong_add(f[t] as int, c1 * h1, f[t] as int, c2 * h2);
    }
}

/// Bit reversal of `2 y` and `2 y + 1` in terms of that of `y`, and of
/// `64 + y`, for `y < 64`.
pub proof fn lemma_bitrev_halves(y: usize)
    requires
        y < 64,
    ensures
        bitrev7((2 * y) as usize) * 2 == bitrev7(y),
        bitrev7((2 * y + 1) as usize) * 2 == bitrev7(y) + 128,
        bitrev7((64 + y) as usize) == bitrev7(y) + 1,
{
    assert(bitrev7((2 * y) as usize) * 2 == bitrev7(y)) by (bit_vector)
        requires
            y < 64,
    ;
    assert(bitrev7((2 * y + 1) as usize) * 2 == bitrev7(y) + 128) by (bit_vector)
        requires
            y < 64,
    ;
    assert(bitrev7((64 + y) as usize) == bitrev7(y) + 1) by (bit_vector)
        requires
            y < 64,
    ;
}

/// `17^(a + 128) = -17^a (mod q)`.
pub proof fn lemma_root_pow_negate(a: nat)
    ensures
        cong(root_pow(a + 128), -root_pow(a)),
{
    lemma_pow_adds(17, a, 128);
    lemma_cong_mod(pow(17, a + 128));
    lemma_cong_mod(pow(17, a));
    lemma_cong_mod(pow(17, 128));
    lemma_root_pow_128();
    lemma_cong_mul(pow(17, a) % 3329, pow(17, 128) % 3329, pow(17, a), pow(17, 128));
    assert(cong(3328, -1));
    lemma_cong_mul(root_pow(a), 3328, root_pow(a), -1);
}

/// `(17^e)^2 = 17^(2e) (mod q)`.
pub proof fn lemma_root_pow_square(e: nat)
    ensures
        cong(root_pow(e) * root_pow(e), root_pow(2 * e)),
{
    lemma_pow_adds(17, e, e);
    assert(2 * e == e + e);
    lemma_cong_mod(pow(17, e));
    lemma_cong_mul(root_pow(e), root_pow(e), pow(17, e), pow(17, e));
    lemma_cong_mod(pow(17, 2 * e));
}

/// The constant `c` for which block `b` after `s` forward layers holds the
/// remainder modulo `X^(256 / 2^s) - c`: `-1` before the first layer, then
/// `zeta_k(2^(s-1) + b/2)` for even `b` and its negation for odd `b`.
pub open spec fn factor_root(s: nat, b: int) -> int {
    if s == 0 {
        -1
    } else if b % 2 == 0 {
        zeta_k(pow2((s - 1) as nat) + b / 2)
    } else {
        -zeta_k(pow2((s - 1) as nat) + b / 2)
    }
}

/// The butterfly constant of block `b` in layer `s + 1` is a square root of
/// the block's factor constant: `X^(2 len) - c = (X^len - z)(X^len + z)`.
pub proof fn lemma_factor_root_square(s: nat, b: int)
    requires
        s < 7,
        0 <= b < pow2(s),
    ensures
        cong(factor_root(s, b), zeta_k(pow2(s) + b) * zeta_k(pow2(s) + b)),
{
    let k = pow2(s) + b;
    let e = bitrev7(k as usize) as nat;
    lemma_root_pow_square(e);
    lemma2_to64();
    if s == 0 {
        assert(k == 1);
        assert(bitrev7(1usize) == 64) by (bit_vector);
        lemma_root_pow_128();
        assert(cong(-1, 3328));
    } else {
        let y = pow2((s - 1) as nat) + b / 2;
        lemma_pow2_unfold(s);
        lemma_pow2_strictly_increases(s, 7);
        assert(pow2(s) <= 64) by {
            if s < 6 {
                lemma_pow2_strictly_increases(s, 6);
            }
        }
        assert(0 <= y < 64);
        lemma_bitrev_halves(y as usize);
        if b % 2 == 0 {
            assert(k == 2 * y);
            assert(2 * e == bitrev7(y as usize));
        } else {
            assert(k == 2 * y + 1);
            assert(2 * e == bitrev7(y as usize) + 128);
            lemma_root_pow_negate(bitrev7(y as usize) as nat);
        }
    }
}

/// After all seven layers the factor of block `i` is `X^2 - gamma_i`.
pub proof fn lemma_factor_root_gamma(i: int)
    requires
        0 <= i < 128,
    ensures
        cong(factor_root(7, i), gamma(i)),
{
    lemma2_to64();
    let y = i / 2;
    lemma_bitrev_halves(y as usize);
    assert(pow2(6) == 64);
    let e = bitrev7((64 + y) as usize) as nat;
    if i % 2 == 0 {
        assert(i == 2 * y);
        assert(2 * bitrev7(i as usize) + 1 == e);
    } else {
        assert(i == 2 * y + 1);
        assert(2 * bitrev7(i as usize) + 1 == e + 128);
        lemma_root_pow_negate(e);
    }
}

/// Entry `t` of block `b` after `s` layers (blocks of `256 / 2^s`).
pub open spec fn block_entry(g: Seq<i32>, s: nat, b: int, t: int) -> int {
    g[b * pow2((8 - s) as nat) + t] as int
}

/// The invariant of the forward transform after `s` layers: entry `t` of
/// block `b` is coefficient `t` of `f mod (X^(256 / 2^s) - factor_root(s, b))`.
pub open spec fn layers_invariant(f: Seq<i32>, s: nat) -> bool {
    forall|b: int, t: int|
        0 <= b < pow2(s) && 0 <= t < pow2((8 - s) as nat) ==> cong(
            #[trigger] block_entry(ntt_layers(f, s), s, b, t),
            horner(f, t, pow2((8 - s) as nat) as int, factor_root(s, b), pow2(s)),
        )
}

/// One forward layer splits every block into its two factors.
proof fn lemma_layer_step(f: Seq<i32>, s: nat, b2: int, t: int)
    requires
        s < 7,
        layers_invariant(f, s),
        0 <= b2 < pow2(s + 1),
        0 <= t < pow2((7 - s) as nat),
    ensures
        cong(
            block_entry(ntt_layers(f, s + 1), s + 1, b2, t),
            horner(f, t, pow2((7 - s) as nat) as int, factor_root(s + 1, b2), pow2(s + 1)),
        ),
{
    let len = pow2((7 - s) as nat) as int;
    let big = pow2((8 - s) as nat) as int;
    let n = pow2(s);
    lemma_pow2_unfold((8 - s) as nat);
    lemma_pow2_unfold(s + 1);
    lemma_pow2_adds((7 - s) as nat, s + 1);
    lemma_pow2_pos((7 - s) as nat);
    lemma2_to64();
    assert(big == 2 * len);
    assert(pow2(s + 1) == 2 * n);
    assert(len * (2 * n) == 256);
    let b = b2 / 2;
    let p = b2 % 2;
    assert(b2 == 2 * b + p);
    assert(0 <= b < n);
    let x = b2 * len + t;
    let r = p * len + t;
    assert(x == b * big + r && 0 <= x < 256) by (nonlinear_arith)
        requires
            b2 == 2 * b + p,
            big == 2 * len,
            x == b2 * len + t,
            r == p * len + t,
            0 <= t < len,
            0 <= b2 < 2 * n,
            len * (2 * n) == 256,
            len > 0,
    ;
    assert(0 <= r < big) by (nonlinear_arith)
        requires
            r == p * len + t,
            0 <= p < 2,
            0 <= t < len,
            big == 2 * len,
    ;
    lemma_fundamental_div_mod_converse(x, big, b, r);
    let prev = ntt_layers(f, s);
    assert(ntt_layers(f, s + 1) == ntt_layer(prev, len, n as int));
    assert(block_entry(ntt_layers(f, s + 1), s + 1, b2, t) == ntt_layers(f, s + 1)[x] as int);
    let z = zeta_k(n + b);
    let c = factor_root(s, b);
    lemma_factor_root_square(s, b);
    let v0 = block_entry(prev, s, b, t);
    let v1 = block_entry(prev, s, b, t + len);
    assert(b * big + (t + len) == x + len - p * len) by (nonlinear_arith)
        requires
            x == b * big + p * len + t,
    ;
    let h0 = horner(f, t, big, c, n);
    let h1 = horner(f, t + len, big, c, n);
    assert(cong(v0, h0));
    assert(cong(v1, h1));
    lemma_horner_cong(f, t, big, c, z * z, n);
    lemma_horner_cong(f, t + len, big, c, z * z, n);
    let g0 = horner(f, t, big, z * z, n);
    let g1 = horner(f, t + len, big, z * z, n);
    if p == 0 {
        assert(p * len == 0) by (nonlinear_arith)
            requires
                p == 0,
        ;
        assert(x == b * big + t);
        assert(prev[x] as int == v0 && prev[x + len] as int == v1);
        lemma_cong_mul(z, v1, z, g1);
        lemma_cong_add(v0, z * v1, g0, z * g1);
        lemma_cong_mod(v0 + z * v1);
        lemma_horner_split(f, t, len, z, n);
        assert(factor_root(s + 1, b2) == z);
    } else {
        assert(p * len == len) by (nonlinear_arith)
            requires
                p == 1,
        ;
        assert(x == b * big + len + t);
        assert(prev[x - len] as int == v0 && prev[x] as int == v1);
        lemma_cong_mul(z, v1, z, g1);
        lemma_cong_sub(v0, z * v1, g0, z * g1);
        lemma_cong_mod(v0 - z * v1);
        lemma_horner_split(f, t, len, -z, n);
        assert((-z) * (-z) == z * z) by (nonlinear_arith);
        assert(g0 - z * g1 == g0 + (-z) * g1) by (nonlinear_arith);
        assert(factor_root(s + 1, b2) == -z);
    }
}

/// The invariant holds after every number of layers.
proof fn lemma_layers_invariant(f: Seq<i32>, s: nat)
    requires
        s <= 7,
    ensures
        layers_invariant(f, s),
    decreases s,
{
    if s == 0 {
        lemma2_to64();
        assert forall|b: int, t: int| 0 <= b < pow2(0) && 0 <= t < pow2(8) implies cong(
            #[trigger] block_entry(ntt_layers(f, 0), 0, b, t),
            horner(f, t, pow2(8) as int, factor_root(0, b), pow2(0)),
        ) by {
            assert(b == 0);
            assert(horner(f, t + 256, 256, -1, 0) == 0);
            assert(-1 * 0 == 0);
        }
    } else {
        let s1 = (s - 1) as nat;
        lemma_layers_invariant(f, s1);
        assert forall|b: int, t: int| 0 <= b < pow2(s) && 0 <= t < pow2((8 - s) as nat) implies cong(
            #[trigger] block_entry(ntt_layers(f, s), s, b, t),
            horner(f, t, pow2((8 - s) as nat) as int, factor_root(s, b), pow2(s)),
        ) by {
            lemma_layer_step(f, s1, b, t);
        }
    }
}

/// Algorithm 9 computes the NTT of FIPS 203: for every `i < 128`,
/// `NTT(f)[2i] + NTT(f)[2i+1] X` is the remainder of `f` modulo
/// `X^2 - gamma_i` in `Z_q[X]`, that is
/// `NTT(f)[2i] = sum_m f[2m] gamma_i^m` and
/// `NTT(f)[2i+1] = sum_m f[2m+1] gamma_i^m` modulo q.
pub proof fn law_ntt_remainders(f: Seq<i32>)
    ensures
        forall|i: int|
            #![trigger gamma(i)]
            0 <= i < 128 ==> ntt_spec(f)[2 * i] as int == horner(f, 0, 2, gamma(i), 128) % 3329
                && ntt_spec(f)[2 * i + 1] as int == horner(f, 1, 2, gamma(i), 128) % 3329,
{
    lemma_layers_invariant(f, 7);
    lemma2_to64();
    let g = ntt_layers(f, 7);
    assert forall|i: int| 0 <= i < 128 implies ntt_spec(f)[2 * i] as int == horner(
        f,
        0,
        2,
        #[trigger] gamma(i),
        128,
    ) % 3329 && ntt_spec(f)[2 * i + 1] as int == horner(f, 1, 2, gamma(i), 128) % 3329 by {
        lemma_factor_root_gamma(i);
        assert(pow2(1) == 2 && pow2(7) == 128);
        assert(i * pow2(1) == 2 * i) by (nonlinear_arith)
            requires
                pow2(1) == 2,
        ;
        assert(block_entry(g, 7, i, 0) == g[2 * i] as int);
        assert(block_entry(g, 7, i, 1) == g[2 * i + 1] as int);
        lemma_horner_cong(f, 0, 2, factor_root(7, i), gamma(i), 128);
        lemma_horner_cong(f, 1, 2, factor_root(7, i), gamma(i), 128);
        lemma_small_mod(g[2 * i] as nat, 3329);
        lemma_small_mod(g[2 * i + 1] as nat, 3329);
    }
}

/// The last term of a Horner sum: `sum_{m <= n} = sum_{m < n} + c^n f[t + n step]`.
pub proof fn lemma_horner_last(f: Seq<i32>, t: int, step: int, c: int, n: nat)
    ensures
        horner(f, t, step, c, n + 1) == horner(f, t, step, c, n) + pow(c, n) * f[t + n * step],
    decreases n,
{
    if n == 0 {
        lemma_pow0(c);
        assert(horner(f, t + step, step, c, 0) == 0);
        assert(c * 0 == 0 && 0 * step == 0) by (nonlinear_arith);
        assert(t + 0 * step == t);
        assert(pow(c, 0) * f[t] == f[t] as int);
    } else {
        let n1 = (n - 1) as nat;
        lemma_horner_last(f, t + step, step, c, n1);
        lemma_pow_adds(c, n1, 1);
        lemma_pow1(c);
        assert(t + step + n1 * step == t + n * step) by (nonlinear_arith)
            requires
                n1 == n - 1,
        ;
        let h = horner(f, t + step, step, c, n1);
        let w = pow(c, n1);
        let v = f[t + n * step] as int;
        assert(horner(f, t + step, step, c, n) == h + w * v);
        assert(horner(f, t, step, c, n) == f[t] as int + c * h);
        assert(horner(f, t, step, c, n + 1) == f[t] as int + c * (h + w * v));
        assert(f[t] as int + c * (h + w * v) == (f[t] as int + c * h) + (w * c) * v)
            by (nonlinear_arith);
    }
}

/// Horner sums over step 2 that read equal entries are equal.
pub proof fn lemma_horner_shift(f1: Seq<i32>, t1: int, f2: Seq<i32>, t2: int, c: int, n: nat)
    requires
        forall|m: int| 0 <= m < n ==> #[trigger] f1[t1 + 2 * m] == f2[t2 + 2 * m],
    ensures
        horner(f1, t1, 2, c, n) == horner(f2, t2, 2, c, n),
    decreases n,
{
    if n > 0 {
        assert(f1[t1 + 2 * 0] == f2[t2 + 2 * 0]);
        assert forall|m: int| 0 <= m < n - 1 implies #[trigger] f1[(t1 + 2) + 2 * m] == f2[(t2 + 2)
            + 2 * m] by {
            assert(f1[t1 + 2 * (m + 1)] == f2[t2 + 2 * (m + 1)]);
        }
        lemma_horner_shift(f1, t1 + 2, f2, t2 + 2, c, (n - 1) as nat);
    }
}

/// Horner sums over step 2 are additive modulo q.
pub proof fn lemma_horner_add(u: Seq<i32>, v: Seq<i32>, t: int, c: int, n: nat)
    requires
        0 <= t,
        t + 2 * n <= 257,
    ensures
        cong(horner(poly_add(u, v), t, 2, c, n), horner(u, t, 2, c, n) + horner(v, t, 2, c, n)),
    decreases n,
{
    if n > 0 {
        let n1 = (n - 1) as nat;
        lemma_horner_add(u, v, t + 2, c, n1);
        let hw = horner(poly_add(u, v), t + 2, 2, c, n1);
        let hu = horner(u, t + 2, 2, c, n1);
        let hv = horner(v, t + 2, 2, c, n1);
        let ut = u[t] as int;
        let vt = v[t] as int;
        lemma_cong_mod(ut + vt);
        lemma_cong_mul(c, hw, c, hu + hv);
        lemma_cong_add((ut + vt) % 3329, c * hw, ut + vt, c * (hu + hv));
        assert(ut + vt + c * (hu + hv) == (ut + c * hu) + (vt + c * hv)) by (nonlinear_arith);
    }
}

/// Horner sums over step 2 commute with scaling modulo q.
pub proof fn lemma_horner_scale(k: int, b: Seq<i32>, t: int, c: int, n: nat)
    requires
        0 <= t,
        t + 2 * n <= 257,
    ensures
        cong(horner(scale(k, b), t, 2, c, n), k * horner(b, t, 2, c, n)),
    decreases n,
{
    if n == 0 {
        assert(k * 0 == 0) by (nonlinear_arith);
    } else {
        let n1 = (n - 1) as nat;
        lemma_horner_scale(k, b, t + 2, c, n1);
        let hs = horner(scale(k, b), t + 2, 2, c, n1);
        let hb = horner(b, t + 2, 2, c, n1);
        let bt = b[t] as int;
        lemma_cong_mod(k * bt);
        lemma_cong_mul(c, hs, c, k * hb);
        lemma_cong_add((k * bt) % 3329, c * hs, k * bt, c * (k * hb));
        assert(k * bt + c * (k * hb) == k * (bt + c * hb)) by (nonlinear_arith);
    }
}

/// A Horner sum of the zero polynomial is zero.
pub proof fn lemma_horner_zero(t: int, c: int, n: nat)
    requires
        0 <= t,
        t + 2 * n <= 257,
    ensures
        horner(poly_zero(), t, 2, c, n) == 0,
    decreases n,
{
    if n > 0 {
        lemma_horner_zero(t + 2, c, (n - 1) as nat);
        assert(c * 0 == 0) by (nonlinear_arith);
    }
}

/// Multiplication by `X` in `Z_q[X]/(X^256 + 1)`: a negacyclic shift.
pub open spec fn mul_by_x(h: Seq<i32>) -> Seq<i32> {
    Seq::new(256, |x: int| if x == 0 { ((-h[255]) % 3329) as i32 } else { h[x - 1] })
}

/// `a[i] b + X (a[i+1] b + X (... + X a[255] b))` in `Z_q[X]/(X^256 + 1)`:
/// the product of `b` with the terms of `a` from `i` on, divided by `X^i`.
pub open spec fn mul_tail(a: Seq<i32>, b: Seq<i32>, i: int) -> Seq<i32>
    decreases 256 - i,
{
    if i >= 256 {
        poly_zero()
    } else {
        poly_add(scale(a[i] as int, b), mul_by_x(mul_tail(a, b, i + 1)))
    }
}

/// The product of `a` and `b` in `Z_q[X]/(X^256 + 1)`, by Horner's rule in `a`.
pub open spec fn poly_mul(a: Seq<i32>, b: Seq<i32>) -> Seq<i32> {
    mul_tail(a, b, 0)
}

/// Multiplication in `Z[X]/(X^2 - g)`, an element `p0 + p1 X` written as
/// the pair `(p0, p1)`.
pub open spec fn pair_mul(p: (int, int), r: (int, int), g: int) -> (int, int) {
    (p.0 * r.0 + p.1 * r.1 * g, p.0 * r.1 + p.1 * r.0)
}

/// Two elements of `Z[X]/(X^2 - g)` are congruent modulo q.
pub open spec fn pair_cong(p: (int, int), r: (int, int)) -> bool {
    cong(p.0, r.0) && cong(p.1, r.1)
}

/// `f mod (X^2 - g)` in `Z[X]`, as the pair of its coefficients.
pub open spec fn rem2(f: Seq<i32>, g: int) -> (int, int) {
    (horner(f, 0, 2, g, 128), horner(f, 1, 2, g, 128))
}

/// `a[i] + a[i+1] X + ... + a[255] X^(255 - i)` in `Z[X]/(X^2 - g)`.
pub open spec fn tail_rem(a: Seq<i32>, i: int, g: int) -> (int, int)
    decreases 256 - i,
{
    if i >= 256 {
        (0, 0)
    } else {
        let r = tail_rem(a, i + 1, g);
        (a[i] as int + g * r.1, r.0)
    }
}

/// Horner's rule by single steps agrees with the even and odd Horner sums.
proof fn lemma_tail_rem_even(a: Seq<i32>, m: int, g: int)
    requires
        0 <= m <= 128,
    ensures
        tail_rem(a, 2 * m, g) == (
            horner(a, 2 * m, 2, g, (128 - m) as nat),
            horner(a, 2 * m + 1, 2, g, (128 - m) as nat),
        ),
    decreases 128 - m,
{
    if m < 128 {
        lemma_tail_rem_even(a, m + 1, g);
        assert(2 * m + 2 == 2 * (m + 1));
        let r2 = tail_rem(a, 2 * m + 2, g);
        assert(tail_rem(a, 2 * m + 1, g) == (a[2 * m + 1] as int + g * r2.1, r2.0));
        assert((128 - m - 1) as nat == (128 - (m + 1)) as nat);
        assert(2 * m + 1 + 2 == 2 * (m + 1) + 1);
    }
}

/// `17^256 = 1 (mod q)` raised to any power, so `gamma_i^128 = -1 (mod q)`.
pub proof fn lemma_gamma_pow_128(i: int)
    requires
        0 <= i < 128,
    ensures
        cong(pow(gamma(i), 128), -1),
{
    let e = (2 * bitrev7(i as usize) + 1) as nat;
    let br = bitrev7(i as usize) as nat;
    lemma_pow_mod_noop(pow(17, e), 128, 3329);
    lemma_pow_multiplies(17, e, 128);
    assert(e * 128 == 256 * br + 128) by (nonlinear_arith)
        requires
            e == 2 * br + 1,
    ;
    lemma_pow_adds(17, 256 * br, 128);
    lemma_pow_multiplies(17, 256, br);
    assert(256 * br == 256 * br);
    // 17^256 = 1 (mod q)
    lemma_pow_adds(17, 128, 128);
    lemma_root_pow_128();
    lemma_cong_mod(pow(17, 128));
    lemma_cong_mul(pow(17, 128) % 3329, pow(17, 128) % 3329, pow(17, 128), pow(17, 128));
    assert(cong(3328int * 3328, 1));
    lemma_pow_mod_noop(pow(17, 256), br, 3329);
    lemma1_pow(br);
    assert(pow(17, 256) % 3329 == 1);
    let big = pow(pow(17, 256), br);
    assert(big % 3329 == 1);
    lemma_cong_mod(big);
    lemma_cong_mul(big, pow(17, 128), 1, 3328);
    assert(cong(pow(17, 256 * br + 128), 3328));
    assert(cong(3328, -1));
}

/// Multiplying by `X` multiplies the remainder modulo `X^2 - gamma_i` by `X`.
proof fn lemma_rem2_mul_by_x(h: Seq<i32>, i: int)
    requires
        0 <= i < 128,
    ensures
        pair_cong(rem2(mul_by_x(h), gamma(i)), (gamma(i) * rem2(h, gamma(i)).1, rem2(h, gamma(i)).0)),
{
    let g = gamma(i);
    let xh = mul_by_x(h);
    assert forall|m: int| 0 <= m < 128 implies #[trigger] xh[1 + 2 * m] == h[0 + 2 * m] by {}
    lemma_horner_shift(xh, 1, h, 0, g, 128);
    assert forall|m: int| 0 <= m < 127 implies #[trigger] xh[2 + 2 * m] == h[1 + 2 * m] by {}
    lemma_horner_shift(xh, 2, h, 1, g, 127);
    let h127 = horner(h, 1, 2, g, 127);
    lemma_horner_last(h, 1, 2, g, 127);
    let last = h[255] as int;
    assert(horner(h, 1, 2, g, 128) == h127 + pow(g, 127) * last);
    assert(horner(xh, 0, 2, g, 128) == xh[0] as int + g * h127);
    lemma_pow_adds(g, 127, 1);
    lemma_pow1(g);
    lemma_gamma_pow_128(i);
    // g E1(h) = g h127 + g^128 h[255] = g h127 - h[255] = E0(X h)  (mod q)
    assert(g * (h127 + pow(g, 127) * last) == g * h127 + pow(g, 128) * last) by (nonlinear_arith)
        requires
            pow(g, 128) == pow(g, 127) * g,
    ;
    lemma_cong_mul(pow(g, 128), last, -1, last);
    lemma_cong_add(g * h127, pow(g, 128) * last, g * h127, -1 * last);
    lemma_cong_mod(-last);
    lemma_cong_add(xh[0] as int, g * h127, -last, g * h127);
}

/// The remainder modulo `X^2 - gamma_i` of `mul_tail(a, b, i)` is the
/// product of those of the tail of `a` and of `b`.
proof fn lemma_rem2_mul_tail(a: Seq<i32>, b: Seq<i32>, i: int, idx: int)
    requires
        0 <= i <= 256,
        0 <= idx < 128,
    ensures
        pair_cong(
            rem2(mul_tail(a, b, i), gamma(idx)),
            pair_mul(tail_rem(a, i, gamma(idx)), rem2(b, gamma(idx)), gamma(idx)),
        ),
    decreases 256 - i,
{
    let g = gamma(idx);
    let rb = rem2(b, g);
    if i == 256 {
        lemma_horner_zero(0, g, 128);
        lemma_horner_zero(1, g, 128);
        assert(0 * rb.0 + 0 * rb.1 * g == 0 && 0 * rb.1 + 0 * rb.0 == 0) by (nonlinear_arith);
    } else {
        lemma_rem2_mul_tail(a, b, i + 1, idx);
        let mt1 = mul_tail(a, b, i + 1);
        let t1 = tail_rem(a, i + 1, g);
        let p = pair_mul(t1, rb, g);
        let ai = a[i] as int;
        let sb = scale(ai, b);
        let xm = mul_by_x(mt1);
        assert(mul_tail(a, b, i) == poly_add(sb, xm));
        lemma_horner_add(sb, xm, 0, g, 128);
        lemma_horner_add(sb, xm, 1, g, 128);
        lemma_horner_scale(ai, b, 0, g, 128);
        lemma_horner_scale(ai, b, 1, g, 128);
        lemma_rem2_mul_by_x(mt1, idx);
        let r1 = rem2(mt1, g);
        lemma_cong_mul(g, r1.1, g, p.1);
        // even coefficient
        lemma_cong_add(
            horner(sb, 0, 2, g, 128),
            horner(xm, 0, 2, g, 128),
            ai * rb.0,
            g * p.1,
        );
        // odd coefficient
        lemma_cong_add(horner(sb, 1, 2, g, 128), horner(xm, 1, 2, g, 128), ai * rb.1, p.0);
        let t = tail_rem(a, i, g);
        assert(t == (ai + g * t1.1, t1.0));
        assert(ai * rb.0 + g * (t1.0 * rb.1 + t1.1 * rb.0) == (ai + g * t1.1) * rb.0 + t1.0 * rb.1
            * g) by (nonlinear_arith);
        assert(ai * rb.1 + (t1.0 * rb.0 + t1.1 * rb.1 * g) == (ai + g * t1.1) * rb.1 + t1.0 * rb.0)
            by (nonlinear_arith);
    }
}

/// The NTT maps the Horner-form product to the product in the NTT domain.
proof fn lemma_ntt_of_poly_mul(a: Seq<i32>, b: Seq<i32>)
    ensures
        ntt_spec(poly_mul(a, b)) == base_mul(ntt_spec(a), ntt_spec(b)),
        inv_ntt_spec(base_mul(ntt_spec(a), ntt_spec(b))) == poly_mul(a, b),
{
    let c = poly_mul(a, b);
    let na = ntt_spec(a);
    let nb = ntt_spec(b);
    let nc = ntt_spec(c);
    law_ntt_remainders(a);
    law_ntt_remainders(b);
    law_ntt_remainders(c);
    assert forall|x: int| 0 <= x < 256 implies #[trigger] nc[x] == base_mul(na, nb)[x] by {
        let i = x / 2;
        let g = gamma(i);
        lemma_rem2_mul_tail(a, b, 0, i);
        lemma_tail_rem_even(a, 0, g);
        assert(tail_rem(a, 0, g) == rem2(a, g));
        let ra = rem2(a, g);
        let rb = rem2(b, g);
        let a0 = na[2 * i] as int;
        let a1 = na[2 * i + 1] as int;
        let b0 = nb[2 * i] as int;
        let b1 = nb[2 * i + 1] as int;
        assert(a0 == ra.0 % 3329 && a1 == ra.1 % 3329);
        assert(b0 == rb.0 % 3329 && b1 == rb.1 % 3329);
        lemma_cong_mod(ra.0);
        lemma_cong_mod(ra.1);
        lemma_cong_mod(rb.0);
        lemma_cong_mod(rb.1);
        lemma_cong_mul(a0, b0, ra.0, rb.0);
        lemma_cong_mul(a1, b1, ra.1, rb.1);
        lemma_cong_mul(a1 * b1, g, ra.1 * rb.1, g);
        lemma_cong_add(a0 * b0, a1 * b1 * g, ra.0 * rb.0, ra.1 * rb.1 * g);
        lemma_cong_mul(a0, b1, ra.0, rb.1);
        lemma_cong_mul(a1, b0, ra.1, rb.0);
        lemma_cong_add(a0 * b1, a1 * b0, ra.0 * rb.1, ra.1 * rb.0);
        assert(x == 2 * i || x == 2 * i + 1);
        assert((2 * i) / 2 == i && (2 * i + 1) / 2 == i && (2 * i) % 2 == 0 && (2 * i + 1) % 2 == 1);
    }
    assert(nc =~= base_mul(na, nb));
    law_inv_ntt_ntt(c);
}

/// Coefficient `x` of `X^k b` in `Z[X]/(X^256 + 1)`, for `0 <= k < 256`:
/// `b[x - k]`, negated when it wraps around.
pub open spec fn shifted_coeff(b: Seq<i32>, k: int, x: int) -> int {
    if k <= x {
        b[x - k] as int
    } else {
        -(b[x - k + 256] as int)
    }
}

/// `sum_{j' = j}^{255} a[j'] * (X^(j' - i) b)[x]`.
pub open spec fn conv_sum(a: Seq<i32>, b: Seq<i32>, i: int, x: int, j: int) -> int
    decreases 256 - j,
{
    if j >= 256 {
        0
    } else {
        a[j] as int * shifted_coeff(b, j - i, x) + conv_sum(a, b, i, x, j + 1)
    }
}

/// The negacyclic convolution `a b` in `Z_q[X]/(X^256 + 1)`: coefficient
/// `x` is `sum_{j <= x} a[j] b[x - j] - sum_{j > x} a[j] b[x - j + 256]`,
/// modulo q.
pub open spec fn negacyclic_mul(a: Seq<i32>, b: Seq<i32>) -> Seq<i32> {
    Seq::new(256, |x: int| (conv_sum(a, b, 0, x, 0) % 3329) as i32)
}

/// Shifting the origin of the sum by one moves coefficient `x - 1` to `x`.
proof fn lemma_conv_sum_shift(a: Seq<i32>, b: Seq<i32>, i: int, x: int, j: int)
    requires
        1 <= x < 256,
        0 <= i < j,
    ensures
        conv_sum(a, b, i + 1, x - 1, j) == conv_sum(a, b, i, x, j),
    decreases 256 - j,
{
    if j < 256 {
        lemma_conv_sum_shift(a, b, i, x, j + 1);
    }
}

/// Coefficient 0 after a shift is the negated top coefficient before it.
proof fn lemma_conv_sum_wrap(a: Seq<i32>, b: Seq<i32>, i: int, j: int)
    requires
        0 <= i < j,
    ensures
        -conv_sum(a, b, i + 1, 255, j) == conv_sum(a, b, i, 0, j),
    decreases 256 - j,
{
    if j < 256 {
        lemma_conv_sum_wrap(a, b, i, j + 1);
        let aj = a[j] as int;
        let bv = b[256 - j + i] as int;
        assert(shifted_coeff(b, j - (i + 1), 255) == bv);
        assert(shifted_coeff(b, j - i, 0) == -bv);
        assert(-(aj * bv) == aj * (-bv)) by (nonlinear_arith);
    }
}

/// `mul_tail(a, b, i)` has the coefficients of `sum_{j >= i} a[j] X^(j - i) b`.
proof fn lemma_mul_tail_conv(a: Seq<i32>, b: Seq<i32>, i: int, x: int)
    requires
        0 <= i <= 256,
        0 <= x < 256,
    ensures
        cong(mul_tail(a, b, i)[x] as int, conv_sum(a, b, i, x, i)),
    decreases 256 - i,
{
    if i < 256 {
        let m = mul_tail(a, b, i + 1);
        let ai = a[i] as int;
        let sb = (ai * b[x]) % 3329;
        lemma_cong_mod(ai * b[x]);
        let rest = conv_sum(a, b, i, x, i + 1);
        if x >= 1 {
            lemma_mul_tail_conv(a, b, i + 1, x - 1);
            lemma_conv_sum_shift(a, b, i, x, i + 1);
            assert(mul_by_x(m)[x] == m[x - 1]);
            lemma_cong_add(sb, m[x - 1] as int, ai * b[x], rest);
            lemma_cong_mod(sb + m[x - 1] as int);
        } else {
            lemma_mul_tail_conv(a, b, i + 1, 255);
            lemma_conv_sum_wrap(a, b, i, i + 1);
            let top = m[255] as int;
            lemma_cong_sub(0, top, 0, conv_sum(a, b, i + 1, 255, i + 1));
            lemma_cong_mod(-top);
            assert(mul_by_x(m)[0] as int == (-top) % 3329);
            lemma_cong_add(sb, (-top) % 3329, ai * b[x], rest);
            lemma_cong_mod(sb + (-top) % 3329);
        }
        assert(shifted_coeff(b, 0, x) == b[x] as int);
    }
}

/// The Horner-form product is the negacyclic convolution.
proof fn lemma_poly_mul_is_negacyclic(a: Seq<i32>, b: Seq<i32>)
    ensures
        poly_mul(a, b) == negacyclic_mul(a, b),
{
    assert forall|x: int| 0 <= x < 256 implies #[trigger] poly_mul(a, b)[x] == negacyclic_mul(
        a,
        b,
    )[x] by {
        lemma_mul_tail_conv(a, b, 0, x);
        lemma_small_mod(poly_mul(a, b)[x] as nat, 3329);
    }
    assert(poly_mul(a, b) =~= negacyclic_mul(a, b));
}

/// Multiplication in the NTT domain is multiplication of polynomials in
/// `Z_q[X]/(X^256 + 1)`: `NTT(a b) = NTT(a) * NTT(b)`, and so
/// `NTT^-1(NTT(a) * NTT(b)) = a b`, where `a b` is the negacyclic
/// convolution.
pub proof fn law_ntt_multiplication(a: Seq<i32>, b: Seq<i32>)
    ensures
        ntt_spec(negacyclic_mul(a, b)) == base_mul(ntt_spec(a), ntt_spec(b)),
        inv_ntt_spec(base_mul(ntt_spec(a), ntt_spec(b))) == negacyclic_mul(a, b),
{
    lemma_ntt_of_poly_mul(a, b);
    lemma_poly_mul_is_negacyclic(a, b);
}

/// `sum_{j < n} u_j v_j` in `Z_q[X]/(X^256 + 1)`.
pub open spec fn ring_dot(u: Seq<Seq<i32>>, v: Seq<Seq<i32>>, n: int) -> Seq<i32> {
    psum(|j: int| negacyclic_mul(u[j], v[j]), n)
}

/// The inverse NTT of zero is zero.
proof fn lemma_inv_ntt_zero()
    ensures
        inv_ntt_spec(poly_zero()) == poly_zero(),
{
    let z = poly_zero();
    let iz = inv_ntt_spec(z);
    lemma_inv_ntt_add(z, z);
    assert(poly_add(z, z) =~= z);
    assert forall|x: int| 0 <= x < 256 implies #[trigger] iz[x] == z[x] by {
        let v = iz[x] as int;
        assert(poly_add(iz, iz)[x] as int == (v + v) % 3329);
        assert(v == (v + v) % 3329);
    }
    assert(iz =~= z);
}

/// The inverse NTT of a sum is the sum of the inverse NTTs.
pub proof fn lemma_inv_ntt_psum(t: spec_fn(int) -> Seq<i32>, n: int)
    ensures
        inv_ntt_spec(psum(t, n)) == psum(|j: int| inv_ntt_spec(t(j)), n),
    decreases n,
{
    if n <= 0 {
        lemma_inv_ntt_zero();
    } else {
        lemma_inv_ntt_psum(t, n - 1);
        lemma_inv_ntt_add(psum(t, n - 1), t(n - 1));
    }
}

/// A dot product of NTTs, brought back by the inverse NTT, is the dot
/// product in `Z_q[X]/(X^256 + 1)`.
pub proof fn lemma_inv_ntt_dot(u: Seq<Seq<i32>>, v: Seq<Seq<i32>>, uh: Seq<Seq<i32>>, vh: Seq<Seq<i32>>, n: int)
    requires
        forall|j: int| 0 <= j < n ==> #[trigger] uh[j] == ntt_spec(u[j]),
        forall|j: int| 0 <= j < n ==> #[trigger] vh[j] == ntt_spec(v[j]),
    ensures
        inv_ntt_spec(dot_spec(uh, vh, n)) == ring_dot(u, v, n),
{
    let t = |j: int| base_mul(uh[j], vh[j]);
    lemma_dot_psum(uh, vh, n);
    lemma_inv_ntt_psum(t, n);
    assert forall|j: int| 0 <= j < n implies #[trigger] inv_ntt_spec(t(j)) == negacyclic_mul(
        u[j],
        v[j],
    ) by {
        assert(uh[j] == ntt_spec(u[j]));
        assert(vh[j] == ntt_spec(v[j]));
        law_ntt_multiplication(u[j], v[j]);
    }
    lemma_psum_ext(
        |j: int| inv_ntt_spec(t(j)),
        |j: int| negacyclic_mul(u[j], v[j]),
        n,
    );
}

} // verus!
