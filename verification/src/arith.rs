//! Modular arithmetic modulo q = 3329: reductions, powers of the root of
//! unity 17, bit reversal, and the rounding maps `Compress_d` and
//! `Decompress_d` with their round-trip laws.
use vstd::arithmetic::div_mod::*;
use vstd::arithmetic::mul::*;
use vstd::arithmetic::power::*;
use vstd::arithmetic::power2::*;
use vstd::bits::*;
use vstd::prelude::*;

verus! {

/// The Euclidean remainder of a negated non-negative number.
pub proof fn lemma_mod_of_negation(a: int, m: int)
    requires
        a >= 0,
        m > 0,
    ensures
        (-a) % m == (if a % m == 0 { 0 } else { m - a % m }),
{
    let q = a / m;
    let r = a % m;
    lemma_fundamental_div_mod(a, m);
    assert(-a == (-q) * m - r) by (nonlinear_arith)
        requires
            a == m * q + r,
    ;
    if r == 0 {
        lemma_fundamental_div_mod_converse_mod(-a, m, -q, 0);
    } else {
        assert(-a == (-q - 1) * m + (m - r)) by (nonlinear_arith)
            requires
                -a == (-q) * m - r,
        ;
        lemma_fundamental_div_mod_converse_mod(-a, m, -q - 1, m - r);
    }
}

/// Reduction of a 32-bit integer into `[0, modulus)`.
pub fn modq(x: i32, modulus: i32) -> (r: i32)
    requires
        modulus > 0,
    ensures
        r as int == x as int % modulus as int,
{
    let r = x % modulus;
    proof {
        if x < 0 {
            assert(r as int == -((-(x as int)) % modulus as int));
            lemma_mod_of_negation(-(x as int), modulus as int);
        }
    }
    if r < 0 {
        r + modulus
    } else {
        r
    }
}

/// Reduction of a 64-bit integer into `[0, modulus)`.
pub fn modq64(x: i64, modulus: i32) -> (r: i32)
    requires
        modulus > 0,
    ensures
        r as int == x as int % modulus as int,
{
    let r = (x % (modulus as i64)) as i32;
    proof {
        if x < 0 {
            lemma_mod_of_negation(-(x as int), modulus as int);
        }
    }
    if r < 0 {
        r + modulus
    } else {
        r
    }
}

/// One squaring step of binary exponentiation keeps the running product
/// congruent to the full power.
proof fn lemma_pow_mod_step(res: int, b: int, e: nat, m: int)
    requires
        m > 0,
        e > 0,
    ensures
        (res * pow(b, e)) % m == ((if e % 2 == 1 { (res * b) % m } else { res }) * pow(
            (b * b) % m,
            e / 2,
        )) % m,
{
    let h = e / 2;
    let bit = e % 2;
    let bb = b * b;
    lemma_square_is_pow2(b);
    lemma_pow_multiplies(b, 2, h);
    lemma_pow_adds(b, 2 * h, bit);
    lemma_pow1(b);
    lemma_pow0(b);
    assert(pow(b, e) == pow(bb, h) * pow(b, bit));
    let res2 = if bit == 1 { (res * b) % m } else { res };
    // res * pow(b, e) == (res * pow(b, bit)) * pow(bb, h)
    assert(res * pow(b, e) == (res * pow(b, bit)) * pow(bb, h)) by (nonlinear_arith)
        requires
            pow(b, e) == pow(bb, h) * pow(b, bit),
    ;
    lemma_pow_mod_noop(bb, h, m);
    lemma_mul_mod_noop_general(res * pow(b, bit), pow(bb, h), m);
    lemma_mul_mod_noop_general(res2, pow(bb % m, h), m);
    if bit == 1 {
        lemma_mul_mod_noop_general(res * b, pow(bb % m, h), m);
        lemma_mod_twice(res * b, m);
    }
}

/// Modular exponentiation by repeated squaring.
pub fn pow_mod(base: u64, exp: u64, modu: u64) -> (r: u64)
    requires
        modu > 0,
        (modu - 1) * (modu - 1) <= u64::MAX,
    ensures
        r as int == (if exp == 0 {
            1
        } else {
            pow(base as int, exp as nat) % modu as int
        }),
{
    let ghost b0 = base as int;
    let ghost e0 = exp as nat;
    let mut base = base % modu;
    let mut exp = exp;
    let mut result: u64 = 1;
    proof {
        lemma_pow_mod_noop(b0, e0, modu as int);
    }
    while exp > 0
        invariant
            modu > 0,
            (modu - 1) * (modu - 1) <= u64::MAX,
            base < modu,
            result < modu || result == 1,
            (result * pow(base as int, exp as nat)) % modu as int == pow(b0, e0) % modu as int,
            e0 > 0 ==> (exp > 0 || result < modu),
            e0 == 0 ==> result == 1 && exp == 0,
        decreases exp,
    {
        proof {
            lemma_pow_mod_step(result as int, base as int, exp as nat, modu as int);
        }
        assert(exp & 1 == exp % 2) by (bit_vector);
        assert(exp >> 1 == exp / 2) by (bit_vector);
        if (exp & 1) == 1 {
            assert(result * base <= (modu - 1) * (modu - 1)) by (nonlinear_arith)
                requires
                    result < modu || result == 1,
                    base < modu,
                    modu > 0,
            ;
            result = (result * base) % modu;
        }
        assert(base * base <= (modu - 1) * (modu - 1)) by (nonlinear_arith)
            requires
                base < modu,
        ;
        base = (base * base) % modu;
        exp >>= 1;
    }
    proof {
        lemma_pow0(base as int);
        assert(exp == 0);
        assert(result * pow(base as int, 0) == result);
        if e0 > 0 {
            lemma_small_mod(result as nat, modu as nat);
            assert(result as int == pow(b0, e0) % modu as int);
        }
    }
    result
}

/// A left shift of a non-negative `i32` that does not overflow multiplies
/// by a power of two.
pub proof fn lemma_i32_shl(x: i32, d: i32)
    requires
        0 <= x,
        0 <= d < 31,
        x * pow2(d as nat) <= i32::MAX,
    ensures
        x << d == x * pow2(d as nat),
{
    let ux = x as u32;
    let ud = d as u32;
    lemma_u32_shl_is_mul(ux, ud);
    assert(x << ud == (ux << ud) as i32) by (bit_vector)
        requires
            ux == x as u32,
            0 <= x,
            ud < 31,
    ;
    assert(x << d == x << ud);
}

/// A right shift of a non-negative `i32` divides by a power of two.
pub proof fn lemma_i32_shr(x: i32, d: i32)
    requires
        0 <= x,
        0 <= d < 31,
    ensures
        x >> d == x as int / (pow2(d as nat) as int),
{
    let ux = x as u32;
    let ud = d as u32;
    lemma_u32_shr_is_div(ux, ud);
    assert(x >> ud == (ux >> ud) as i32) by (bit_vector)
        requires
            ux == x as u32,
            0 <= x,
            ud < 31,
    ;
    assert(x >> d == x >> ud);
}

/// `1 << d` for an `i32` is `2^d`.
pub proof fn lemma_i32_one_shl(d: i32)
    requires
        0 <= d < 31,
    ensures
        (1i32 << d) == pow2(d as nat),
        pow2(d as nat) <= 0x4000_0000,
{
    lemma_pow2_strictly_increases_or_eq(d as nat, 30);
    lemma2_to64();
    lemma_i32_shl(1, d);
}

proof fn lemma_pow2_strictly_increases_or_eq(a: nat, b: nat)
    requires
        a <= b,
    ensures
        pow2(a) <= pow2(b),
{
    if a < b {
        lemma_pow2_strictly_increases(a, b);
    }
}

/// The modulus of ML-KEM.
pub const Q: i32 = 3329;

/// `Compress_d(x) = round(2^d / q * x) mod 2^d`.
pub open spec fn compress_spec(d: nat, x: int) -> int {
    ((x * pow2(d) + 1664) / 3329) % (pow2(d) as int)
}

/// `Decompress_d(y) = round(q / 2^d * y)`, reduced modulo q.
pub open spec fn decompress_spec(d: nat, y: int) -> int {
    ((y * 3329 + pow2((d - 1) as nat)) / (pow2(d) as int)) % 3329
}

/// `Compress_d(Decompress_d(y)) = y` for every `y` in `[0, 2^d)` and
/// `d < 12`.
pub proof fn law_compress_decompress(d: nat, y: int)
    requires
        1 <= d <= 11,
        0 <= y < pow2(d),
    ensures
        compress_spec(d, decompress_spec(d, y)) == y,
{
    let pd = pow2(d) as int;
    let h = pow2((d - 1) as nat) as int;
    lemma_pow2_unfold(d);
    lemma_pow2_pos((d - 1) as nat);
    lemma2_to64();
    assert(pd <= 2048) by {
        if d < 11 {
            lemma_pow2_strictly_increases(d, 11);
        }
    }
    let num = y * 3329 + h;
    let x0 = num / pd;
    lemma_fundamental_div_mod(num, pd);
    let r = num % pd;
    assert(0 <= r < pd);
    // the quotient is already below q
    assert(num < pd * 3329) by (nonlinear_arith)
        requires
            num == y * 3329 + h,
            y + 1 <= pd,
            h < 3329,
    ;
    if x0 >= 3329 {
        assert(pd * x0 >= pd * 3329) by (nonlinear_arith)
            requires
                x0 >= 3329,
                pd > 0,
        ;
    }
    assert(x0 >= 0) by (nonlinear_arith)
        requires
            num == pd * x0 + r,
            r < pd,
            num >= 0,
            pd > 0,
    ;
    lemma_small_mod(x0 as nat, 3329);
    assert(decompress_spec(d, y) == x0);
    // x0 * 2^d + 1664 lies in [y q, y q + q)
    let e = x0 * pd + 1664 - y * 3329;
    assert(0 <= e < 3329) by (nonlinear_arith)
        requires
            num == pd * x0 + r,
            num == y * 3329 + h,
            e == x0 * pd + 1664 - y * 3329,
            0 <= r < pd,
            pd == 2 * h,
            h <= 1024,
    ;
    lemma_fundamental_div_mod_converse(x0 * pd + 1664, 3329, y, e);
    lemma_small_mod(y as nat, pd as nat);
}

/// The distance between `a` and `b` modulo q: `|a - b mod± q|`.
pub open spec fn mod_q_distance(a: int, b: int) -> int {
    let r = (a - b) % 3329;
    if r <= 1664 {
        r
    } else {
        3329 - r
    }
}

/// `Decompress_d(Compress_d(x))` is within `round(q / 2^(d+1))` of `x`,
/// modulo q, for every `x` in `[0, q)` and `d < 12`.
pub proof fn law_decompress_compress(d: nat, x: int)
    requires
        1 <= d <= 11,
        0 <= x < 3329,
    ensures
        mod_q_distance(decompress_spec(d, compress_spec(d, x)), x) <= (3329 + pow2(d)) / (2
            * pow2(d)),
{
    let pd = pow2(d) as int;
    let h = pow2((d - 1) as nat) as int;
    lemma_pow2_unfold(d);
    lemma_pow2_pos((d - 1) as nat);
    lemma2_to64();
    assert(pd <= 2048) by {
        if d < 11 {
            lemma_pow2_strictly_increases(d, 11);
        }
    }
    let bnd = (3329 + pd) / (2 * pd);
    lemma_fundamental_div_mod(3329 + pd, 2 * pd);
    let num1 = x * pd + 1664;
    let y0 = num1 / 3329;
    let r1 = num1 % 3329;
    lemma_fundamental_div_mod(num1, 3329);
    assert(0 <= y0 <= pd) by (nonlinear_arith)
        requires
            num1 == 3329 * y0 + r1,
            0 <= r1 < 3329,
            num1 == x * pd + 1664,
            0 <= x <= 3328,
            pd >= 2,
    ;
    if y0 < pd {
        lemma_small_mod(y0 as nat, pd as nat);
        assert(compress_spec(d, x) == y0);
        let num2 = y0 * 3329 + h;
        let x1 = num2 / pd;
        let r2 = num2 % pd;
        lemma_fundamental_div_mod(num2, pd);
        assert(num2 < pd * 3329) by (nonlinear_arith)
            requires
                num2 == y0 * 3329 + h,
                y0 + 1 <= pd,
                h < 3329,
        ;
        if x1 >= 3329 {
            assert(pd * x1 >= pd * 3329) by (nonlinear_arith)
                requires
                    x1 >= 3329,
                    pd > 0,
            ;
        }
        assert(x1 >= 0) by (nonlinear_arith)
            requires
                num2 == pd * x1 + r2,
                r2 < pd,
                num2 >= 0,
                pd > 0,
        ;
        lemma_small_mod(x1 as nat, 3329);
        assert(decompress_spec(d, y0) == x1);
        let delta = x1 - x;
        assert(pd * delta == 1664 + h - r1 - r2) by (nonlinear_arith)
            requires
                num2 == pd * x1 + r2,
                num2 == y0 * 3329 + h,
                num1 == 3329 * y0 + r1,
                num1 == x * pd + 1664,
                delta == x1 - x,
        ;
        let ad = if delta >= 0 {
            delta
        } else {
            -delta
        };
        assert(ad * (2 * pd) <= 3328 + pd) by (nonlinear_arith)
            requires
                pd * delta == 1664 + h - r1 - r2,
                0 <= r1 < 3329,
                0 <= r2 < pd,
                pd == 2 * h,
                ad == if delta >= 0 {
                    delta
                } else {
                    -delta
                },
        ;
        assert(ad <= bnd) by (nonlinear_arith)
            requires
                ad * (2 * pd) <= 3328 + pd,
                3329 + pd == (2 * pd) * bnd + (3329 + pd) % (2 * pd),
                0 <= (3329 + pd) % (2 * pd),
                pd > 0,
        ;
        assert(bnd <= 832) by (nonlinear_arith)
            requires
                3329 + pd == (2 * pd) * bnd + (3329 + pd) % (2 * pd),
                0 <= (3329 + pd) % (2 * pd),
                pd >= 2,
        ;
        if delta >= 0 {
            lemma_small_mod(delta as nat, 3329);
        } else {
            lemma_fundamental_div_mod_converse(delta, 3329, -1, delta + 3329);
        }
    } else {
        assert(y0 == pd);
        lemma_mod_self_0(pd);
        assert(compress_spec(d, x) == 0);
        lemma_small_div_converse_local(h, pd);
        assert(decompress_spec(d, 0) == 0);
        assert(pd * (3329 - x) <= 1664) by (nonlinear_arith)
            requires
                num1 == 3329 * y0 + r1,
                0 <= r1,
                num1 == x * pd + 1664,
                y0 == pd,
        ;
        assert((3329 - x) * (2 * pd) <= 3328 + pd) by (nonlinear_arith)
            requires
                pd * (3329 - x) <= 1664,
                pd >= 0,
        ;
        assert(3329 - x <= bnd) by (nonlinear_arith)
            requires
                (3329 - x) * (2 * pd) <= 3328 + pd,
                3329 + pd == (2 * pd) * bnd + (3329 + pd) % (2 * pd),
                0 <= (3329 + pd) % (2 * pd),
                pd > 0,
        ;
        assert(bnd <= 832) by (nonlinear_arith)
            requires
                3329 + pd == (2 * pd) * bnd + (3329 + pd) % (2 * pd),
                0 <= (3329 + pd) % (2 * pd),
                pd >= 2,
        ;
        lemma_fundamental_div_mod_converse(-x, 3329, -1, 3329 - x);
    }
}

proof fn lemma_small_div_converse_local(h: int, pd: int)
    requires
        0 <= h < pd,
    ensures
        h / pd == 0,
        (h / pd) % 3329 == 0,
{
    lemma_fundamental_div_mod_converse(h, pd, 0, h);
}

/// `Compress_d(x)`: rounds `x * 2^d / q` to the nearest integer, reduced
/// modulo `2^d`.
pub fn compress(d: usize, x: i32) -> (r: i32)
    requires
        d < 31,
        0 <= x,
        x * pow2(d as nat) + 1664 <= i32::MAX,
    ensures
        r as int == compress_spec(d as nat, x as int),
{
    let s = d as i32;
    proof {
        lemma_i32_shl(x, s);
        lemma_i32_one_shl(s);
    }
    proof {
        lemma_pow2_pos(d as nat);
    }
    (((x << s) + Q / 2) / Q) % (1 << s)
}

/// `Decompress_d(y)`: rounds `y * q / 2^d` to the nearest integer, reduced
/// modulo `q`.
pub fn decompress(d: usize, y: i32) -> (r: i32)
    requires
        1 <= d < 31,
        0 <= y,
        y * 3329 + pow2((d - 1) as nat) <= i32::MAX,
    ensures
        r as int == decompress_spec(d as nat, y as int),
{
    let s = d as i32;
    proof {
        lemma_i32_one_shl((s - 1) as i32);
        lemma_pow2_pos((d - 1) as nat);
    }
    let t = y * Q + (1 << (s - 1));
    proof {
        lemma_i32_shr(t, s);
        lemma_pow2_pos(d as nat);
    }
    (t >> s) % Q
}

/// The 7-bit reversal of the low seven bits of `k`.
pub open spec fn bitrev7(k: usize) -> usize {
    ((k & 1) << 6) | (((k >> 1) & 1) << 5) | (((k >> 2) & 1) << 4) | (((k >> 3) & 1) << 3) | (((
    k >> 4) & 1) << 2) | (((k >> 5) & 1) << 1) | ((k >> 6) & 1)
}

/// The bit positions 6, 5, ..., 7 - i of a seven-bit value.
spec fn high_mask(i: usize) -> usize {
    (((1usize << i) - 1) as usize) << ((7 - i) as usize)
}

/// Reverses the low seven bits of `k`.
pub fn bitrev(k: usize) -> (r: usize)
    ensures
        r == bitrev7(k),
        r < 128,
{
    let mut result = 0usize;
    assert(0usize == bitrev7(k) & high_mask(0)) by (bit_vector);
    for i in 0..7
        invariant
            result == bitrev7(k) & high_mask(i),
    {
        let ghost old_result = result;
        if (k & (1 << i)) != 0 {
            result |= 1 << (6 - i);
        }
        assert(result == bitrev7(k) & high_mask((i + 1) as usize)) by (bit_vector)
            requires
                i < 7,
                old_result == bitrev7(k) & high_mask(i),
                result == if (k & (1usize << i)) != 0 { old_result | (1usize << ((6 - i) as usize)) } else { old_result },
        ;
    }
    assert(bitrev7(k) & high_mask(7) == bitrev7(k)) by (bit_vector);
    assert(bitrev7(k) < 128) by (bit_vector);
    result
}

/// `17^e mod q`, a power of the primitive 256-th root of unity.
pub open spec fn root_pow(e: nat) -> int {
    pow(17, e) % 3329
}

/// `zeta^exp mod q` with `zeta = 17`.
pub fn calc_zeta(exp: usize) -> (r: i32)
    ensures
        r as int == root_pow(exp as nat),
        0 <= r < 3329,
{
    let r = pow_mod(17, exp as u64, 3329);
    proof {
        lemma_pow0(17);
        lemma_mod_bound(pow(17, exp as nat), 3329);
    }
    r as i32
}

/// `zeta^BitRev7(k) mod q`.
pub fn zeta(k: usize) -> (r: i32)
    ensures
        r as int == root_pow(bitrev7(k) as nat),
        0 <= r < 3329,
{
    calc_zeta(bitrev(k))
}

/// `zeta^(2 BitRev7(k) + 1) mod q`.
pub fn zeta2(k: usize) -> (r: i32)
    ensures
        r as int == root_pow((2 * bitrev7(k) + 1) as nat),
        0 <= r < 3329,
{
    let r = bitrev(k);
    calc_zeta(2 * r + 1)
}

/// The exponents used by a forward NTT block and by the inverse NTT block
/// at the same position add up to 128.
pub proof fn lemma_bitrev_pair(l: usize, b: usize)
    requires
        l < 7,
        b < (1usize << l),
    ensures
        bitrev7(((1usize << l) + b) as usize) + bitrev7(((2usize << l) - 1 - b) as usize) == 128,
{
    assert(bitrev7(((1usize << l) + b) as usize) + bitrev7(((2usize << l) - 1 - b) as usize) == 128) by (bit_vector)
        requires
            l < 7,
            b < (1usize << l),
    ;
}

/// Squaring step for powers of 17 modulo q.
proof fn lemma_root_pow_double(e: nat)
    ensures
        root_pow(2 * e) == (root_pow(e) * root_pow(e)) % 3329,
{
    lemma_pow_adds(17, e, e);
    assert(2 * e == e + e);
    lemma_mul_mod_noop_general(pow(17, e), pow(17, e), 3329);
}

/// `17^128 = -1 (mod q)`: 17 is a primitive 256-th root of unity.
pub proof fn lemma_root_pow_128()
    ensures
        root_pow(128) == 3328,
{
    lemma_pow1(17);
    assert(root_pow(1) == 17);
    lemma_root_pow_double(1);
    assert(root_pow(2) == 289);
    lemma_root_pow_double(2);
    assert(root_pow(4) == 296);
    lemma_root_pow_double(4);
    assert(root_pow(8) == 1062);
    lemma_root_pow_double(8);
    assert(root_pow(16) == 2642);
    lemma_root_pow_double(16);
    assert(root_pow(32) == 2580);
    lemma_root_pow_double(32);
    assert(root_pow(64) == 1729);
    lemma_root_pow_double(64);
}

/// Two powers of 17 whose exponents add up to 128 multiply to `-1` modulo q.
pub proof fn lemma_root_pow_product(a: nat, b: nat)
    requires
        a + b == 128,
    ensures
        (root_pow(a) * root_pow(b)) % 3329 == 3328,
{
    lemma_pow_adds(17, a, b);
    lemma_mul_mod_noop_general(pow(17, a), pow(17, b), 3329);
    lemma_root_pow_128();
}

} // verus!
