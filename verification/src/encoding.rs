//! Bit and byte conversions and `ByteEncode_d` / `ByteDecode_d`
//! (Algorithms 3 to 6 of FIPS 203), with their round-trip laws.
use crate::arith::{lemma_i32_one_shl, lemma_i32_shr, Q};
use crate::poly::N;
use vstd::arithmetic::div_mod::*;
use vstd::arithmetic::mul::*;
use vstd::arithmetic::power2::*;
use vstd::prelude::*;

verus! {

/// Bit `j` (least significant first) of a byte.
pub open spec fn byte_bit(x: u8, j: int) -> bool {
    (x >> (j as u8)) & 1u8 == 1u8
}

/// The first `n` bits of the little-endian bit stream of `b`, padded with
/// zero bits past its end.
pub open spec fn padded_bits(b: Seq<u8>, n: nat) -> Seq<bool> {
    Seq::new(n, |t: int| t < 8 * b.len() && byte_bit(b[t / 8], t % 8))
}

/// Algorithm 4 of FIPS 203, `BytesToBits`.
pub open spec fn bytes_to_bits(b: Seq<u8>) -> Seq<bool> {
    padded_bits(b, 8 * b.len())
}

/// `sum_{j < n} bits[start + j] * 2^j`.
pub open spec fn bits_value(bits: Seq<bool>, start: int, n: nat) -> nat
    decreases n,
{
    if n == 0 {
        0
    } else {
        bits_value(bits, start, (n - 1) as nat) + if bits[start + n - 1] {
            pow2((n - 1) as nat)
        } else {
            0
        }
    }
}

/// Number of bytes needed to hold `n` bits.
pub open spec fn byte_len(n: nat) -> nat {
    (n + 7) / 8
}

/// Algorithm 3 of FIPS 203, `BitsToBytes`, extended to bit strings whose
/// length is not a multiple of eight (the last byte takes the remaining bits).
pub open spec fn bits_to_bytes(bits: Seq<bool>) -> Seq<u8> {
    Seq::new(
        byte_len(bits.len()),
        |i: int|
            bits_value(
                bits,
                8 * i,
                if bits.len() - 8 * i < 8 {
                    (bits.len() - 8 * i) as nat
                } else {
                    8
                },
            ) as u8,
    )
}

/// `bits_value` of `n <= 8` bits fits below `2^n`.
pub proof fn lemma_bits_value_bound(bits: Seq<bool>, start: int, n: nat)
    ensures
        bits_value(bits, start, n) < pow2(n),
    decreases n,
{
    if n == 0 {
        lemma2_to64();
    } else {
        lemma_bits_value_bound(bits, start, (n - 1) as nat);
        lemma_pow2_unfold(n);
    }
}

/// Setting a fresh high bit adds its weight.
proof fn lemma_u8_or_bit(x: u8, j: u8)
    requires
        j < 8,
        x < pow2(j as nat),
    ensures
        x | (1u8 << j) == x + pow2(j as nat),
        x + pow2(j as nat) < pow2((j + 1) as nat),
{
    lemma_u8_pow2_no_overflow_local(j as nat);
    vstd::bits::lemma_u8_shl_is_mul(1, j);
    lemma_pow2_unfold((j + 1) as nat);
    let p = 1u8 << j;
    assert(x | p == x + p) by (bit_vector)
        requires
            j < 8,
            p == 1u8 << j,
            x < p,
    ;
}

proof fn lemma_u8_pow2_no_overflow_local(n: nat)
    requires
        n < 8,
    ensures
        pow2(n) <= 128,
{
    lemma2_to64();
}

/// Algorithm 3: packs bits into bytes, least significant bit first; writes
/// at most `result.len()` bytes and leaves the rest of `result` as it was.
pub fn to_bytes(bits: &[bool], result: &mut [u8])
    ensures
        ({
            let n = if old(result).len() < byte_len(bits@.len()) {
                old(result).len() as int
            } else {
                byte_len(bits@.len()) as int
            };
            final(result)@ == bits_to_bytes(bits@).take(n) + old(result)@.skip(n)
        }),
{
    let ghost n = if old(result).len() < byte_len(bits@.len()) {
        old(result).len() as int
    } else {
        byte_len(bits@.len()) as int
    };
    let nchunks = bits.len() / 8 + (if bits.len() % 8 == 0 {
        0
    } else {
        1
    });
    let mut i: usize = 0;
    while i < result.len() && i < nchunks
        invariant
            result.len() == old(result).len(),
            nchunks == byte_len(bits@.len()),
            i <= n,
            n == if result.len() < byte_len(bits@.len()) {
                result.len() as int
            } else {
                byte_len(bits@.len()) as int
            },
            forall|x: int| 0 <= x < i ==> #[trigger] result@[x] == bits_to_bytes(bits@)[x],
            forall|x: int| i <= x < result.len() ==> #[trigger] result@[x] == old(result)@[x],
        decreases result.len() - i,
    {
        assert(8 * i < bits.len()) by {
            lemma_fundamental_div_mod(bits.len() as int, 8);
        }
        let start = 8 * i;
        let chunk_len = if bits.len() - start < 8 {
            bits.len() - start
        } else {
            8
        };
        let mut byte = 0u8;
        let mut j: usize = 0;
        proof {
            lemma2_to64();
        }
        while j < chunk_len
            invariant
                chunk_len <= 8,
                start + chunk_len <= bits.len(),
                j <= chunk_len,
                byte as nat == bits_value(bits@, start as int, j as nat),
                byte < pow2(j as nat),
            decreases chunk_len - j,
        {
            proof {
                lemma_u8_or_bit(byte, j as u8);
            }
            if bits[start + j] {
                byte |= 1 << (j as u8);
            } else {
                proof {
                    lemma_pow2_strictly_increases(j as nat, (j + 1) as nat);
                }
            }
            j += 1;
        }
        result[i] = byte;
        i += 1;
    }
    assert(result@ =~= bits_to_bytes(bits@).take(n) + old(result)@.skip(n));
}

/// Algorithm 4: unpacks bytes into bits, least significant bit first;
/// writes at most `bits.len()` bits and leaves the rest as it was.
pub fn to_bits(b: &[u8], bits: &mut [bool])
    ensures
        ({
            let n = if old(bits).len() < 8 * b@.len() {
                old(bits).len() as int
            } else {
                8 * b@.len() as int
            };
            final(bits)@ == bytes_to_bits(b@).take(n) + old(bits)@.skip(n)
        }),
{
    let ghost n = if old(bits).len() < 8 * b@.len() {
        old(bits).len() as int
    } else {
        8 * b@.len() as int
    };
    let mut idx: usize = 0;
    for i in 0..b.len()
        invariant
            bits.len() == old(bits).len(),
            n == if old(bits).len() < 8 * b@.len() {
                old(bits).len() as int
            } else {
                8 * b@.len() as int
            },
            idx == if 8 * i < bits.len() {
                8 * i
            } else {
                bits.len() as int
            },
            forall|t: int| 0 <= t < idx ==> #[trigger] bits@[t] == bytes_to_bits(b@)[t],
            forall|t: int| idx <= t < bits.len() ==> #[trigger] bits@[t] == old(bits)@[t],
    {
        let byte = b[i];
        for j in 0..8u8
            invariant
                bits.len() == old(bits).len(),
                i < b.len(),
                byte == b@[i as int],
                idx == if 8 * i + j < bits.len() {
                    8 * i + j
                } else {
                    bits.len() as int
                },
                forall|t: int| 0 <= t < idx ==> #[trigger] bits@[t] == bytes_to_bits(b@)[t],
                forall|t: int| idx <= t < bits.len() ==> #[trigger] bits@[t] == old(bits)@[t],
        {
            if idx < bits.len() {
                assert((8 * i + j) as int / 8 == i && (8 * i + j) as int % 8 == j);
                bits[idx] = (byte >> j) & 1 == 1;
                idx += 1;
            }
        }
    }
    assert(bits@ =~= bytes_to_bits(b@).take(n) + old(bits)@.skip(n));
}

/// Bit `j` of the non-negative integer `v`.
pub open spec fn int_bit(v: int, j: nat) -> bool {
    (v / pow2(j) as int) % 2 == 1
}

/// The `d`-bit little-endian representations of the 256 coefficients,
/// concatenated.
pub open spec fn encode_bits(d: nat, f: Seq<i32>) -> Seq<bool> {
    Seq::new(256 * d, |t: int| int_bit(f[t / d as int] as int, (t % d as int) as nat))
}

/// Algorithm 5 of FIPS 203, `ByteEncode_d`.
pub open spec fn encode_spec(d: nat, f: Seq<i32>) -> Seq<u8> {
    bits_to_bytes(encode_bits(d, f))
}

/// All coefficients are non-negative.
pub open spec fn nonneg_coeffs(f: Seq<i32>) -> bool {
    forall|i: int| 0 <= i < 256 ==> 0 <= #[trigger] f[i]
}

proof fn lemma_index_split(i: int, j: int, d: int)
    requires
        0 <= j < d,
        0 <= i,
    ensures
        (i * d + j) / d == i,
        (i * d + j) % d == j,
{
    lemma_fundamental_div_mod_converse(i * d + j, d, i, j);
}

/// Algorithm 5: `ByteEncode_d`, writing `min(out.len(), 32 d)` bytes and
/// leaving the rest of `out` as it was.
pub fn encode(d: usize, f: &[i32; N], out: &mut [u8])
    requires
        d <= 12,
        nonneg_coeffs(f@),
    ensures
        ({
            let n = if old(out).len() < 32 * d {
                old(out).len() as int
            } else {
                32 * d as int
            };
            final(out)@ == encode_spec(d as nat, f@).take(n) + old(out)@.skip(n)
        }),
{
    let mut bits = [false; 3072];
    let mut bit_idx: usize = 0;
    assert(0 * d == 0) by (nonlinear_arith);
    for i in 0..N
        invariant
            d <= 12,
            nonneg_coeffs(f@),
            bit_idx == i * d,
            forall|t: int| 0 <= t < bit_idx ==> #[trigger] bits@[t] == encode_bits(d as nat, f@)[t],
    {
        let mut a = f[i];
        let ghost v = f@[i as int] as int;
        proof {
            lemma2_to64();
        }
        assert(i * d + d <= 3072) by (nonlinear_arith)
            requires
                i < 256,
                d <= 12,
        ;
        for j in 0..d
            invariant
                d <= 12,
                i < 256,
                i * d + d <= 3072,
                bit_idx == i * d + j,
                0 <= v,
                v == f@[i as int],
                a as int == v / pow2(j as nat) as int,
                0 <= a,
                forall|t: int|
                    0 <= t < bit_idx ==> #[trigger] bits@[t] == encode_bits(d as nat, f@)[t],
        {
            if bit_idx < bits.len() {
                assert(a & 1 == a % 2) by (bit_vector)
                    requires
                        a >= 0,
                ;
                proof {
                    lemma_index_split(i as int, j as int, d as int);
                }
                bits[bit_idx] = (a & 1) == 1;
                proof {
                    let t = bit_idx as int;
                    assert(t / (d as int) == i as int);
                    assert(t % (d as int) == j as int);
                    assert(t < 256 * d) by (nonlinear_arith)
                        requires
                            t == i * d + j,
                            j < d,
                            i < 256,
                    ;
                    assert(encode_bits(d as nat, f@)[t] == int_bit(v, j as nat));
                    assert(int_bit(v, j as nat) == (a % 2 == 1));
                    assert(bits@[t] == encode_bits(d as nat, f@)[t]);
                }
                bit_idx += 1;
                proof {
                    lemma_i32_shr(a, 1);
                    lemma2_to64();
                    lemma_pow2_pos(j as nat);
                    lemma_div_denominator(v, pow2(j as nat) as int, 2);
                    lemma_pow2_unfold((j + 1) as nat);
                    lemma_mul_is_commutative(2, pow2(j as nat) as int);
                }
                a >>= 1;
            }
        }
        assert(bit_idx == (i + 1) * d) by (nonlinear_arith)
            requires
                bit_idx == i * d + d,
        ;
    }
    assert(bit_idx <= 3072) by (nonlinear_arith)
        requires
            bit_idx == 256 * d,
            d <= 12,
    ;
    let used = vstd::slice::slice_subrange(bits.as_slice(), 0, bit_idx);
    assert(used@ =~= encode_bits(d as nat, f@));
    to_bytes(used, out);
}

/// The modulus `m` of `ByteDecode_d`: `2^d`, or `q` when `d = 12`.
pub open spec fn decode_modulus(d: nat) -> int {
    if d == 12 {
        3329
    } else {
        pow2(d) as int
    }
}

/// Algorithm 6 of FIPS 203, `ByteDecode_d`, on the first `256 d` bits of
/// `b` (zero bits past its end).
pub open spec fn decode_spec(d: nat, b: Seq<u8>) -> Seq<i32> {
    Seq::new(
        256,
        |i: int| (bits_value(padded_bits(b, 3072), i * d, d) as int % decode_modulus(d)) as i32,
    )
}

/// Setting a fresh high bit of a non-negative `i32` adds its weight.
proof fn lemma_i32_or_bit(x: i32, j: i32)
    requires
        0 <= j < 30,
        0 <= x < pow2(j as nat),
    ensures
        x | (1i32 << j) == x + pow2(j as nat),
{
    lemma_i32_one_shl(j);
    let p = 1i32 << j;
    let uj = j as u32;
    assert(1i32 << j == 1i32 << uj);
    assert(x | (1i32 << uj) == x + (1i32 << uj)) by (bit_vector)
        requires
            uj < 30,
            0 <= x < (1i32 << uj),
    ;
}

/// Algorithm 6: `ByteDecode_d`.
pub fn decode(d: usize, b: &[u8], f: &mut [i32; N])
    requires
        1 <= d <= 12,
    ensures
        final(f)@ == decode_spec(d as nat, b@),
{
    let mut bits = [false; 3072];
    let ghost init = bits@;
    to_bits(b, &mut bits);
    assert(bits@ =~= padded_bits(b@, 3072));
    let m = if d == 12 {
        Q
    } else {
        1 << (d as i32)
    };
    proof {
        lemma_i32_one_shl(d as i32);
        lemma_pow2_pos(d as nat);
    }
    for i in 0..N
        invariant
            1 <= d <= 12,
            bits@ == padded_bits(b@, 3072),
            m as int == decode_modulus(d as nat),
            m > 0,
            forall|x: int| 0 <= x < i ==> #[trigger] f@[x] == decode_spec(d as nat, b@)[x],
    {
        let mut val = 0i32;
        assert(i * d + d <= 3072) by (nonlinear_arith)
            requires
                i < 256,
                d <= 12,
        ;
        proof {
            lemma2_to64();
        }
        for j in 0..d
            invariant
                1 <= d <= 12,
                i < 256,
                i * d + d <= 3072,
                bits@ == padded_bits(b@, 3072),
                0 <= val,
                val as nat == bits_value(bits@, i * d, j as nat),
                val < pow2(j as nat),
        {
            proof {
                lemma_i32_or_bit(val, j as i32);
                lemma_pow2_unfold((j + 1) as nat);
            }
            if bits[i * d + j] {
                val |= 1 << (j as i32);
            }
        }
        f[i] = val % m;
    }
    assert(f@ =~= decode_spec(d as nat, b@));
}

/// Bit `j` of `bits_value(bits, start, n)` is `bits[start + j]`.
pub proof fn lemma_bits_value_bit(bits: Seq<bool>, start: int, n: nat, j: nat)
    requires
        j < n,
    ensures
        (bits_value(bits, start, n) as int / pow2(j) as int) % 2 == if bits[start + j] {
            1int
        } else {
            0
        },
    decreases n,
{
    let v = bits_value(bits, start, (n - 1) as nat) as int;
    let top: int = if bits[start + n - 1] {
        1
    } else {
        0
    };
    lemma_bits_value_bound(bits, start, (n - 1) as nat);
    lemma_pow2_pos(j);
    lemma_pow2_pos((n - 1) as nat);
    assert(bits_value(bits, start, n) == v + top * pow2((n - 1) as nat));
    if j == n - 1 {
        // (v + top 2^j) / 2^j == top, as v < 2^j
        lemma_fundamental_div_mod_converse(v + top * pow2(j) as int, pow2(j) as int, top, v);
    } else {
        lemma_bits_value_bit(bits, start, (n - 1) as nat, j);
        // 2^(n-1) = 2^j * 2^(n-1-j), and 2^(n-1-j) is even
        let e = (n - 1 - j) as nat;
        lemma_pow2_adds(j, e);
        lemma_pow2_unfold(e);
        let pj = pow2(j) as int;
        let pe = pow2(e) as int;
        assert(top * pow2((n - 1) as nat) == (top * pe) * pj) by (nonlinear_arith)
            requires
                pow2((n - 1) as nat) == pj * pe,
        ;
        lemma_div_plus_multiple(v, top * pe, pj);
        let h = pow2((e - 1) as nat) as int;
        assert(top * pe == 2 * (top * h)) by (nonlinear_arith)
            requires
                pe == 2 * h,
        ;
        lemma_mod_plus_even(v / pj, top * h);
    }
}

/// `(x + m d) / d == x / d + m`.
proof fn lemma_div_plus_multiple(x: int, m: int, d: int)
    requires
        d > 0,
    ensures
        (x + m * d) / d == x / d + m,
{
    lemma_fundamental_div_mod(x, d);
    assert(x + m * d == (x / d + m) * d + x % d) by (nonlinear_arith)
        requires
            x == d * (x / d) + x % d,
    ;
    lemma_fundamental_div_mod_converse(x + m * d, d, x / d + m, x % d);
}

/// Adding an even number keeps the parity.
proof fn lemma_mod_plus_even(a: int, q: int)
    ensures
        (a + 2 * q) % 2 == a % 2,
{
    lemma_mod_multiples_vanish(q, a, 2);
}

/// Unpacking the bytes of a whole number of bytes' worth of bits gives the
/// bits back.
pub proof fn lemma_bytes_of_bits(bits: Seq<bool>, t: int)
    requires
        bits.len() % 8 == 0,
        0 <= t < bits.len(),
    ensures
        byte_bit(bits_to_bytes(bits)[t / 8], t % 8) == bits[t],
{
    let i = t / 8;
    let j = t % 8;
    lemma_fundamental_div_mod(t, 8);
    assert(bits.len() - 8 * i >= 8);
    let v = bits_value(bits, 8 * i, 8);
    lemma_bits_value_bound(bits, 8 * i, 8);
    lemma2_to64();
    let x = v as u8;
    assert(x as nat == v);
    assert(bits_to_bytes(bits)[i] == x);
    vstd::bits::lemma_u8_shr_is_div(x, j as u8);
    let y = x >> (j as u8);
    assert(y & 1u8 == y % 2) by (bit_vector);
    lemma_bits_value_bit(bits, 8 * i, 8, j as nat);
    assert(8 * i + j == t);
}

/// `bits_value` depends only on the bits it reads.
pub proof fn lemma_bits_value_ext(b1: Seq<bool>, s1: int, b2: Seq<bool>, s2: int, n: nat)
    requires
        forall|j: int| 0 <= j < n ==> #[trigger] b1[s1 + j] == b2[s2 + j],
    ensures
        bits_value(b1, s1, n) == bits_value(b2, s2, n),
    decreases n,
{
    if n > 0 {
        lemma_bits_value_ext(b1, s1, b2, s2, (n - 1) as nat);
        assert(b1[s1 + (n - 1)] == b2[s2 + (n - 1)]);
    }
}

/// The first `n <= d` bits of coefficient `i` of `encode_bits` spell
/// `f[i] mod 2^n`.
pub proof fn lemma_encode_bits_value(d: nat, f: Seq<i32>, i: int, n: nat)
    requires
        n <= d,
        0 <= i < 256,
        0 <= f[i],
    ensures
        bits_value(encode_bits(d, f), i * d, n) == f[i] as int % pow2(n) as int,
    decreases n,
{
    let x = f[i] as int;
    if n == 0 {
        lemma2_to64();
    } else {
        lemma_encode_bits_value(d, f, i, (n - 1) as nat);
        let t = i * d + (n - 1);
        lemma_index_split(i, (n - 1) as int, d as int);
        assert(t < 256 * d) by (nonlinear_arith)
            requires
                t == i * d + (n - 1),
                n <= d,
                i < 256,
        ;
        assert(encode_bits(d, f)[t] == int_bit(x, (n - 1) as nat));
        lemma_pow2_pos((n - 1) as nat);
        lemma_pow2_unfold(n);
        let p = pow2((n - 1) as nat) as int;
        lemma_breakdown(x, p, 2);
        assert(p * 2 == pow2(n) as int);
        lemma_mod_bound(x / p, 2);
        let prev = bits_value(encode_bits(d, f), i * d, (n - 1) as nat);
        assert(prev == x % p);
        let bitv: int = if encode_bits(d, f)[i * d + (n - 1)] {
            p
        } else {
            0
        };
        if (x / p) % 2 == 1 {
            let r = (x / p) % 2;
            assert(encode_bits(d, f)[t]);
            assert(p * r == p) by (nonlinear_arith)
                requires
                    r == 1,
            ;
        } else {
            let r = (x / p) % 2;
            assert(r == 0);
            assert(!encode_bits(d, f)[t]);
            assert(p * r == 0) by (nonlinear_arith)
                requires
                    r == 0,
            ;
        }
        assert(bitv == p * ((x / p) % 2));
        assert(bits_value(encode_bits(d, f), i * d, n) == prev + bitv);
    }
}

/// The raw `d`-bit value of coefficient `i` in the bit stream of `b`,
/// before the reduction of `ByteDecode_d`.
pub open spec fn raw_coeff(d: nat, b: Seq<u8>, i: int) -> nat {
    bits_value(padded_bits(b, 3072), i * d, d)
}

/// The raw `d`-bit values of `ByteEncode_d(f)` are the coefficients of `f`,
/// when they lie in `[0, 2^d)`.
pub proof fn lemma_raw_of_encode(d: nat, f: Seq<i32>, i: int)
    requires
        1 <= d <= 12,
        f.len() == 256,
        0 <= i < 256,
        0 <= f[i] < pow2(d),
    ensures
        raw_coeff(d, encode_spec(d, f), i) == f[i],
{
    let bits = encode_bits(d, f);
    let bytes = encode_spec(d, f);
    assert(bits.len() == 256 * d);
    assert(bits.len() % 8 == 0) by (nonlinear_arith)
        requires
            bits.len() == 256 * d,
    ;
    let pb = padded_bits(bytes, 3072);
    lemma2_to64();
    assert(i * d + d <= 256 * d) by (nonlinear_arith)
        requires
            i < 256,
    ;
    assert forall|j: int| 0 <= j < d implies #[trigger] pb[i * d + j] == bits[i * d + j] by {
        let t = i * d + j;
        assert(0 <= t) by (nonlinear_arith)
            requires
                t == i * d + j,
                0 <= i,
                0 <= j,
                d >= 1,
        ;
        assert(256 * d <= 3072);
        lemma_fundamental_div_mod(t, 8);
        lemma_bytes_of_bits(bits, t);
    }
    lemma_bits_value_ext(pb, i * d, bits, i * d, d);
    lemma_encode_bits_value(d, f, i, d);
    lemma_small_mod(f[i] as nat, pow2(d));
}

/// `ByteDecode_d` undoes `ByteEncode_d` on polynomials whose coefficients lie
/// in `[0, m)`, with `m = 2^d` for `d < 12` and `m = q` for `d = 12`.
pub proof fn law_decode_encode(d: nat, f: Seq<i32>)
    requires
        1 <= d <= 12,
        f.len() == 256,
        forall|i: int| 0 <= i < 256 ==> 0 <= #[trigger] f[i] < decode_modulus(d),
    ensures
        decode_spec(d, encode_spec(d, f)) == f,
{
    let bytes = encode_spec(d, f);
    lemma2_to64();
    assert forall|i: int| 0 <= i < 256 implies #[trigger] decode_spec(d, bytes)[i] == f[i] by {
        if d == 12 {
            assert(pow2(12) == 4096);
        }
        lemma_raw_of_encode(d, f, i);
        lemma_small_mod(f[i] as nat, decode_modulus(d) as nat);
    }
    assert(decode_spec(d, bytes) =~= f);
}

/// `byte_bit` reads bit `j` of the value of a byte.
proof fn lemma_byte_bit_value(x: u8, j: nat)
    requires
        j < 8,
    ensures
        byte_bit(x, j as int) == ((x as int / pow2(j) as int) % 2 == 1),
{
    vstd::bits::lemma_u8_shr_is_div(x, j as u8);
    let y = x >> (j as u8);
    assert(y & 1u8 == y % 2) by (bit_vector);
}

/// The first `n` bits of a byte spell its value modulo `2^n`.
proof fn lemma_byte_bits_value(b: Seq<u8>, i: int, n: nat)
    requires
        n <= 8,
        0 <= i < b.len(),
    ensures
        bits_value(padded_bits(b, 8 * b.len()), 8 * i, n) == b[i] as int % pow2(n) as int,
    decreases n,
{
    let x = b[i] as int;
    let pb = padded_bits(b, 8 * b.len());
    lemma2_to64();
    if n > 0 {
        lemma_byte_bits_value(b, i, (n - 1) as nat);
        let t = 8 * i + (n - 1);
        lemma_fundamental_div_mod_converse(t, 8, i, (n - 1) as int);
        lemma_byte_bit_value(b[i], (n - 1) as nat);
        assert(pb[t] == ((x / pow2((n - 1) as nat) as int) % 2 == 1));
        lemma_pow2_pos((n - 1) as nat);
        lemma_pow2_unfold(n);
        let p = pow2((n - 1) as nat) as int;
        lemma_breakdown(x, p, 2);
        lemma_mod_bound(x / p, 2);
        if (x / p) % 2 == 1 {
            let r = (x / p) % 2;
            assert(p * r == p) by (nonlinear_arith)
                requires
                    r == 1,
            ;
        } else {
            let r = (x / p) % 2;
            assert(r == 0);
            assert(p * r == 0) by (nonlinear_arith)
                requires
                    r == 0,
            ;
        }
    }
}

/// `ByteEncode_d` undoes `ByteDecode_d` on `32 d`-byte strings, for `d < 12`
/// always and for `d = 12` when every raw 12-bit value is below q: the two
/// are inverse bijections between such strings and polynomials with
/// coefficients in `[0, m)`.
pub proof fn law_encode_decode(d: nat, b: Seq<u8>)
    requires
        1 <= d <= 12,
        b.len() == 32 * d,
        d == 12 ==> forall|i: int| 0 <= i < 256 ==> #[trigger] raw_coeff(12, b, i) < 3329,
    ensures
        encode_spec(d, decode_spec(d, b)) == b,
{
    let f = decode_spec(d, b);
    let pb = padded_bits(b, 3072);
    let bb = bytes_to_bits(b);
    lemma2_to64();
    assert(256 * d <= 3072);
    // every decoded coefficient is the raw d-bit value
    assert forall|i: int| 0 <= i < 256 implies #[trigger] f[i] as int == bits_value(pb, i * d, d) by {
        lemma_bits_value_bound(pb, i * d, d);
        if d == 12 {
            assert(raw_coeff(12, b, i) < 3329);
            lemma_small_mod(bits_value(pb, i * d, d), 3329);
        } else {
            lemma_small_mod(bits_value(pb, i * d, d), pow2(d));
        }
        lemma_pow2_strictly_increases(d, 31);
    }
    // so re-encoding gives back the bit string of b
    let eb = encode_bits(d, f);
    assert forall|t: int| 0 <= t < 256 * d implies #[trigger] eb[t] == bb[t] by {
        let i = t / d as int;
        let j = t % d as int;
        lemma_fundamental_div_mod(t, d as int);
        lemma_div_pos_is_pos(t, d as int);
        assert(i < 256) by (nonlinear_arith)
            requires
                t == d * i + j,
                0 <= j,
                t < 256 * d,
                d >= 1,
        ;
        assert(t == i * d + j) by (nonlinear_arith)
            requires
                t == d * i + j,
        ;
        lemma_bits_value_bit(pb, i * d, d, j as nat);
        assert(pb[t] == bb[t]);
    }
    assert(eb =~= bb);
    // and packing the bits of b gives back b
    let out = bits_to_bytes(bb);
    assert((256 * d + 7) / 8 == 32 * d) by {
        lemma_fundamental_div_mod_converse((256 * d + 7) as int, 8, 32 * d as int, 7);
    }
    assert forall|i: int| 0 <= i < 32 * d implies #[trigger] out[i] == b[i] by {
        assert(bb.len() - 8 * i >= 8);
        lemma_byte_bits_value(b, i, 8);
        lemma_small_mod(b[i] as nat, 256);
    }
    assert(out =~= b);
}

} // verus!
