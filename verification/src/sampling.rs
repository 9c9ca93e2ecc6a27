//! Sampling of polynomials: uniform rejection sampling from SHAKE128
//! (Algorithm 7) and the centered binomial distribution (Algorithm 8).
use crate::arith::{modq, Q};
use crate::encoding::{padded_bits, to_bits};
use crate::bytes::to_vec;
use crate::hashing::{shake128, shake128_byte, shake128_stream};
use crate::poly::{is_reduced, N};
use vstd::prelude::*;

verus! {

/// How many bytes of the SHAKE128 stream `sample_uniform` reads at most
/// before it gives up (1024 blocks of 168 bytes).
pub const SAMPLE_NTT_MAX_BYTES: usize = 172032;

/// First 12-bit candidate of the 3-byte group `g` of `s`.
pub open spec fn cand1(s: Seq<u8>, g: int) -> int {
    s[3 * g] as int + 256 * (s[3 * g + 1] as int % 16)
}

/// Second 12-bit candidate of the 3-byte group `g` of `s`.
pub open spec fn cand2(s: Seq<u8>, g: int) -> int {
    s[3 * g + 1] as int / 16 + 16 * s[3 * g + 2] as int
}

/// The candidates below q found in the first `g` groups of `s`, in order.
pub open spec fn accepted(s: Seq<u8>, g: nat) -> Seq<i32>
    decreases g,
{
    if g == 0 {
        Seq::empty()
    } else {
        let h = g - 1;
        let prev = accepted(s, (g - 1) as nat);
        let a = if cand1(s, h) < 3329 {
            prev.push(cand1(s, h) as i32)
        } else {
            prev
        };
        if cand2(s, h) < 3329 {
            a.push(cand2(s, h) as i32)
        } else {
            a
        }
    }
}

/// Algorithm 7 of FIPS 203, `SampleNTT`, run on the first
/// `SAMPLE_NTT_MAX_BYTES` bytes of SHAKE128 over `input`: the first 256
/// candidates below q, or `None` if that prefix holds fewer.
pub open spec fn sample_ntt_spec(input: Seq<u8>) -> Option<Seq<i32>> {
    let a = accepted(
        shake128_stream(input, SAMPLE_NTT_MAX_BYTES as nat),
        (SAMPLE_NTT_MAX_BYTES / 3) as nat,
    );
    if a.len() >= 256 {
        Some(a.take(256))
    } else {
        None
    }
}

/// The XOF input of matrix entry `(i, j)`: `rho || j || i`.
pub open spec fn xof_input(rho: Seq<u8>, i: usize, j: usize) -> Seq<u8> {
    rho.push(j as u8).push(i as u8)
}

proof fn lemma_accepted_len(s: Seq<u8>, g: nat)
    ensures
        accepted(s, g).len() <= 2 * g,
        forall|x: int|
            0 <= x < accepted(s, g).len() ==> 0 <= #[trigger] accepted(s, g)[x] < 3329,
    decreases g,
{
    if g > 0 {
        lemma_accepted_len(s, (g - 1) as nat);
    }
}

/// The candidates of the first `g` groups read only the first `3 g` bytes.
proof fn lemma_accepted_ext(s1: Seq<u8>, s2: Seq<u8>, g: nat)
    requires
        forall|x: int| 0 <= x < 3 * g ==> #[trigger] s1[x] == s2[x],
    ensures
        accepted(s1, g) == accepted(s2, g),
    decreases g,
{
    if g > 0 {
        let h = g - 1;
        assert(s1[3 * h] == s2[3 * h]);
        assert(s1[3 * h + 1] == s2[3 * h + 1]);
        assert(s1[3 * h + 2] == s2[3 * h + 2]);
        lemma_accepted_ext(s1, s2, (g - 1) as nat);
    }
}

/// The rejection sampling of Algorithm 7 on given bytes: the first 256
/// candidates below q among the complete 3-byte groups of `stream`, or
/// `None` if there are fewer.
pub fn sample_ntt_from_stream(stream: &[u8]) -> (r: Option<[i32; N]>)
    ensures
        r is Some <==> accepted(stream@, (stream@.len() / 3) as nat).len() >= 256,
        r is Some ==> r->0@ == accepted(stream@, (stream@.len() / 3) as nat).take(256),
        r is Some ==> is_reduced(r->0@),
{
    let ghost s = stream@;
    let ghost gmax = (s.len() / 3) as nat;
    let groups = stream.len() / 3;
    let mut out = [0i32; N];
    let mut count: usize = 0;
    let mut g: usize = 0;
    while count < N && g < groups
        invariant
            s == stream@,
            groups == gmax,
            gmax == s.len() / 3,
            g <= groups,
            count <= 256,
            count == if accepted(s, g as nat).len() < 256 {
                accepted(s, g as nat).len()
            } else {
                256
            },
            forall|x: int| 0 <= x < count ==> #[trigger] out@[x] == accepted(s, g as nat)[x],
        decreases groups - g,
    {
        assert(3 * groups <= stream.len());
        assert(3 * g + 3 <= stream.len());
        let b0 = stream[3 * g];
        let b1 = stream[3 * g + 1];
        let b2 = stream[3 * g + 2];
        let d1 = (b0 as i32) | (((b1 as i32) & 0x0F) << 8);
        let d2 = ((b1 as i32) >> 4) | ((b2 as i32) << 4);
        assert(d1 == b0 as int + 256 * (b1 as int % 16) && d2 == b1 as int / 16 + 16 * b2 as int)
            by (bit_vector)
            requires
                d1 == (b0 as i32) | (((b1 as i32) & 0x0F) << 8),
                d2 == ((b1 as i32) >> 4) | ((b2 as i32) << 4),
        ;
        let ghost prev = accepted(s, g as nat);
        if d1 < Q {
            out[count] = d1;
            count += 1;
        }
        if d2 < Q && count < N {
            out[count] = d2;
            count += 1;
        }
        g += 1;
        assert(accepted(s, g as nat) == {
            let a = if cand1(s, g - 1) < 3329 {
                prev.push(cand1(s, g - 1) as i32)
            } else {
                prev
            };
            if cand2(s, g - 1) < 3329 {
                a.push(cand2(s, g - 1) as i32)
            } else {
                a
            }
        });
    }
    if count < N {
        return None;
    }
    proof {
        lemma_accepted_len(s, gmax);
        lemma_accepted_prefix(s, g as nat, gmax);
        assert(out@ =~= accepted(s, gmax).take(256));
    }
    Some(out)
}

/// Algorithm 7: samples a polynomial in the NTT domain from the SHAKE128
/// stream of `rho || j || i`; `None` if the first `SAMPLE_NTT_MAX_BYTES`
/// bytes of the stream hold fewer than 256 candidates below q.
pub fn sample_uniform(rho: &[u8], i: usize, j: usize) -> (r: Option<[i32; N]>)
    ensures
        r is Some <==> sample_ntt_spec(xof_input(rho@, i, j)) is Some,
        r is Some ==> r->0@ == sample_ntt_spec(xof_input(rho@, i, j))->0,
        r is Some ==> is_reduced(r->0@),
{
    let mut input = to_vec(rho);
    input.push(j as u8);
    input.push(i as u8);
    let ghost inp = xof_input(rho@, i, j);
    assert(input@ =~= inp);
    let ghost sf = shake128_stream(inp, SAMPLE_NTT_MAX_BYTES as nat);
    let ghost gmax = (SAMPLE_NTT_MAX_BYTES / 3) as nat;
    let mut len: usize = 504;
    loop
        invariant
            input@ == inp,
            inp == xof_input(rho@, i, j),
            sf == shake128_stream(inp, SAMPLE_NTT_MAX_BYTES as nat),
            gmax == SAMPLE_NTT_MAX_BYTES / 3,
            len % 168 == 0,
            504 <= len <= SAMPLE_NTT_MAX_BYTES,
        decreases SAMPLE_NTT_MAX_BYTES - len,
    {
        let buf = shake128(input.as_slice(), len);
        let r = sample_ntt_from_stream(buf.as_slice());
        let ghost g = (len / 3) as nat;
        proof {
            assert forall|x: int| 0 <= x < 3 * g implies #[trigger] buf@[x] == sf[x] by {}
            lemma_accepted_ext(buf@, sf, g);
            lemma_accepted_prefix(sf, g, gmax);
        }
        match r {
            Some(o) => {
                proof {
                    assert(o@ =~= accepted(sf, gmax).take(256));
                }
                return Some(o);
            },
            None => {},
        }
        if len >= SAMPLE_NTT_MAX_BYTES {
            assert(g == gmax);
            return None;
        }
        len = len + 168;
    }
}

/// The candidates of the first `g1` groups are a prefix of those of the
/// first `g2 >= g1` groups.
proof fn lemma_accepted_prefix(s: Seq<u8>, g1: nat, g2: nat)
    requires
        g1 <= g2,
    ensures
        accepted(s, g1).len() <= accepted(s, g2).len(),
        forall|x: int|
            0 <= x < accepted(s, g1).len() ==> #[trigger] accepted(s, g1)[x] == accepted(s, g2)[x],
    decreases g2,
{
    if g1 < g2 {
        lemma_accepted_prefix(s, g1, (g2 - 1) as nat);
    }
}

/// Number of set bits among `bits[start..start + n]`.
pub open spec fn count_ones(bits: Seq<bool>, start: int, n: nat) -> int
    decreases n,
{
    if n == 0 {
        0
    } else {
        count_ones(bits, start, (n - 1) as nat) + if bits[start + n - 1] {
            1int
        } else {
            0
        }
    }
}

/// Algorithm 8 of FIPS 203, `SamplePolyCBD_eta`, on the first `512 eta`
/// bits of `b` (zero bits past its end).
pub open spec fn cbd_spec(eta: nat, b: Seq<u8>) -> Seq<i32> {
    let bits = padded_bits(b, 1536);
    Seq::new(
        256,
        |i: int|
            ((count_ones(bits, 2 * i * eta, eta) - count_ones(bits, 2 * i * eta + eta, eta))
                % 3329) as i32,
    )
}

proof fn lemma_count_ones_bound(bits: Seq<bool>, start: int, n: nat)
    ensures
        0 <= count_ones(bits, start, n) <= n,
    decreases n,
{
    if n > 0 {
        lemma_count_ones_bound(bits, start, (n - 1) as nat);
    }
}

/// Algorithm 8: samples a polynomial from the centered binomial
/// distribution `D_eta`, driven by the bytes of `b`.
pub fn sample_noise(eta: usize, b: &[u8], out: &mut [i32; 256])
    requires
        eta <= 3,
    ensures
        final(out)@ == cbd_spec(eta as nat, b@),
        is_reduced(final(out)@),
{
    let mut bits = [false; 1536];
    to_bits(b, &mut bits);
    assert(bits@ =~= padded_bits(b@, 1536));
    for i in 0..N
        invariant
            eta <= 3,
            bits@ == padded_bits(b@, 1536),
            forall|x: int| 0 <= x < i ==> #[trigger] out@[x] == cbd_spec(eta as nat, b@)[x],
            forall|x: int| 0 <= x < i ==> 0 <= #[trigger] out@[x] < 3329,
    {
        let mut x: i32 = 0;
        let mut y: i32 = 0;
        assert(2 * i * eta + 2 * eta <= 1536) by (nonlinear_arith)
            requires
                i < 256,
                eta <= 3,
        ;
        for j in 0..eta
            invariant
                eta <= 3,
                i < 256,
                2 * i * eta + 2 * eta <= 1536,
                x == count_ones(bits@, 2 * i * eta, j as nat),
                y == count_ones(bits@, 2 * i * eta + eta, j as nat),
                0 <= x <= j,
                0 <= y <= j,
        {
            if bits[2 * i * eta + j] {
                x += 1;
            }
            if bits[2 * i * eta + eta + j] {
                y += 1;
            }
        }
        out[i] = modq(x - y, Q);
    }
    assert(out@ =~= cbd_spec(eta as nat, b@));
}

} // verus!
