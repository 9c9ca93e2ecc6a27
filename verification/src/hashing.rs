//! The hash functions of ML-KEM, built on SHA-3: `H`, `G`, `J`, `PRF` and
//! the SHAKE128 stream of `XOF`.
use sha3::digest::ExtendableOutput;
use sha3::{Digest, Sha3_256, Sha3_512, Shake128, Shake256};
use crate::bytes::to_vec;
use vstd::prelude::*;

verus! {

/// The SHA3-256 digest of `input` (FIPS 202).
pub uninterp spec fn sha3_256_spec(input: Seq<u8>) -> [u8; 32];

/// The SHA3-512 digest of `input` (FIPS 202).
pub uninterp spec fn sha3_512_spec(input: Seq<u8>) -> [u8; 64];

/// Byte `index` of the SHAKE128 output stream for `input` (FIPS 202).
pub uninterp spec fn shake128_byte(input: Seq<u8>, index: nat) -> u8;

/// Byte `index` of the SHAKE256 output stream for `input` (FIPS 202).
pub uninterp spec fn shake256_byte(input: Seq<u8>, index: nat) -> u8;

/// The first `n` bytes of the SHAKE128 output stream for `input`.
pub open spec fn shake128_stream(input: Seq<u8>, n: nat) -> Seq<u8> {
    Seq::new(n, |t: int| shake128_byte(input, t as nat))
}

/// The first `n` bytes of the SHAKE256 output stream for `input`.
pub open spec fn shake256_stream(input: Seq<u8>, n: nat) -> Seq<u8> {
    Seq::new(n, |t: int| shake256_byte(input, t as nat))
}

/// Calls `<Sha3_256 as Digest>::digest` from `sha3`. Trusted: its result is
/// the SHA3-256 digest of `input`, which is 32 bytes long.
#[verifier::external_body]
fn sha3_256(input: &[u8]) -> (h: [u8; 32])
    ensures
        h == sha3_256_spec(input@),
{
    let digest = Sha3_256::digest(input);
    let mut h = [0u8; 32];
    h.copy_from_slice(&digest);
    h
}

/// Calls `<Sha3_512 as Digest>::digest` from `sha3`. Trusted: its result is
/// the SHA3-512 digest of `input`, which is 64 bytes long.
#[verifier::external_body]
fn sha3_512(input: &[u8]) -> (h: [u8; 64])
    ensures
        h == sha3_512_spec(input@),
{
    let digest = Sha3_512::digest(input);
    let mut h = [0u8; 64];
    h.copy_from_slice(&digest);
    h
}

/// Calls `<Shake128 as ExtendableOutput>::digest_xof` from `sha3`. Trusted:
/// it returns the first `len` bytes of the SHAKE128 output stream for `input`.
#[verifier::external_body]
pub(crate) fn shake128(input: &[u8], len: usize) -> (out: Vec<u8>)
    ensures
        out@.len() == len,
        forall|t: int| 0 <= t < len ==> #[trigger] out@[t] == shake128_byte(input@, t as nat),
{
    let mut out = vec![0u8; len];
    Shake128::digest_xof(input, &mut out);
    out
}

/// Calls `<Shake256 as ExtendableOutput>::digest_xof` from `sha3`. Trusted:
/// it returns the first `len` bytes of the SHAKE256 output stream for `input`.
#[verifier::external_body]
fn shake256(input: &[u8], len: usize) -> (out: Vec<u8>)
    ensures
        out@.len() == len,
        forall|t: int| 0 <= t < len ==> #[trigger] out@[t] == shake256_byte(input@, t as nat),
{
    let mut out = vec![0u8; len];
    Shake256::digest_xof(input, &mut out);
    out
}

/// `PRF_eta(s, b)`: the first `64 eta` bytes of SHAKE256 over `s || b`.
pub fn prf(eta: usize, s: &[u8], b: u8) -> (out: Vec<u8>)
    requires
        eta <= 3,
    ensures
        out@ == shake256_stream(s@.push(b), (64 * eta) as nat),
{
    let mut input = to_vec(s);
    input.push(b);
    let out = shake256(input.as_slice(), 64 * eta);
    assert(out@ =~= shake256_stream(s@.push(b), (64 * eta) as nat));
    out
}

/// `H(s)`: SHA3-256.
pub fn hash(s: &[u8]) -> (out: [u8; 32])
    ensures
        out@ == sha3_256_spec(s@)@,
{
    sha3_256(s)
}

/// `J(s)`: the first 32 bytes of SHAKE256 over `s`.
pub fn kdf(s: &[u8]) -> (out: [u8; 32])
    ensures
        out@ == shake256_stream(s@, 32),
{
    let v = shake256(s, 32);
    assert(v@ =~= shake256_stream(s@, 32));
    let mut out = [0u8; 32];
    for i in 0..32
        invariant
            v@ == shake256_stream(s@, 32),
            forall|t: int| 0 <= t < i ==> #[trigger] out@[t] == v@[t],
    {
        out[i] = v[i];
    }
    assert(out@ =~= shake256_stream(s@, 32));
    out
}

/// `G(s)`: SHA3-512, split into its two 32-byte halves.
pub fn expand(s: &[u8]) -> (out: ([u8; 32], [u8; 32]))
    ensures
        out.0@ == sha3_512_spec(s@)@.subrange(0, 32),
        out.1@ == sha3_512_spec(s@)@.subrange(32, 64),
{
    let digest = sha3_512(s);
    let mut out1 = [0u8; 32];
    let mut out2 = [0u8; 32];
    for i in 0..32
        invariant
            digest@ == sha3_512_spec(s@)@,
            forall|t: int| 0 <= t < i ==> #[trigger] out1@[t] == digest@[t],
            forall|t: int| 0 <= t < i ==> #[trigger] out2@[t] == digest@[t + 32],
    {
        out1[i] = digest[i];
        out2[i] = digest[i + 32];
    }
    assert(out1@ =~= sha3_512_spec(s@)@.subrange(0, 32));
    assert(out2@ =~= sha3_512_spec(s@)@.subrange(32, 64));
    (out1, out2)
}

} // verus!
