# mlkem_edu

A small, complete implementation of ML-KEM (FIPS 203), verified with Verus.
Every executable function carries a contract over mathematical models
(`Seq`, `int`, spec functions that follow the algorithms of FIPS 203), and
the hash functions SHA3-256, SHA3-512, SHAKE128 and SHAKE256 of the `sha3`
crate are reached through four trusted wrappers in `src/hashing.rs`.

## Layout

- `src/arith.rs`, `src/poly.rs`: arithmetic modulo q, compression, roots of unity.
- `src/encoding.rs`: `ByteEncode_d` / `ByteDecode_d` and their round trips.
- `src/ntt.rs`: the NTT, its inverse and products in the NTT domain.
- `src/ntt_crt.rs`: the NTT computes the remainders modulo the 128 quadratic
  factors of `X^256 + 1`, and multiplication in the NTT domain is
  multiplication in `Z_q[X]/(X^256 + 1)`.
- `src/algebra.rs`: ring laws of the NTT domain and finite sums.
- `src/hashing.rs`, `src/sampling.rs`: hashing and sampling.
- `src/pke.rs`, `src/kem.rs`, `src/params.rs`: K-PKE and ML-KEM.
- `src/laws.rs`, `src/correctness.rs`: laws across operations, among them
  that decryption recovers the message whenever the decryption noise is below
  `q / 4`, and that decapsulation then returns the encapsulated key.
- `tests/`: executable tests against the `sha3` crate and known values.

Key generation, encapsulation and decapsulation return
`Err(MlKemError::SamplingLimit)` in the (negligibly likely) case that the
SHAKE128 stream of a matrix entry does not yield 256 coefficients below q
within `SAMPLE_NTT_MAX_BYTES` bytes.
