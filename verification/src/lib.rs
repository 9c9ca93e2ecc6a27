//! ML-KEM (FIPS 203) key encapsulation, with its arithmetic, encodings and
//! sampling proved against mathematical specifications.

pub mod arith;
pub mod bytes;
pub mod params;
pub mod poly;
pub mod ntt;
pub mod algebra;
pub mod ntt_crt;
pub mod encoding;
pub mod hashing;
pub mod sampling;
pub mod pke;
pub mod kem;
pub mod laws;
pub mod correctness;
pub mod fips;


pub use kem::{check_dk, check_ek, ml_kem_decaps, ml_kem_encaps, ml_kem_keygen};
pub use params::{MLKEMParameters, MAX_CIPHERTEXT_BYTES, MAX_PUBLIC_KEY_BYTES, MAX_SECRET_KEY_BYTES};
pub use pke::{pke_gen, MlKemError};
