//! The ML-KEM parameter sets and their key and ciphertext sizes.
use crate::bytes::bytes_eq;
use vstd::prelude::*;
#[allow(unused_imports)]
use vstd::string::StringSliceAdditionalSpecFns;

verus! {

/// Largest encapsulation key, in bytes (ML-KEM-1024).
pub const MAX_PUBLIC_KEY_BYTES: usize = 1568;

/// Largest decapsulation key, in bytes (ML-KEM-1024).
pub const MAX_SECRET_KEY_BYTES: usize = 3168;

/// Largest ciphertext, in bytes (ML-KEM-1024).
pub const MAX_CIPHERTEXT_BYTES: usize = 1568;

/// ML-KEM parameter set
#[derive(Debug, Clone, Copy)]
pub struct MLKEMParameters {
    /// Parameter set name (e.g., "ML-KEM-768")
    pub name: &'static str,
    /// Defines size of the matrix (kxk)
    pub k: usize,
    pub eta1: usize,
    pub eta2: usize,
    pub du: usize,
    pub dv: usize,
    /// Public key byte length
    pub public_key_length: usize,
    /// Private key byte length
    pub secret_key_length: usize,
    /// Ciphertext byte length
    pub ciphertext_length: usize,
}

impl MLKEMParameters {
    /// The fields describe a usable parameter set: a module rank of at most
    /// four, noise parameters of at most three, compression widths between 1
    /// and 12 bits, and byte lengths that agree with them.
    pub open spec fn wf(&self) -> bool {
        &&& self.k <= 4
        &&& self.eta1 <= 3
        &&& self.eta2 <= 3
        &&& 1 <= self.du <= 12
        &&& 1 <= self.dv <= 12
        &&& self.public_key_length == 384 * self.k + 32
        &&& self.secret_key_length == 768 * self.k + 96
        &&& self.ciphertext_length == 32 * (self.du * self.k + self.dv)
        &&& self.ciphertext_length <= MAX_CIPHERTEXT_BYTES
    }

    /// The numeric fields of a parameter set, as a tuple
    /// `(k, eta1, eta2, du, dv, public_key_length, secret_key_length,
    /// ciphertext_length)`.
    pub open spec fn numbers(&self) -> (usize, usize, usize, usize, usize, usize, usize, usize) {
        (
            self.k,
            self.eta1,
            self.eta2,
            self.du,
            self.dv,
            self.public_key_length,
            self.secret_key_length,
            self.ciphertext_length,
        )
    }

    /// Creates a new parameter set by name.
    ///
    /// # Arguments
    /// * `name` - Parameter set identifier: "ML-KEM-512", "ML-KEM-768", or "ML-KEM-1024"
    ///
    /// # Returns
    /// * `Ok:(MLKEMParameters)` - Valid parameter set
    /// * `Err(&'static str)` - Unknown parameter set name: `"Unknown parameter set"`
    pub fn new(name: &str) -> (r: Result<Self, &'static str>)
        ensures
            name.spec_bytes() == "ML-KEM-512".spec_bytes() ==> (r matches Ok(p) && p.numbers() == (
                2usize,
                3usize,
                2usize,
                10usize,
                4usize,
                800usize,
                1632usize,
                768usize,
            ) && p.name.spec_bytes() == "ML-KEM-512".spec_bytes()),
            name.spec_bytes() == "ML-KEM-768".spec_bytes() ==> (r matches Ok(p) && p.numbers() == (
                3usize,
                2usize,
                2usize,
                10usize,
                4usize,
                1184usize,
                2400usize,
                1088usize,
            ) && p.name.spec_bytes() == "ML-KEM-768".spec_bytes()),
            name.spec_bytes() == "ML-KEM-1024".spec_bytes() ==> (r matches Ok(p) && p.numbers() == (
                4usize,
                2usize,
                2usize,
                11usize,
                5usize,
                1568usize,
                3168usize,
                1568usize,
            ) && p.name.spec_bytes() == "ML-KEM-1024".spec_bytes()),
            name.spec_bytes() != "ML-KEM-512".spec_bytes() && name.spec_bytes()
                != "ML-KEM-768".spec_bytes() && name.spec_bytes() != "ML-KEM-1024".spec_bytes()
                ==> (r matches Err(e) && e.spec_bytes() == "Unknown parameter set".spec_bytes()),
            r matches Ok(p) ==> p.wf(),
    {
        proof {
            lemma_names_distinct();
        }
        let given = name.as_bytes();
        if bytes_eq(given, "ML-KEM-512".as_bytes()) {
            Ok(
                MLKEMParameters {
                    name: "ML-KEM-512",
                    k: 2,
                    eta1: 3,
                    eta2: 2,
                    du: 10,
                    dv: 4,
                    public_key_length: 800,
                    secret_key_length: 1632,
                    ciphertext_length: 768,
                },
            )
        } else if bytes_eq(given, "ML-KEM-768".as_bytes()) {
            Ok(
                MLKEMParameters {
                    name: "ML-KEM-768",
                    k: 3,
                    eta1: 2,
                    eta2: 2,
                    du: 10,
                    dv: 4,
                    public_key_length: 1184,
                    secret_key_length: 2400,
                    ciphertext_length: 1088,
                },
            )
        } else if bytes_eq(given, "ML-KEM-1024".as_bytes()) {
            Ok(
                MLKEMParameters {
                    name: "ML-KEM-1024",
                    k: 4,
                    eta1: 2,
                    eta2: 2,
                    du: 11,
                    dv: 5,
                    public_key_length: 1568,
                    secret_key_length: 3168,
                    ciphertext_length: 1568,
                },
            )
        } else {
            Err("Unknown parameter set")
        }
    }
}

/// The three parameter-set names have different encodings.
proof fn lemma_names_distinct()
    ensures
        "ML-KEM-512".spec_bytes() != "ML-KEM-768".spec_bytes(),
        "ML-KEM-512".spec_bytes() != "ML-KEM-1024".spec_bytes(),
        "ML-KEM-768".spec_bytes() != "ML-KEM-1024".spec_bytes(),
{
    reveal_strlit("ML-KEM-512");
    reveal_strlit("ML-KEM-768");
    reveal_strlit("ML-KEM-1024");
    vstd::string::is_ascii_spec_bytes("ML-KEM-512");
    vstd::string::is_ascii_spec_bytes("ML-KEM-768");
    vstd::string::is_ascii_spec_bytes("ML-KEM-1024");
    assert(vstd::string::is_ascii("ML-KEM-512"));
    assert(vstd::string::is_ascii("ML-KEM-768"));
    assert(vstd::string::is_ascii("ML-KEM-1024"));
    assert("ML-KEM-512".spec_bytes()[7] != "ML-KEM-768".spec_bytes()[7]);
    assert("ML-KEM-512".spec_bytes().len() != "ML-KEM-1024".spec_bytes().len());
    assert("ML-KEM-768".spec_bytes().len() != "ML-KEM-1024".spec_bytes().len());
}

} // verus!
