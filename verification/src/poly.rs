//! Polynomials of 256 coefficients and their addition and subtraction
//! modulo q.
use crate::arith::{modq, Q};
use vstd::prelude::*;

verus! {

/// Number of coefficients of a polynomial.
pub const N: usize = 256;

/// Largest module rank among the parameter sets.
pub const MAX_K: usize = 4;

/// A polynomial whose 256 coefficients lie in `[0, q)`.
pub open spec fn is_reduced(p: Seq<i32>) -> bool {
    &&& p.len() == 256
    &&& forall|i: int| 0 <= i < 256 ==> 0 <= #[trigger] p[i] < 3329
}

/// The first `k` polynomials of a vector are reduced.
pub open spec fn vec_reduced(v: Seq<[i32; 256]>, k: int) -> bool {
    forall|i: int| 0 <= i < k ==> is_reduced(#[trigger] v[i]@)
}

/// The zero polynomial.
pub open spec fn poly_zero() -> Seq<i32> {
    Seq::new(256, |i: int| 0i32)
}

/// Coefficient-wise sum modulo q.
pub open spec fn poly_add(u: Seq<i32>, v: Seq<i32>) -> Seq<i32> {
    Seq::new(256, |i: int| ((u[i] + v[i]) % 3329) as i32)
}

/// Coefficient-wise difference modulo q.
pub open spec fn poly_sub(u: Seq<i32>, v: Seq<i32>) -> Seq<i32> {
    Seq::new(256, |i: int| ((u[i] - v[i]) % 3329) as i32)
}

/// The coefficient-wise sum of `u` and `v` fits in an `i32`.
pub open spec fn add_fits(u: Seq<i32>, v: Seq<i32>) -> bool {
    forall|i: int| 0 <= i < 256 ==> i32::MIN <= #[trigger] u[i] + v[i] <= i32::MAX
}

/// The coefficient-wise difference of `u` and `v` fits in an `i32`.
pub open spec fn sub_fits(u: Seq<i32>, v: Seq<i32>) -> bool {
    forall|i: int| 0 <= i < 256 ==> i32::MIN <= #[trigger] u[i] - v[i] <= i32::MAX
}

/// Polynomial addition modulo q.
pub fn padd(u: &[i32; N], v: &[i32; N], out: &mut [i32; N])
    requires
        add_fits(u@, v@),
    ensures
        final(out)@ == poly_add(u@, v@),
        is_reduced(final(out)@),
{
    for i in 0..N
        invariant
            add_fits(u@, v@),
            forall|j: int| 0 <= j < i ==> out@[j] == poly_add(u@, v@)[j],
            forall|j: int| 0 <= j < i ==> 0 <= #[trigger] out@[j] < 3329,
    {
        assert(i32::MIN <= u@[i as int] + v@[i as int] <= i32::MAX);
        out[i] = modq(u[i] + v[i], Q);
    }
    assert(out@ =~= poly_add(u@, v@));
}

/// Polynomial subtraction modulo q.
pub fn psub(u: &[i32; N], v: &[i32; N], out: &mut [i32; N])
    requires
        sub_fits(u@, v@),
    ensures
        final(out)@ == poly_sub(u@, v@),
        is_reduced(final(out)@),
{
    for i in 0..N
        invariant
            sub_fits(u@, v@),
            forall|j: int| 0 <= j < i ==> out@[j] == poly_sub(u@, v@)[j],
            forall|j: int| 0 <= j < i ==> 0 <= #[trigger] out@[j] < 3329,
    {
        assert(i32::MIN <= u@[i as int] - v@[i as int] <= i32::MAX);
        out[i] = modq(u[i] - v[i], Q);
    }
    assert(out@ =~= poly_sub(u@, v@));
}

/// Adds the first `k` polynomials of two vectors; the other entries of
/// `out` are left as they were.
pub fn vadd(u: &[[i32; 256]; MAX_K], v: &[[i32; 256]; MAX_K], k: usize, out: &mut [[i32; 256]; MAX_K])
    requires
        k <= MAX_K,
        forall|i: int| 0 <= i < k ==> add_fits(#[trigger] u@[i]@, v@[i]@),
    ensures
        forall|i: int| 0 <= i < k ==> #[trigger] final(out)@[i]@ == poly_add(u@[i]@, v@[i]@),
        forall|i: int| k <= i < MAX_K ==> #[trigger] final(out)@[i] == old(out)@[i],
        vec_reduced(final(out)@, k as int),
{
    for i in 0..k
        invariant
            k <= MAX_K,
            forall|i: int| 0 <= i < k ==> add_fits(#[trigger] u@[i]@, v@[i]@),
            forall|j: int| 0 <= j < i ==> #[trigger] out@[j]@ == poly_add(u@[j]@, v@[j]@),
            forall|j: int| i <= j < MAX_K ==> #[trigger] out@[j] == old(out)@[j],
            vec_reduced(out@, i as int),
    {
        padd(&u[i], &v[i], &mut out[i]);
    }
}

} // verus!
