//! Algebraic laws of polynomials modulo q: the additive group of
//! coefficient vectors, the ring structure of the NTT domain, and finite
//! sums of polynomials.
use crate::ntt::{base_mul, dot_spec, gamma};
use crate::poly::{is_reduced, poly_add, poly_sub, poly_zero};
use vstd::arithmetic::div_mod::*;
use vstd::arithmetic::mul::*;
use vstd::prelude::*;

verus! {

/// `a` and `b` are congruent modulo q.
pub open spec fn cong(a: int, b: int) -> bool {
    a % 3329 == b % 3329
}

/// A residue is congruent to the value it was taken of.
pub proof fn lemma_cong_mod(a: int)
    ensures
        cong(a % 3329, a),
{
    lemma_mod_twice(a, 3329);
}

/// Congruence is preserved by addition.
pub proof fn lemma_cong_add(a: int, b: int, c: int, d: int)
    requires
        cong(a, c),
        cong(b, d),
    ensures
        cong(a + b, c + d),
{
    lemma_add_mod_noop(a, b, 3329);
    lemma_add_mod_noop(c, d, 3329);
}

/// Congruence is preserved by subtraction.
pub proof fn lemma_cong_sub(a: int, b: int, c: int, d: int)
    requires
        cong(a, c),
        cong(b, d),
    ensures
        cong(a - b, c - d),
{
    lemma_sub_mod_noop(a, b, 3329);
    lemma_sub_mod_noop(c, d, 3329);
}

/// Congruence is preserved by multiplication.
pub proof fn lemma_cong_mul(a: int, b: int, c: int, d: int)
    requires
        cong(a, c),
        cong(b, d),
    ensures
        cong(a * b, c * d),
{
    lemma_mul_mod_noop(a, b, 3329);
    lemma_mul_mod_noop(c, d, 3329);
}

/// Addition modulo q is commutative.
pub proof fn lemma_poly_add_comm(a: Seq<i32>, b: Seq<i32>)
    ensures
        poly_add(a, b) == poly_add(b, a),
{
    assert(poly_add(a, b) =~= poly_add(b, a));
}

/// Addition modulo q is associative.
pub proof fn lemma_poly_add_assoc(a: Seq<i32>, b: Seq<i32>, c: Seq<i32>)
    ensures
        poly_add(poly_add(a, b), c) == poly_add(a, poly_add(b, c)),
{
    assert forall|x: int| 0 <= x < 256 implies #[trigger] poly_add(poly_add(a, b), c)[x]
        == poly_add(a, poly_add(b, c))[x] by {
        let ai = a[x] as int;
        let bi = b[x] as int;
        let ci = c[x] as int;
        lemma_cong_mod(ai + bi);
        lemma_cong_mod(bi + ci);
        lemma_cong_add((ai + bi) % 3329, ci, ai + bi, ci);
        lemma_cong_add(ai, (bi + ci) % 3329, ai, bi + ci);
    }
    assert(poly_add(poly_add(a, b), c) =~= poly_add(a, poly_add(b, c)));
}

/// Zero is neutral for addition modulo q.
pub proof fn lemma_poly_add_zero(a: Seq<i32>)
    requires
        is_reduced(a),
    ensures
        poly_add(a, poly_zero()) == a,
{
    assert forall|x: int| 0 <= x < 256 implies #[trigger] poly_add(a, poly_zero())[x] == a[x] by {
        lemma_small_mod(a[x] as nat, 3329);
    }
    assert(poly_add(a, poly_zero()) =~= a);
}

/// Adding a difference back gives the minuend.
pub proof fn lemma_poly_add_sub(a: Seq<i32>, b: Seq<i32>)
    requires
        is_reduced(a),
    ensures
        poly_add(b, poly_sub(a, b)) == a,
{
    assert forall|x: int| 0 <= x < 256 implies #[trigger] poly_add(b, poly_sub(a, b))[x] == a[x] by {
        let ai = a[x] as int;
        let bi = b[x] as int;
        lemma_cong_mod(ai - bi);
        lemma_cong_add(bi, (ai - bi) % 3329, bi, ai - bi);
        lemma_small_mod(ai as nat, 3329);
    }
    assert(poly_add(b, poly_sub(a, b)) =~= a);
}

/// Four summands may be regrouped: `(a + b) + (c + d) = (a + c) + (b + d)`.
pub proof fn lemma_poly_add_swap(a: Seq<i32>, b: Seq<i32>, c: Seq<i32>, d: Seq<i32>)
    ensures
        poly_add(poly_add(a, b), poly_add(c, d)) == poly_add(poly_add(a, c), poly_add(b, d)),
{
    assert forall|x: int| 0 <= x < 256 implies #[trigger] poly_add(poly_add(a, b), poly_add(c, d))[x]
        == poly_add(poly_add(a, c), poly_add(b, d))[x] by {
        let ai = a[x] as int;
        let bi = b[x] as int;
        let ci = c[x] as int;
        let di = d[x] as int;
        lemma_cong_mod(ai + bi);
        lemma_cong_mod(ci + di);
        lemma_cong_mod(ai + ci);
        lemma_cong_mod(bi + di);
        lemma_cong_add((ai + bi) % 3329, (ci + di) % 3329, ai + bi, ci + di);
        lemma_cong_add((ai + ci) % 3329, (bi + di) % 3329, ai + ci, bi + di);
    }
    assert(poly_add(poly_add(a, b), poly_add(c, d)) =~= poly_add(poly_add(a, c), poly_add(b, d)));
}

/// Positions `2 i` and `2 i + 1` of the pair that holds `x`.
proof fn lemma_pair_index(x: int)
    requires
        0 <= x < 256,
    ensures
        0 <= 2 * (x / 2) && 2 * (x / 2) + 1 < 256,
        (2 * (x / 2)) / 2 == x / 2 && (2 * (x / 2) + 1) / 2 == x / 2,
        (2 * (x / 2)) % 2 == 0 && (2 * (x / 2) + 1) % 2 == 1,
        x == 2 * (x / 2) || x == 2 * (x / 2) + 1,
{
}

/// Multiplication in the NTT domain is commutative.
pub proof fn lemma_base_mul_comm(a: Seq<i32>, b: Seq<i32>)
    ensures
        base_mul(a, b) == base_mul(b, a),
{
    assert forall|x: int| 0 <= x < 256 implies #[trigger] base_mul(a, b)[x] == base_mul(b, a)[x] by {
        let i = x / 2;
        let a0 = a[2 * i] as int;
        let a1 = a[2 * i + 1] as int;
        let b0 = b[2 * i] as int;
        let b1 = b[2 * i + 1] as int;
        let g = gamma(i);
        assert(a0 * b0 + a1 * b1 * g == b0 * a0 + b1 * a1 * g) by (nonlinear_arith);
        assert(a0 * b1 + a1 * b0 == b0 * a1 + b1 * a0) by (nonlinear_arith);
    }
    assert(base_mul(a, b) =~= base_mul(b, a));
}

/// Multiplication by zero in the NTT domain gives zero.
pub proof fn lemma_base_mul_zero(a: Seq<i32>)
    ensures
        base_mul(a, poly_zero()) == poly_zero(),
{
    let z = poly_zero();
    assert forall|x: int| 0 <= x < 256 implies #[trigger] base_mul(a, z)[x] == z[x] by {
        lemma_pair_index(x);
        let i = x / 2;
        assert(z[2 * i] == 0 && z[2 * i + 1] == 0);
        let a0 = a[2 * i] as int;
        let a1 = a[2 * i + 1] as int;
        assert(a0 * 0 + a1 * 0 * gamma(i) == 0) by (nonlinear_arith);
        assert(a0 * 0 + a1 * 0 == 0) by (nonlinear_arith);
    }
    assert(base_mul(a, z) =~= z);
}

/// Multiplication in the NTT domain distributes over addition.
pub proof fn lemma_base_mul_distrib(a: Seq<i32>, b: Seq<i32>, c: Seq<i32>)
    ensures
        base_mul(a, poly_add(b, c)) == poly_add(base_mul(a, b), base_mul(a, c)),
{
    let bc = poly_add(b, c);
    assert forall|x: int| 0 <= x < 256 implies #[trigger] base_mul(a, bc)[x] == poly_add(
        base_mul(a, b),
        base_mul(a, c),
    )[x] by {
        lemma_pair_index(x);
        let i = x / 2;
        let a0 = a[2 * i] as int;
        let a1 = a[2 * i + 1] as int;
        let b0 = b[2 * i] as int;
        let b1 = b[2 * i + 1] as int;
        let c0 = c[2 * i] as int;
        let c1 = c[2 * i + 1] as int;
        let g = gamma(i);
        let s0 = (b0 + c0) % 3329;
        let s1 = (b1 + c1) % 3329;
        assert(bc[2 * i] as int == s0 && bc[2 * i + 1] as int == s1);
        lemma_cong_mod(b0 + c0);
        lemma_cong_mod(b1 + c1);
        lemma_cong_mul(a0, s0, a0, b0 + c0);
        lemma_cong_mul(a1, s1, a1, b1 + c1);
        lemma_cong_mul(a0, s1, a0, b1 + c1);
        lemma_cong_mul(a1, s0, a1, b0 + c0);
        lemma_cong_mul(a1 * s1, g, a1 * (b1 + c1), g);
        if x % 2 == 0 {
            let p = a0 * b0 + a1 * b1 * g;
            let r = a0 * c0 + a1 * c1 * g;
            lemma_cong_add(a0 * s0, a1 * s1 * g, a0 * (b0 + c0), a1 * (b1 + c1) * g);
            lemma_cong_mod(p);
            lemma_cong_mod(r);
            lemma_cong_add(p % 3329, r % 3329, p, r);
            assert(a0 * (b0 + c0) + a1 * (b1 + c1) * g == p + r) by (nonlinear_arith)
                requires
                    p == a0 * b0 + a1 * b1 * g,
                    r == a0 * c0 + a1 * c1 * g,
            ;
        } else {
            let p = a0 * b1 + a1 * b0;
            let r = a0 * c1 + a1 * c0;
            lemma_cong_add(a0 * s1, a1 * s0, a0 * (b1 + c1), a1 * (b0 + c0));
            lemma_cong_mod(p);
            lemma_cong_mod(r);
            lemma_cong_add(p % 3329, r % 3329, p, r);
            assert(a0 * (b1 + c1) + a1 * (b0 + c0) == p + r) by (nonlinear_arith)
                requires
                    p == a0 * b1 + a1 * b0,
                    r == a0 * c1 + a1 * c0,
            ;
        }
    }
    assert(base_mul(a, bc) =~= poly_add(base_mul(a, b), base_mul(a, c)));
}

/// `a (b c + h g) = a b c + a h g`.
proof fn lemma_scale_sum(a: int, b: int, c: int, h: int, g: int)
    ensures
        a * (b * c + h * g) == a * b * c + a * h * g,
{
    lemma_mul_is_distributive_add(a, b * c, h * g);
    lemma_mul_is_associative(a, b, c);
    lemma_mul_is_associative(a, h, g);
}

/// The even coefficient of a product of three elements of
/// `Z[X]/(X^2 - g)` does not depend on how the product is bracketed.
proof fn lemma_pair_product_even(a0: int, a1: int, b0: int, b1: int, c0: int, c1: int, g: int)
    ensures
        (a0 * b0 + a1 * b1 * g) * c0 + (a0 * b1 + a1 * b0) * c1 * g == a0 * (b0 * c0 + b1 * c1
            * g) + a1 * (b0 * c1 + b1 * c0) * g,
{
    assert((a0 * b0 + a1 * b1 * g) * c0 == a0 * b0 * c0 + a1 * b1 * c0 * g) by (nonlinear_arith);
    assert((a0 * b1 + a1 * b0) * c1 * g == a0 * b1 * c1 * g + a1 * b0 * c1 * g) by (nonlinear_arith);
    lemma_scale_sum(a0, b0, c0, b1 * c1, g);
    lemma_mul_is_associative(a0, b1, c1);
    lemma_mul_is_distributive_add(a1, b0 * c1, b1 * c0);
    lemma_mul_is_distributive_add_other_way(g, a1 * (b0 * c1), a1 * (b1 * c0));
    lemma_mul_is_associative(a1, b0, c1);
    lemma_mul_is_associative(a1, b1, c0);
}

/// The odd coefficient of a product of three elements of `Z[X]/(X^2 - g)`
/// does not depend on how the product is bracketed.
proof fn lemma_pair_product_odd(a0: int, a1: int, b0: int, b1: int, c0: int, c1: int, g: int)
    ensures
        (a0 * b0 + a1 * b1 * g) * c1 + (a0 * b1 + a1 * b0) * c0 == a0 * (b0 * c1 + b1 * c0) + a1 * (
        b0 * c0 + b1 * c1 * g),
{
    assert((a0 * b0 + a1 * b1 * g) * c1 == a0 * b0 * c1 + a1 * b1 * c1 * g) by (nonlinear_arith);
    assert((a0 * b1 + a1 * b0) * c0 == a0 * b1 * c0 + a1 * b0 * c0) by (nonlinear_arith);
    lemma_mul_is_distributive_add(a0, b0 * c1, b1 * c0);
    lemma_mul_is_associative(a0, b0, c1);
    lemma_mul_is_associative(a0, b1, c0);
    lemma_scale_sum(a1, b0, c0, b1 * c1, g);
    lemma_mul_is_associative(a1, b1, c1);
}

/// Multiplication in the NTT domain is associative.
pub proof fn lemma_base_mul_assoc(a: Seq<i32>, b: Seq<i32>, c: Seq<i32>)
    ensures
        base_mul(base_mul(a, b), c) == base_mul(a, base_mul(b, c)),
{
    let ab = base_mul(a, b);
    let bc = base_mul(b, c);
    assert forall|x: int| 0 <= x < 256 implies #[trigger] base_mul(ab, c)[x] == base_mul(a, bc)[x] by {
        lemma_pair_index(x);
        let i = x / 2;
        let a0 = a[2 * i] as int;
        let a1 = a[2 * i + 1] as int;
        let b0 = b[2 * i] as int;
        let b1 = b[2 * i + 1] as int;
        let c0 = c[2 * i] as int;
        let c1 = c[2 * i + 1] as int;
        let g = gamma(i);
        let pe = a0 * b0 + a1 * b1 * g;
        let po = a0 * b1 + a1 * b0;
        let qe = b0 * c0 + b1 * c1 * g;
        let qo = b0 * c1 + b1 * c0;
        assert(ab[2 * i] as int == pe % 3329 && ab[2 * i + 1] as int == po % 3329);
        assert(bc[2 * i] as int == qe % 3329 && bc[2 * i + 1] as int == qo % 3329);
        lemma_cong_mod(pe);
        lemma_cong_mod(po);
        lemma_cong_mod(qe);
        lemma_cong_mod(qo);
        if x % 2 == 0 {
            lemma_cong_mul(pe % 3329, c0, pe, c0);
            lemma_cong_mul(po % 3329, c1, po, c1);
            lemma_cong_mul((po % 3329) * c1, g, po * c1, g);
            lemma_cong_add((pe % 3329) * c0, (po % 3329) * c1 * g, pe * c0, po * c1 * g);
            lemma_cong_mul(a0, qe % 3329, a0, qe);
            lemma_cong_mul(a1, qo % 3329, a1, qo);
            lemma_cong_mul(a1 * (qo % 3329), g, a1 * qo, g);
            lemma_cong_add(a0 * (qe % 3329), a1 * (qo % 3329) * g, a0 * qe, a1 * qo * g);
            lemma_pair_product_even(a0, a1, b0, b1, c0, c1, g);
        } else {
            lemma_cong_mul(pe % 3329, c1, pe, c1);
            lemma_cong_mul(po % 3329, c0, po, c0);
            lemma_cong_add((pe % 3329) * c1, (po % 3329) * c0, pe * c1, po * c0);
            lemma_cong_mul(a0, qo % 3329, a0, qo);
            lemma_cong_mul(a1, qe % 3329, a1, qe);
            lemma_cong_add(a0 * (qo % 3329), a1 * (qe % 3329), a0 * qo, a1 * qe);
            lemma_pair_product_odd(a0, a1, b0, b1, c0, c1, g);
        }
    }
    assert(base_mul(ab, c) =~= base_mul(a, bc));
}

/// `t(0) + t(1) + ... + t(n - 1)` modulo q.
pub open spec fn psum(t: spec_fn(int) -> Seq<i32>, n: int) -> Seq<i32>
    decreases n,
{
    if n <= 0 {
        poly_zero()
    } else {
        poly_add(psum(t, n - 1), t(n - 1))
    }
}

/// A sum depends only on its first `n` terms.
pub proof fn lemma_psum_ext(t1: spec_fn(int) -> Seq<i32>, t2: spec_fn(int) -> Seq<i32>, n: int)
    requires
        forall|j: int| 0 <= j < n ==> #[trigger] t1(j) == t2(j),
    ensures
        psum(t1, n) == psum(t2, n),
    decreases n,
{
    if n > 0 {
        lemma_psum_ext(t1, t2, n - 1);
    }
}

/// A sum is reduced modulo q.
pub proof fn lemma_psum_reduced(t: spec_fn(int) -> Seq<i32>, n: int)
    ensures
        is_reduced(psum(t, n)),
{
}

/// A sum of zeros is zero.
pub proof fn lemma_psum_zero(t: spec_fn(int) -> Seq<i32>, n: int)
    requires
        forall|j: int| 0 <= j < n ==> #[trigger] t(j) == poly_zero(),
    ensures
        psum(t, n) == poly_zero(),
    decreases n,
{
    if n > 0 {
        lemma_psum_zero(t, n - 1);
        lemma_poly_add_zero(poly_zero());
    }
}

/// The sum of two sums is the sum of the termwise sums.
pub proof fn lemma_psum_add(t1: spec_fn(int) -> Seq<i32>, t2: spec_fn(int) -> Seq<i32>, n: int)
    ensures
        poly_add(psum(t1, n), psum(t2, n)) == psum(|j: int| poly_add(t1(j), t2(j)), n),
    decreases n,
{
    if n <= 0 {
        lemma_poly_add_zero(poly_zero());
    } else {
        lemma_psum_add(t1, t2, n - 1);
        lemma_poly_add_swap(psum(t1, n - 1), t1(n - 1), psum(t2, n - 1), t2(n - 1));
    }
}

/// The order of summation of a double sum can be exchanged.
pub proof fn lemma_psum_exchange(f: spec_fn(int, int) -> Seq<i32>, n: int, m: int)
    ensures
        psum(|j: int| psum(|i: int| f(i, j), m), n) == psum(|i: int| psum(|j: int| f(i, j), n), m),
    decreases n,
{
    let rows = |i: int| psum(|j: int| f(i, j), n);
    if n <= 0 {
        lemma_psum_zero(rows, m);
    } else {
        lemma_psum_exchange(f, n - 1, m);
        let prev = |i: int| psum(|j: int| f(i, j), n - 1);
        let last = |i: int| f(i, n - 1);
        lemma_psum_add(prev, last, m);
        assert forall|i: int| 0 <= i < m implies #[trigger] rows(i) == poly_add(prev(i), last(i)) by {
        }
        lemma_psum_ext(|j: int| poly_add(prev(j), last(j)), rows, m);
        let cols = |j: int| psum(|i: int| f(i, j), m);
        assert(cols(n - 1) == psum(last, m)) by {
            lemma_psum_ext(|i: int| f(i, n - 1), last, m);
        }
    }
}

/// Multiplying a sum multiplies each term.
pub proof fn lemma_base_mul_psum(s: Seq<i32>, t: spec_fn(int) -> Seq<i32>, n: int)
    ensures
        base_mul(s, psum(t, n)) == psum(|j: int| base_mul(s, t(j)), n),
    decreases n,
{
    if n <= 0 {
        lemma_base_mul_zero(s);
    } else {
        lemma_base_mul_psum(s, t, n - 1);
        lemma_base_mul_distrib(s, psum(t, n - 1), t(n - 1));
    }
}

/// A dot product in the NTT domain is the sum of the termwise products.
pub proof fn lemma_dot_psum(u: Seq<Seq<i32>>, v: Seq<Seq<i32>>, n: int)
    ensures
        dot_spec(u, v, n) == psum(|j: int| base_mul(u[j], v[j]), n),
    decreases n,
{
    if n > 0 {
        lemma_dot_psum(u, v, n - 1);
    }
}

/// A dot product is additive in its first vector.
pub proof fn lemma_dot_add_left(
    u1: Seq<Seq<i32>>,
    u2: Seq<Seq<i32>>,
    w: Seq<Seq<i32>>,
    v: Seq<Seq<i32>>,
    n: int,
)
    requires
        forall|j: int| 0 <= j < n ==> #[trigger] w[j] == poly_add(u1[j], u2[j]),
    ensures
        dot_spec(w, v, n) == poly_add(dot_spec(u1, v, n), dot_spec(u2, v, n)),
{
    let t1 = |j: int| base_mul(u1[j], v[j]);
    let t2 = |j: int| base_mul(u2[j], v[j]);
    lemma_dot_psum(u1, v, n);
    lemma_dot_psum(u2, v, n);
    lemma_dot_psum(w, v, n);
    lemma_psum_add(t1, t2, n);
    assert forall|j: int| 0 <= j < n implies #[trigger] base_mul(w[j], v[j]) == poly_add(
        t1(j),
        t2(j),
    ) by {
        lemma_base_mul_comm(w[j], v[j]);
        lemma_base_mul_distrib(v[j], u1[j], u2[j]);
        lemma_base_mul_comm(v[j], u1[j]);
        lemma_base_mul_comm(v[j], u2[j]);
    }
    lemma_psum_ext(|j: int| base_mul(w[j], v[j]), |j: int| poly_add(t1(j), t2(j)), n);
}

/// A dot product is additive in its second vector.
pub proof fn lemma_dot_add_right(
    u: Seq<Seq<i32>>,
    v1: Seq<Seq<i32>>,
    v2: Seq<Seq<i32>>,
    w: Seq<Seq<i32>>,
    n: int,
)
    requires
        forall|j: int| 0 <= j < n ==> #[trigger] w[j] == poly_add(v1[j], v2[j]),
    ensures
        dot_spec(u, w, n) == poly_add(dot_spec(u, v1, n), dot_spec(u, v2, n)),
{
    let t1 = |j: int| base_mul(u[j], v1[j]);
    let t2 = |j: int| base_mul(u[j], v2[j]);
    lemma_dot_psum(u, v1, n);
    lemma_dot_psum(u, v2, n);
    lemma_dot_psum(u, w, n);
    lemma_psum_add(t1, t2, n);
    assert forall|j: int| 0 <= j < n implies #[trigger] base_mul(u[j], w[j]) == poly_add(
        t1(j),
        t2(j),
    ) by {
        lemma_base_mul_distrib(u[j], v1[j], v2[j]);
    }
    lemma_psum_ext(|j: int| base_mul(u[j], w[j]), |j: int| poly_add(t1(j), t2(j)), n);
}

/// `s^T (A^T y) = (A s)^T y` in the NTT domain, for the `k x k` matrix with
/// entries `a(i, j)`.
pub proof fn lemma_mat_exchange(
    a: spec_fn(int, int) -> Seq<i32>,
    s: Seq<Seq<i32>>,
    y: Seq<Seq<i32>>,
    k: nat,
)
    ensures
        dot_spec(
            s,
            Seq::new(k, |j: int| dot_spec(Seq::new(k, |i: int| a(i, j)), y, k as int)),
            k as int,
        ) == dot_spec(
            Seq::new(k, |i: int| dot_spec(Seq::new(k, |j: int| a(i, j)), s, k as int)),
            y,
            k as int,
        ),
{
    let n = k as int;
    let f = |i: int, j: int| base_mul(s[j], base_mul(a(i, j), y[i]));
    let cols = Seq::new(k, |j: int| dot_spec(Seq::new(k, |i: int| a(i, j)), y, n));
    let rows = Seq::new(k, |i: int| dot_spec(Seq::new(k, |j: int| a(i, j)), s, n));
    let by_cols = |j: int| psum(|i: int| f(i, j), n);
    let by_rows = |i: int| psum(|j: int| f(i, j), n);
    lemma_dot_psum(s, cols, n);
    assert forall|j: int| 0 <= j < n implies #[trigger] base_mul(s[j], cols[j]) == by_cols(j) by {
        let col = Seq::new(k, |i: int| a(i, j));
        lemma_dot_psum(col, y, n);
        lemma_psum_ext(|i: int| base_mul(col[i], y[i]), |i: int| base_mul(a(i, j), y[i]), n);
        let h = |i: int| base_mul(a(i, j), y[i]);
        lemma_base_mul_psum(s[j], h, n);
        lemma_psum_ext(|i: int| base_mul(s[j], h(i)), |i: int| f(i, j), n);
    }
    lemma_psum_ext(|j: int| base_mul(s[j], cols[j]), by_cols, n);
    lemma_dot_psum(rows, y, n);
    assert forall|i: int| 0 <= i < n implies #[trigger] base_mul(rows[i], y[i]) == by_rows(i) by {
        let row = Seq::new(k, |j: int| a(i, j));
        lemma_dot_psum(row, s, n);
        lemma_psum_ext(|j: int| base_mul(row[j], s[j]), |j: int| base_mul(a(i, j), s[j]), n);
        lemma_base_mul_comm(rows[i], y[i]);
        let g = |j: int| base_mul(a(i, j), s[j]);
        lemma_base_mul_psum(y[i], g, n);
        assert forall|j: int| 0 <= j < n implies #[trigger] base_mul(y[i], g(j)) == f(i, j) by {
            lemma_base_mul_assoc(y[i], a(i, j), s[j]);
            lemma_base_mul_comm(y[i], a(i, j));
            lemma_base_mul_comm(base_mul(a(i, j), y[i]), s[j]);
        }
        lemma_psum_ext(|j: int| base_mul(y[i], g(j)), |j: int| f(i, j), n);
    }
    lemma_psum_ext(|i: int| base_mul(rows[i], y[i]), by_rows, n);
    lemma_psum_exchange(f, n, n);
}

} // verus!
