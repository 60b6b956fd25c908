//! Fractions as pairs of a numerator and a positive denominator, the field
//! operations on them, and the laws of equality of their values.
use vstd::prelude::*;
use vstd::arithmetic::mul::{
    lemma_mul_is_distributive_add_other_way, lemma_mul_is_distributive_sub_other_way,
};

verus! {

/// A fraction `(numerator, denominator)`.
pub type Frac = (int, int);

/// A fraction with a positive denominator.
pub open spec fn q_valid(a: Frac) -> bool {
    a.1 > 0
}

/// The two fractions have the same value.
pub open spec fn q_eq(a: Frac, b: Frac) -> bool {
    a.0 * b.1 == b.0 * a.1
}

/// Zero.
pub open spec fn q_zero() -> Frac {
    (0, 1)
}

/// The fraction has the value zero.
pub open spec fn q_is_zero(a: Frac) -> bool {
    a.0 == 0
}

/// The fraction has the value one.
pub open spec fn q_is_one(a: Frac) -> bool {
    a.0 == a.1
}

pub open spec fn q_add(a: Frac, b: Frac) -> Frac {
    (a.0 * b.1 + b.0 * a.1, a.1 * b.1)
}

pub open spec fn q_sub(a: Frac, b: Frac) -> Frac {
    (a.0 * b.1 - b.0 * a.1, a.1 * b.1)
}

pub open spec fn q_mul(a: Frac, b: Frac) -> Frac {
    (a.0 * b.0, a.1 * b.1)
}

/// The reciprocal of a nonzero fraction, the sign carried by the numerator.
pub open spec fn q_inv(b: Frac) -> Frac {
    if b.0 > 0 {
        (b.1, b.0)
    } else {
        (-b.1, -b.0)
    }
}

/// The quotient by a nonzero fraction.
pub open spec fn q_div(a: Frac, b: Frac) -> Frac {
    q_mul(a, q_inv(b))
}

/// Sums, differences and products of fractions with positive denominators
/// have positive denominators; so has the reciprocal of a nonzero fraction,
/// which is nonzero.
pub proof fn lemma_ops_valid(a: Frac, b: Frac)
    requires
        q_valid(a),
        q_valid(b),
    ensures
        q_valid(q_add(a, b)),
        q_valid(q_sub(a, b)),
        q_valid(q_mul(a, b)),
        b.0 != 0 ==> q_valid(q_inv(b)) && q_inv(b).0 != 0,
        b.0 != 0 ==> q_valid(q_div(a, b)),
{
    assert(a.1 * b.1 > 0) by (nonlinear_arith)
        requires
            a.1 > 0,
            b.1 > 0,
    ;
    if b.0 != 0 {
        let k = q_inv(b);
        assert(k.1 > 0 && k.0 != 0);
        assert(a.1 * k.1 > 0) by (nonlinear_arith)
            requires
                a.1 > 0,
                k.1 > 0,
        ;
    }
}

/// Equal values are equal in both orders, and equality of values is transitive.
pub proof fn lemma_eq_trans(a: Frac, b: Frac, c: Frac)
    requires
        q_valid(a),
        q_valid(b),
        q_valid(c),
        q_eq(a, b),
        q_eq(b, c),
    ensures
        q_eq(a, c),
{
    assert(a.0 * c.1 * b.1 == c.0 * a.1 * b.1) by (nonlinear_arith)
        requires
            a.0 * b.1 == b.0 * a.1,
            b.0 * c.1 == c.0 * b.1,
    ;
    assert(a.0 * c.1 == c.0 * a.1) by (nonlinear_arith)
        requires
            a.0 * c.1 * b.1 == c.0 * a.1 * b.1,
            b.1 > 0,
    ;
}

/// A fraction has the value zero exactly when its numerator is zero.
pub proof fn lemma_zero_value(a: Frac)
    requires
        q_valid(a),
    ensures
        q_eq(a, q_zero()) <==> q_is_zero(a),
        q_eq(q_zero(), a) <==> q_is_zero(a),
{
}

/// A fraction has the value one exactly when numerator and denominator agree.
pub proof fn lemma_one_value(a: Frac)
    ensures
        q_eq(a, (1int, 1int)) <==> q_is_one(a),
{
}

/// Sums of equal values are equal.
pub proof fn lemma_add_cong(a: Frac, b: Frac, c: Frac, d: Frac)
    requires
        q_eq(a, c),
        q_eq(b, d),
    ensures
        q_eq(q_add(a, b), q_add(c, d)),
{
    lemma_mul_is_distributive_add_other_way(c.1 * d.1, a.0 * b.1, b.0 * a.1);
    lemma_mul_is_distributive_add_other_way(a.1 * b.1, c.0 * d.1, d.0 * c.1);
    assert((a.0 * b.1) * (c.1 * d.1) == (a.0 * c.1) * (b.1 * d.1)) by (nonlinear_arith);
    assert((b.0 * a.1) * (c.1 * d.1) == (b.0 * d.1) * (a.1 * c.1)) by (nonlinear_arith);
    assert((c.0 * d.1) * (a.1 * b.1) == (c.0 * a.1) * (b.1 * d.1)) by (nonlinear_arith);
    assert((d.0 * c.1) * (a.1 * b.1) == (d.0 * b.1) * (a.1 * c.1)) by (nonlinear_arith);
}

/// Differences of equal values are equal.
pub proof fn lemma_sub_cong(a: Frac, b: Frac, c: Frac, d: Frac)
    requires
        q_eq(a, c),
        q_eq(b, d),
    ensures
        q_eq(q_sub(a, b), q_sub(c, d)),
{
    lemma_mul_is_distributive_sub_other_way(c.1 * d.1, a.0 * b.1, b.0 * a.1);
    lemma_mul_is_distributive_sub_other_way(a.1 * b.1, c.0 * d.1, d.0 * c.1);
    assert((a.0 * b.1) * (c.1 * d.1) == (a.0 * c.1) * (b.1 * d.1)) by (nonlinear_arith);
    assert((b.0 * a.1) * (c.1 * d.1) == (b.0 * d.1) * (a.1 * c.1)) by (nonlinear_arith);
    assert((c.0 * d.1) * (a.1 * b.1) == (c.0 * a.1) * (b.1 * d.1)) by (nonlinear_arith);
    assert((d.0 * c.1) * (a.1 * b.1) == (d.0 * b.1) * (a.1 * c.1)) by (nonlinear_arith);
}

/// Products of equal values are equal.
pub proof fn lemma_mul_cong(a: Frac, b: Frac, c: Frac, d: Frac)
    requires
        q_eq(a, c),
        q_eq(b, d),
    ensures
        q_eq(q_mul(a, b), q_mul(c, d)),
{
    assert((a.0 * b.0) * (c.1 * d.1) == (a.0 * c.1) * (b.0 * d.1)) by (nonlinear_arith);
    assert((c.0 * d.0) * (a.1 * b.1) == (c.0 * a.1) * (d.0 * b.1)) by (nonlinear_arith);
}

/// Multiplication is associative and commutative.
pub proof fn lemma_mul_assoc_comm(a: Frac, b: Frac, c: Frac)
    ensures
        q_mul(q_mul(a, b), c) == q_mul(a, q_mul(b, c)),
        q_mul(a, b) == q_mul(b, a),
{
    assert((a.0 * b.0) * c.0 == a.0 * (b.0 * c.0)) by (nonlinear_arith);
    assert((a.1 * b.1) * c.1 == a.1 * (b.1 * c.1)) by (nonlinear_arith);
    assert(a.0 * b.0 == b.0 * a.0) by (nonlinear_arith);
    assert(a.1 * b.1 == b.1 * a.1) by (nonlinear_arith);
}

/// Multiplication distributes over addition and subtraction from the right.
pub proof fn lemma_mul_dist_right(a: Frac, b: Frac, k: Frac)
    ensures
        q_eq(q_mul(q_add(a, b), k), q_add(q_mul(a, k), q_mul(b, k))),
        q_eq(q_mul(q_sub(a, b), k), q_sub(q_mul(a, k), q_mul(b, k))),
{
    let y1 = (a.1 * k.1) * (b.1 * k.1);
    let x1 = (a.1 * b.1) * k.1;
    lemma_mul_is_distributive_add_other_way(k.0, a.0 * b.1, b.0 * a.1);
    lemma_mul_is_distributive_add_other_way(y1, (a.0 * b.1) * k.0, (b.0 * a.1) * k.0);
    lemma_mul_is_distributive_add_other_way(x1, (a.0 * k.0) * (b.1 * k.1), (b.0 * k.0) * (a.1 * k.1));
    lemma_mul_is_distributive_sub_other_way(k.0, a.0 * b.1, b.0 * a.1);
    lemma_mul_is_distributive_sub_other_way(y1, (a.0 * b.1) * k.0, (b.0 * a.1) * k.0);
    lemma_mul_is_distributive_sub_other_way(x1, (a.0 * k.0) * (b.1 * k.1), (b.0 * k.0) * (a.1 * k.1));
    let u = a.0 * k.0;
    let u2 = b.0 * k.0;
    let v = b.1 * k.1;
    let w = a.1 * k.1;
    assert((a.0 * b.1) * k.0 == u * b.1) by (nonlinear_arith)
        requires
            u == a.0 * k.0,
    ;
    assert((b.0 * a.1) * k.0 == u2 * a.1) by (nonlinear_arith)
        requires
            u2 == b.0 * k.0,
    ;
    assert(y1 == w * v);
    assert(x1 == w * b.1) by (nonlinear_arith)
        requires
            x1 == (a.1 * b.1) * k.1,
            w == a.1 * k.1,
    ;
    assert(x1 == v * a.1) by (nonlinear_arith)
        requires
            x1 == (a.1 * b.1) * k.1,
            v == b.1 * k.1,
    ;
    assert((u * b.1) * (w * v) == (u * v) * (w * b.1)) by (nonlinear_arith);
    assert((u2 * a.1) * (w * v) == (u2 * w) * (v * a.1)) by (nonlinear_arith);
}

/// Multiplication distributes over addition from the left.
pub proof fn lemma_mul_dist_left(f: Frac, b: Frac, c: Frac)
    ensures
        q_eq(q_mul(f, q_add(b, c)), q_add(q_mul(f, b), q_mul(f, c))),
{
    lemma_mul_dist_right(b, c, f);
    lemma_mul_assoc_comm(f, q_add(b, c), f);
    lemma_mul_assoc_comm(f, b, f);
    lemma_mul_assoc_comm(f, c, f);
}

/// `(a - x) + (y - w)` has the value of `(a + y) - (x + w)`.
pub proof fn lemma_add_sub_rearrange(a: Frac, x: Frac, y: Frac, w: Frac)
    ensures
        q_eq(q_add(q_sub(a, x), q_sub(y, w)), q_sub(q_add(a, y), q_add(x, w))),
{
    let l = q_add(q_sub(a, x), q_sub(y, w));
    let r = q_sub(q_add(a, y), q_add(x, w));
    // l = ((a0 x1 - x0 a1)(y1 w1) + (y0 w1 - w0 y1)(a1 x1), (a1 x1)(y1 w1))
    // r = ((a0 y1 + y0 a1)(x1 w1) - (x0 w1 + w0 x1)(a1 y1), (a1 y1)(x1 w1))
    let p1 = (a.0 * x.1) * (y.1 * w.1);
    let p2 = (x.0 * a.1) * (y.1 * w.1);
    let p3 = (y.0 * w.1) * (a.1 * x.1);
    let p4 = (w.0 * y.1) * (a.1 * x.1);
    lemma_mul_is_distributive_sub_other_way(y.1 * w.1, a.0 * x.1, x.0 * a.1);
    lemma_mul_is_distributive_sub_other_way(a.1 * x.1, y.0 * w.1, w.0 * y.1);
    assert(l.0 == (p1 - p2) + (p3 - p4));
    let r1 = (a.0 * y.1) * (x.1 * w.1);
    let r2 = (y.0 * a.1) * (x.1 * w.1);
    let r3 = (x.0 * w.1) * (a.1 * y.1);
    let r4 = (w.0 * x.1) * (a.1 * y.1);
    lemma_mul_is_distributive_add_other_way(x.1 * w.1, a.0 * y.1, y.0 * a.1);
    lemma_mul_is_distributive_add_other_way(a.1 * y.1, x.0 * w.1, w.0 * x.1);
    assert(r.0 == (r1 + r2) - (r3 + r4));
    assert(p1 == r1) by (nonlinear_arith)
        requires
            p1 == (a.0 * x.1) * (y.1 * w.1),
            r1 == (a.0 * y.1) * (x.1 * w.1),
    ;
    assert(p2 == r3) by (nonlinear_arith)
        requires
            p2 == (x.0 * a.1) * (y.1 * w.1),
            r3 == (x.0 * w.1) * (a.1 * y.1),
    ;
    assert(p3 == r2) by (nonlinear_arith)
        requires
            p3 == (y.0 * w.1) * (a.1 * x.1),
            r2 == (y.0 * a.1) * (x.1 * w.1),
    ;
    assert(p4 == r4) by (nonlinear_arith)
        requires
            p4 == (w.0 * y.1) * (a.1 * x.1),
            r4 == (w.0 * x.1) * (a.1 * y.1),
    ;
    assert(l.1 == r.1) by (nonlinear_arith)
        requires
            l.1 == (a.1 * x.1) * (y.1 * w.1),
            r.1 == (a.1 * y.1) * (x.1 * w.1),
    ;
}

/// Multiplying by a nonzero value keeps equality of values in both directions.
pub proof fn lemma_mul_cancel(x: Frac, y: Frac, k: Frac)
    requires
        q_valid(k),
        k.0 != 0,
    ensures
        q_eq(q_mul(x, k), q_mul(y, k)) <==> q_eq(x, y),
{
    let m = k.0 * k.1;
    assert(m != 0) by (nonlinear_arith)
        requires
            k.0 != 0,
            k.1 > 0,
            m == k.0 * k.1,
    ;
    assert((x.0 * k.0) * (y.1 * k.1) == (x.0 * y.1) * m) by (nonlinear_arith)
        requires
            m == k.0 * k.1,
    ;
    assert((y.0 * k.0) * (x.1 * k.1) == (y.0 * x.1) * m) by (nonlinear_arith)
        requires
            m == k.0 * k.1,
    ;
    assert((x.0 * y.1) * m == (y.0 * x.1) * m <==> x.0 * y.1 == y.0 * x.1) by (nonlinear_arith)
        requires
            m != 0,
    ;
}

/// Subtracting the same value keeps equality of values in both directions.
pub proof fn lemma_sub_cancel(u: Frac, v: Frac, w: Frac)
    requires
        q_valid(u),
        q_valid(v),
        q_valid(w),
    ensures
        q_eq(q_sub(u, w), q_sub(v, w)) <==> q_eq(u, v),
{
    // (u0 w1 - w0 u1)(v1 w1) == (v0 w1 - w0 v1)(u1 w1)  <==>  u0 v1 w1 w1 == v0 u1 w1 w1
    let s = w.1 * w.1;
    let t = (w.0 * u.1) * (v.1 * w.1);
    lemma_mul_is_distributive_sub_other_way(v.1 * w.1, u.0 * w.1, w.0 * u.1);
    lemma_mul_is_distributive_sub_other_way(u.1 * w.1, v.0 * w.1, w.0 * v.1);
    assert((w.0 * v.1) * (u.1 * w.1) == t) by (nonlinear_arith)
        requires
            t == (w.0 * u.1) * (v.1 * w.1),
    ;
    assert((u.0 * w.1) * (v.1 * w.1) == (u.0 * v.1) * s) by (nonlinear_arith)
        requires
            s == w.1 * w.1,
    ;
    assert((v.0 * w.1) * (u.1 * w.1) == (v.0 * u.1) * s) by (nonlinear_arith)
        requires
            s == w.1 * w.1,
    ;
    assert(s > 0) by (nonlinear_arith)
        requires
            s == w.1 * w.1,
            w.1 > 0,
    ;
    assert((u.0 * v.1) * s == (v.0 * u.1) * s <==> u.0 * v.1 == v.0 * u.1) by (nonlinear_arith)
        requires
            s > 0,
    ;
}

/// Adding zero leaves the value unchanged.
pub proof fn lemma_add_zero(a: Frac, z: Frac)
    requires
        q_is_zero(z),
    ensures
        q_eq(q_add(a, z), a),
        q_eq(q_add(z, a), a),
{
    assert((a.0 * z.1 + z.0 * a.1) * a.1 == a.0 * (a.1 * z.1)) by (nonlinear_arith)
        requires
            z.0 == 0,
    ;
    assert((z.0 * a.1 + a.0 * z.1) * a.1 == a.0 * (z.1 * a.1)) by (nonlinear_arith)
        requires
            z.0 == 0,
    ;
}

/// A product with a zero factor is zero; a product with a factor one has
/// the value of the other factor.
pub proof fn lemma_mul_zero_one(a: Frac, b: Frac)
    ensures
        q_is_zero(a) || q_is_zero(b) ==> q_is_zero(q_mul(a, b)),
        q_is_one(a) ==> q_eq(q_mul(a, b), b),
{
    if q_is_zero(a) || q_is_zero(b) {
        assert(a.0 * b.0 == 0) by (nonlinear_arith)
            requires
                a.0 == 0 || b.0 == 0,
        ;
    }
    if q_is_one(a) {
        assert((a.0 * b.0) * b.1 == b.0 * (a.1 * b.1)) by (nonlinear_arith)
            requires
                a.0 == a.1,
        ;
    }
}

/// A nonzero fraction divided by itself is one.
pub proof fn lemma_div_self(b: Frac)
    requires
        b.0 != 0,
    ensures
        q_is_one(q_div(b, b)),
{
    let k = q_inv(b);
    if b.0 > 0 {
        assert(b.0 * b.1 == b.1 * b.0) by (nonlinear_arith);
    } else {
        assert(b.0 * (-b.1) == b.1 * (-b.0)) by (nonlinear_arith);
    }
}

/// Subtracting a multiple of zero keeps a zero zero and a one one;
/// subtracting `f` times one from `f` leaves zero.
pub proof fn lemma_sub_multiple_cases(a: Frac, f: Frac, p: Frac)
    requires
        q_valid(a),
        q_valid(f),
        q_valid(p),
    ensures
        q_is_zero(p) && q_is_zero(a) ==> q_is_zero(q_sub(a, q_mul(f, p))),
        q_is_zero(p) && q_is_one(a) ==> q_is_one(q_sub(a, q_mul(f, p))),
        q_is_one(p) ==> q_is_zero(q_sub(f, q_mul(f, p))),
{
    let m = q_mul(f, p);
    if q_is_zero(p) {
        assert(m.0 == 0) by (nonlinear_arith)
            requires
                m.0 == f.0 * p.0,
                p.0 == 0,
        ;
        assert(q_sub(a, m).0 == a.0 * m.1);
        if q_is_zero(a) {
            assert(a.0 * m.1 == 0) by (nonlinear_arith)
                requires
                    a.0 == 0,
            ;
        }
    }
    if q_is_one(p) {
        assert(f.0 * (f.1 * p.1) == (f.0 * p.0) * f.1) by (nonlinear_arith)
            requires
                p.0 == p.1,
        ;
    }
}

/// Scaling a zero gives zero.
pub proof fn lemma_div_zero(a: Frac, b: Frac)
    requires
        q_is_zero(a),
    ensures
        q_is_zero(q_div(a, b)),
{
    lemma_mul_zero_one(a, q_inv(b));
}

} // verus!
