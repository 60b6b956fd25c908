//! Linear equations over fractions: dot products, rows of an augmented
//! matrix and the row operations of Gauss-Jordan elimination, with the laws
//! that make those operations keep the set of solutions.
use vstd::prelude::*;
use crate::rational::{
    Frac, lemma_add_cong, lemma_add_sub_rearrange, lemma_add_zero, lemma_eq_trans,
    lemma_mul_assoc_comm, lemma_mul_cancel, lemma_mul_cong, lemma_mul_dist_left,
    lemma_mul_dist_right, lemma_mul_zero_one, lemma_ops_valid, lemma_sub_cancel, lemma_sub_cong,
    lemma_sub_multiple_cases, lemma_zero_value, q_add, q_div, q_eq, q_inv, q_is_one, q_is_zero,
    q_mul, q_sub, q_valid, q_zero,
};

verus! {

/// `sum_{j < k} row[j] * z[j]`, accumulated from the left starting at zero.
pub open spec fn dot(row: Seq<Frac>, z: Seq<Frac>, k: int) -> Frac
    decreases k,
{
    if k <= 0 {
        q_zero()
    } else {
        q_add(dot(row, z, k - 1), q_mul(row[k - 1], z[k - 1]))
    }
}

/// Every entry has a positive denominator.
pub open spec fn all_valid(v: Seq<Frac>) -> bool {
    forall|i: int| 0 <= i < v.len() ==> #[trigger] q_valid(v[i])
}

/// A candidate solution of a system in `cols` unknowns.
pub open spec fn valid_point(z: Seq<Frac>, cols: int) -> bool {
    z.len() == cols && all_valid(z)
}

/// The augmented row (coefficients, then the right-hand side at `cols`) is
/// satisfied by `z`.
pub open spec fn sat_row(row: Seq<Frac>, z: Seq<Frac>, cols: int) -> bool {
    q_eq(dot(row, z, cols), row[cols])
}

/// Every augmented row is satisfied by `z`.
pub open spec fn sat_all(rows: Seq<Seq<Frac>>, z: Seq<Frac>, cols: int) -> bool {
    forall|i: int| 0 <= i < rows.len() ==> #[trigger] sat_row(rows[i], z, cols)
}

/// Well-formed augmented rows: `cols + 1` entries each, all valid.
pub open spec fn rows_ok(rows: Seq<Seq<Frac>>, cols: int) -> bool {
    forall|i: int| 0 <= i < rows.len() ==> (#[trigger] rows[i]).len() == cols + 1 && all_valid(rows[i])
}

/// The two systems have the same solutions.
pub open spec fn same_solutions(a: Seq<Seq<Frac>>, b: Seq<Seq<Frac>>, cols: int) -> bool {
    forall|z: Seq<Frac>| valid_point(z, cols) ==> (#[trigger] sat_all(a, z, cols) <==> sat_all(b, z, cols))
}

/// A row divided entry by entry by `c`.
pub open spec fn scale_row(row: Seq<Frac>, c: Frac) -> Seq<Frac> {
    Seq::new(row.len(), |j: int| q_div(row[j], c))
}

/// `row - f * pivot`, entry by entry.
pub open spec fn elim_row(row: Seq<Frac>, f: Frac, pivot: Seq<Frac>) -> Seq<Frac> {
    Seq::new(row.len(), |j: int| q_sub(row[j], q_mul(f, pivot[j])))
}

/// The dot product of valid entries is valid.
pub proof fn lemma_dot_valid(row: Seq<Frac>, z: Seq<Frac>, k: int)
    requires
        0 <= k <= row.len(),
        k <= z.len(),
        all_valid(row),
        all_valid(z),
    ensures
        q_valid(dot(row, z, k)),
    decreases k,
{
    if k > 0 {
        lemma_dot_valid(row, z, k - 1);
        assert(q_valid(row[k - 1]) && q_valid(z[k - 1]));
        lemma_ops_valid(row[k - 1], z[k - 1]);
        lemma_ops_valid(dot(row, z, k - 1), q_mul(row[k - 1], z[k - 1]));
    }
}

/// The dot product over the first `k` entries only reads those entries.
pub proof fn lemma_dot_prefix(u: Seq<Frac>, v: Seq<Frac>, z: Seq<Frac>, k: int)
    requires
        0 <= k,
        forall|j: int| 0 <= j < k ==> u[j] == v[j],
    ensures
        dot(u, z, k) == dot(v, z, k),
    decreases k,
{
    if k > 0 {
        lemma_dot_prefix(u, v, z, k - 1);
    }
}

/// Dividing a row by a nonzero value divides its dot products by it.
pub proof fn lemma_dot_scale(p: Seq<Frac>, c: Frac, z: Seq<Frac>, k: int)
    requires
        0 <= k <= p.len(),
        k <= z.len(),
        all_valid(p),
        all_valid(z),
        q_valid(c),
        c.0 != 0,
    ensures
        q_eq(dot(scale_row(p, c), z, k), q_div(dot(p, z, k), c)),
    decreases k,
{
    let kk = q_inv(c);
    lemma_ops_valid(c, c);
    lemma_ops_valid(kk, c);
    let ps = scale_row(p, c);
    if k == 0 {
        lemma_mul_zero_one(q_zero(), kk);
        lemma_zero_value(q_div(q_zero(), c));
    } else {
        lemma_dot_scale(p, c, z, k - 1);
        let d = dot(p, z, k - 1);
        let ds = dot(ps, z, k - 1);
        let a = p[k - 1];
        let x = z[k - 1];
        assert(q_valid(a) && q_valid(x));
        lemma_dot_valid(p, z, k - 1);
        lemma_dot_valid(p, z, k);
        assert(all_valid(ps)) by {
            assert forall|j: int| 0 <= j < ps.len() implies #[trigger] q_valid(ps[j]) by {
                assert(q_valid(p[j]));
                lemma_ops_valid(p[j], c);
            }
        }
        lemma_dot_valid(ps, z, k - 1);
        lemma_ops_valid(a, c);
        lemma_ops_valid(a, x);
        lemma_ops_valid(d, c);
        lemma_ops_valid(q_mul(a, x), c);
        lemma_ops_valid(q_div(a, c), x);
        lemma_ops_valid(d, q_mul(a, x));
        lemma_ops_valid(q_div(d, c), q_div(q_mul(a, x), c));
        lemma_ops_valid(q_div(d, c), q_mul(q_div(a, c), x));
        lemma_ops_valid(ds, q_mul(q_div(a, c), x));
        // (a / c) * x == (a * x) / c
        lemma_mul_assoc_comm(a, kk, x);
        lemma_mul_assoc_comm(kk, x, kk);
        lemma_mul_assoc_comm(a, x, kk);
        assert(q_mul(q_div(a, c), x) == q_div(q_mul(a, x), c));
        // ds + (a/c) x  ~  d/c + (a x)/c  ~  (d + a x) / c
        lemma_add_cong(ds, q_mul(q_div(a, c), x), q_div(d, c), q_div(q_mul(a, x), c));
        lemma_mul_dist_right(d, q_mul(a, x), kk);
        lemma_ops_valid(d, q_mul(a, x));
        lemma_ops_valid(q_add(d, q_mul(a, x)), c);
        lemma_eq_trans(
            q_add(ds, q_mul(q_div(a, c), x)),
            q_add(q_div(d, c), q_div(q_mul(a, x), c)),
            q_div(q_add(d, q_mul(a, x)), c),
        );
    }
}

/// Subtracting `f` times a row subtracts `f` times its dot products.
pub proof fn lemma_dot_elim(r: Seq<Frac>, f: Frac, p: Seq<Frac>, z: Seq<Frac>, k: int)
    requires
        0 <= k <= r.len(),
        r.len() == p.len(),
        k <= z.len(),
        all_valid(r),
        all_valid(p),
        all_valid(z),
        q_valid(f),
    ensures
        q_eq(dot(elim_row(r, f, p), z, k), q_sub(dot(r, z, k), q_mul(f, dot(p, z, k)))),
    decreases k,
{
    let re = elim_row(r, f, p);
    if k == 0 {
        lemma_sub_multiple_cases(q_zero(), f, q_zero());
        let t = q_sub(q_zero(), q_mul(f, q_zero()));
        assert(t.0 == 0);
        lemma_ops_valid(f, q_zero());
        lemma_ops_valid(q_zero(), q_mul(f, q_zero()));
        lemma_zero_value(t);
    } else {
        lemma_dot_elim(r, f, p, z, k - 1);
        let a_big = dot(r, z, k - 1);
        let b_big = dot(p, z, k - 1);
        let e = dot(re, z, k - 1);
        let a = r[k - 1];
        let b = p[k - 1];
        let x = z[k - 1];
        assert(q_valid(a) && q_valid(b) && q_valid(x));
        assert(all_valid(re)) by {
            assert forall|j: int| 0 <= j < re.len() implies #[trigger] q_valid(re[j]) by {
                assert(q_valid(r[j]) && q_valid(p[j]));
                lemma_ops_valid(f, p[j]);
                lemma_ops_valid(r[j], q_mul(f, p[j]));
            }
        }
        lemma_dot_valid(r, z, k - 1);
        lemma_dot_valid(p, z, k - 1);
        lemma_dot_valid(re, z, k - 1);
        let fb = q_mul(f, b);
        let fbb = q_mul(f, b_big);
        let ax = q_mul(a, x);
        let bx = q_mul(b, x);
        lemma_ops_valid(f, b);
        lemma_ops_valid(f, b_big);
        lemma_ops_valid(a, x);
        lemma_ops_valid(b, x);
        lemma_ops_valid(a, fb);
        lemma_ops_valid(a_big, fbb);
        lemma_ops_valid(q_sub(a, fb), x);
        lemma_ops_valid(fb, x);
        lemma_ops_valid(f, bx);
        lemma_ops_valid(ax, q_mul(fb, x));
        lemma_ops_valid(ax, q_mul(f, bx));
        lemma_ops_valid(a_big, ax);
        lemma_ops_valid(b_big, bx);
        lemma_ops_valid(fbb, q_mul(f, bx));
        lemma_ops_valid(f, q_add(b_big, bx));
        lemma_ops_valid(e, q_mul(q_sub(a, fb), x));
        lemma_ops_valid(q_sub(a_big, fbb), q_mul(q_sub(a, fb), x));
        lemma_ops_valid(q_sub(a_big, fbb), q_sub(ax, q_mul(fb, x)));
        lemma_ops_valid(q_sub(a_big, fbb), q_sub(ax, q_mul(f, bx)));
        lemma_ops_valid(q_add(a_big, ax), q_add(fbb, q_mul(f, bx)));
        lemma_ops_valid(q_add(a_big, ax), q_mul(f, q_add(b_big, bx)));
        // step 1: e + (a - f b) x  ~  (A - f B) + (a - f b) x
        let s0 = q_add(e, q_mul(q_sub(a, fb), x));
        let s1 = q_add(q_sub(a_big, fbb), q_mul(q_sub(a, fb), x));
        lemma_add_cong(e, q_mul(q_sub(a, fb), x), q_sub(a_big, fbb), q_mul(q_sub(a, fb), x));
        // step 2: (a - f b) x  ~  a x - (f b) x  ~  a x - f (b x)
        lemma_mul_dist_right(a, fb, x);
        lemma_mul_assoc_comm(f, b, x);
        let s2 = q_add(q_sub(a_big, fbb), q_sub(ax, q_mul(f, bx)));
        lemma_add_cong(q_sub(a_big, fbb), q_mul(q_sub(a, fb), x), q_sub(a_big, fbb), q_sub(ax, q_mul(f, bx)));
        // step 3: (A - fB) + (ax - f(bx))  ~  (A + ax) - (fB + f(bx))
        let s3 = q_sub(q_add(a_big, ax), q_add(fbb, q_mul(f, bx)));
        lemma_add_sub_rearrange(a_big, fbb, ax, q_mul(f, bx));
        // step 4: fB + f(bx)  ~  f (B + bx)
        let s4 = q_sub(q_add(a_big, ax), q_mul(f, q_add(b_big, bx)));
        lemma_mul_dist_left(f, b_big, bx);
        lemma_sub_cong(q_add(a_big, ax), q_add(fbb, q_mul(f, bx)), q_add(a_big, ax), q_mul(f, q_add(b_big, bx)));
        lemma_ops_valid(e, q_mul(q_sub(a, fb), x));
        assert(q_valid(s0) && q_valid(s1) && q_valid(s2) && q_valid(s3) && q_valid(s4));
        lemma_eq_trans(s0, s1, s2);
        lemma_eq_trans(s0, s2, s3);
        lemma_eq_trans(s0, s3, s4);
        assert(re[k - 1] == q_sub(a, fb));
        assert(dot(re, z, k) == s0);
        assert(dot(r, z, k) == q_add(a_big, ax));
        assert(dot(p, z, k) == q_add(b_big, bx));
        assert(q_sub(dot(r, z, k), q_mul(f, dot(p, z, k))) == s4);
        assert(q_eq(s0, s4));
    }
}

/// Dividing an augmented row by a nonzero value keeps its solutions.
pub proof fn lemma_sat_scale(p: Seq<Frac>, c: Frac, z: Seq<Frac>, cols: int)
    requires
        p.len() == cols + 1,
        cols >= 0,
        all_valid(p),
        valid_point(z, cols),
        q_valid(c),
        c.0 != 0,
    ensures
        sat_row(scale_row(p, c), z, cols) <==> sat_row(p, z, cols),
{
    let ps = scale_row(p, c);
    let kk = q_inv(c);
    lemma_ops_valid(c, c);
    lemma_dot_scale(p, c, z, cols);
    lemma_dot_valid(p, z, cols);
    assert(all_valid(ps)) by {
        assert forall|j: int| 0 <= j < ps.len() implies #[trigger] q_valid(ps[j]) by {
            assert(q_valid(p[j]));
            lemma_ops_valid(p[j], c);
        }
    }
    lemma_dot_valid(ps, z, cols);
    assert(q_valid(p[cols]));
    lemma_ops_valid(p[cols], c);
    lemma_ops_valid(dot(p, z, cols), c);
    lemma_mul_cancel(dot(p, z, cols), p[cols], kk);
    if sat_row(ps, z, cols) {
        lemma_eq_trans(q_div(dot(p, z, cols), c), dot(ps, z, cols), ps[cols]);
    }
    if sat_row(p, z, cols) {
        lemma_eq_trans(dot(ps, z, cols), q_div(dot(p, z, cols), c), q_div(p[cols], c));
    }
}

/// Subtracting a multiple of a satisfied row keeps the solutions of a row.
pub proof fn lemma_sat_elim(r: Seq<Frac>, f: Frac, p: Seq<Frac>, z: Seq<Frac>, cols: int)
    requires
        r.len() == cols + 1,
        p.len() == cols + 1,
        cols >= 0,
        all_valid(r),
        all_valid(p),
        valid_point(z, cols),
        q_valid(f),
        sat_row(p, z, cols),
    ensures
        sat_row(elim_row(r, f, p), z, cols) <==> sat_row(r, z, cols),
{
    let re = elim_row(r, f, p);
    lemma_dot_elim(r, f, p, z, cols);
    lemma_dot_valid(r, z, cols);
    lemma_dot_valid(p, z, cols);
    assert(all_valid(re)) by {
        assert forall|j: int| 0 <= j < re.len() implies #[trigger] q_valid(re[j]) by {
            assert(q_valid(r[j]) && q_valid(p[j]));
            lemma_ops_valid(f, p[j]);
            lemma_ops_valid(r[j], q_mul(f, p[j]));
        }
    }
    lemma_dot_valid(re, z, cols);
    let d_r = dot(r, z, cols);
    let d_p = dot(p, z, cols);
    assert(q_valid(r[cols]) && q_valid(p[cols]));
    lemma_ops_valid(f, d_p);
    lemma_ops_valid(f, p[cols]);
    lemma_ops_valid(d_r, q_mul(f, d_p));
    lemma_ops_valid(d_r, q_mul(f, p[cols]));
    lemma_ops_valid(r[cols], q_mul(f, p[cols]));
    // d_r - f d_p  ~  d_r - f p[cols]
    lemma_mul_cong(f, d_p, f, p[cols]);
    lemma_sub_cong(d_r, q_mul(f, d_p), d_r, q_mul(f, p[cols]));
    lemma_eq_trans(dot(re, z, cols), q_sub(d_r, q_mul(f, d_p)), q_sub(d_r, q_mul(f, p[cols])));
    lemma_sub_cancel(d_r, r[cols], q_mul(f, p[cols]));
    assert(re[cols] == q_sub(r[cols], q_mul(f, p[cols])));
    if sat_row(re, z, cols) {
        lemma_eq_trans(q_sub(d_r, q_mul(f, p[cols])), dot(re, z, cols), re[cols]);
    }
    if sat_row(r, z, cols) {
        lemma_sub_cong(d_r, q_mul(f, p[cols]), r[cols], q_mul(f, p[cols]));
        lemma_eq_trans(dot(re, z, cols), q_sub(d_r, q_mul(f, p[cols])), re[cols]);
    }
}

/// A row whose first `k` coefficients are zero has a zero dot product.
pub proof fn lemma_dot_zero_row(row: Seq<Frac>, z: Seq<Frac>, k: int)
    requires
        0 <= k <= row.len(),
        k <= z.len(),
        all_valid(z),
        forall|j: int| 0 <= j < k ==> #[trigger] q_is_zero(row[j]),
    ensures
        q_is_zero(dot(row, z, k)),
    decreases k,
{
    if k > 0 {
        lemma_dot_zero_row(row, z, k - 1);
        assert(q_is_zero(row[k - 1]));
        lemma_mul_zero_one(row[k - 1], z[k - 1]);
        let d = dot(row, z, k - 1);
        let m = q_mul(row[k - 1], z[k - 1]);
        assert(d.0 * m.1 + m.0 * d.1 == 0) by (nonlinear_arith)
            requires
                d.0 == 0,
                m.0 == 0,
        ;
    }
}

/// The dot product of a reduced row with a point: the row has a one at
/// `pc`, and at every other position below `k` either the row or the point
/// has a zero. The result has the value of the point's entry at `pc` once
/// `k` is past `pc`, and zero before.
pub proof fn lemma_dot_reduced_row(row: Seq<Frac>, x: Seq<Frac>, pc: int, k: int)
    requires
        0 <= k <= row.len(),
        k <= x.len(),
        0 <= pc < x.len(),
        pc < row.len(),
        all_valid(row),
        all_valid(x),
        q_is_one(row[pc]),
        forall|j: int| 0 <= j < k && j != pc ==> q_is_zero(#[trigger] row[j]) || q_is_zero(x[j]),
    ensures
        k > pc ==> q_eq(dot(row, x, k), x[pc]),
        k <= pc ==> q_is_zero(dot(row, x, k)),
    decreases k,
{
    if k > 0 {
        lemma_dot_reduced_row(row, x, pc, k - 1);
        let d = dot(row, x, k - 1);
        let m = q_mul(row[k - 1], x[k - 1]);
        assert(q_valid(row[k - 1]) && q_valid(x[k - 1]) && q_valid(x[pc]));
        lemma_dot_valid(row, x, k - 1);
        lemma_ops_valid(row[k - 1], x[k - 1]);
        lemma_mul_zero_one(row[k - 1], x[k - 1]);
        if k - 1 == pc {
            // d is zero, m has the value of x[pc]
            lemma_add_zero(m, d);
            lemma_ops_valid(d, m);
            lemma_eq_trans(q_add(d, m), m, x[pc]);
        } else {
            assert(q_is_zero(row[k - 1]) || q_is_zero(x[k - 1]));
            lemma_add_zero(d, m);
            if k - 1 > pc {
                lemma_ops_valid(d, m);
                lemma_eq_trans(q_add(d, m), d, x[pc]);
            } else {
                assert(d.0 * m.1 + m.0 * d.1 == 0) by (nonlinear_arith)
                    requires
                        d.0 == 0,
                        m.0 == 0,
                ;
            }
        }
    }
}

} // verus!
