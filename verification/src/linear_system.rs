//! Solving a linear system over exact fractions by Gauss-Jordan elimination.
use vstd::prelude::*;
use crate::exact::{
    ExactRatio, big_from_i64, ratio_add, ratio_clone, ratio_div, ratio_eq,
    ratio_from_integer, ratio_mul, ratio_sub,
};
use crate::gauss::{
    column_relation, elim_at, lemma_pivot_column_not_combination, lemma_pivot_keeps_relation,
    lemma_pivot_solutions, lemma_pivot_structure, lemma_reduced_point,
    lemma_reduced_solution, lemma_same_solutions_trans, lemma_skip_structure, pivot_step,
    reduced_point, reduced_upto, scale_at, swap_rows,
};
use crate::linear::{
    all_valid, dot, elim_row, lemma_dot_prefix, rows_ok, same_solutions, sat_all, sat_row,
    scale_row, valid_point,
};
use crate::rational::{Frac, lemma_one_value, lemma_zero_value, q_eq, q_is_one, q_is_zero, q_zero};

verus! {

/// The values of a list of fractions.
pub open spec fn ratios_view(v: Seq<ExactRatio>) -> Seq<Frac> {
    v.map_values(|x: ExactRatio| x@)
}

/// The values of a matrix of fractions, row by row.
pub open spec fn matrix_view(m: Seq<Vec<ExactRatio>>) -> Seq<Seq<Frac>> {
    m.map_values(|r: Vec<ExactRatio>| ratios_view(r@))
}

/// `z` solves every equation `sum_j m[i][j] z[j] = rhs[i]`.
pub open spec fn solves(m: Seq<Seq<Frac>>, rhs: Seq<Frac>, z: Seq<Frac>) -> bool {
    forall|i: int| 0 <= i < m.len() ==> #[trigger] q_eq(dot(m[i], z, z.len() as int), rhs[i])
}

/// The system in `cols` unknowns has a solution.
pub open spec fn solvable(m: Seq<Seq<Frac>>, rhs: Seq<Frac>, cols: int) -> bool {
    exists|z: Seq<Frac>| valid_point(z, cols) && #[trigger] solves(m, rhs, z)
}

/// Column `j` of the matrix is a combination of the columns before it: the
/// unknown `j` is free in the reduced form.
pub open spec fn free_column(m: Seq<Seq<Frac>>, j: int) -> bool {
    exists|c: Seq<Frac>| valid_point(c, j) && #[trigger] column_relation(m, j, c)
}

/// The augmented rows of the system: each row followed by its right-hand side.
pub open spec fn augmented(m: Seq<Seq<Frac>>, rhs: Seq<Frac>) -> Seq<Seq<Frac>> {
    Seq::new(m.len(), |i: int| m[i].push(rhs[i]))
}

proof fn lemma_ratios_push(s: Seq<ExactRatio>, x: ExactRatio)
    ensures
        ratios_view(s.push(x)) == ratios_view(s).push(x@),
{
    assert(ratios_view(s.push(x)) =~= ratios_view(s).push(x@));
}

proof fn lemma_matrix_push(m: Seq<Vec<ExactRatio>>, r: Vec<ExactRatio>)
    ensures
        matrix_view(m.push(r)) == matrix_view(m).push(ratios_view(r@)),
{
    assert(matrix_view(m.push(r)) =~= matrix_view(m).push(ratios_view(r@)));
}

proof fn lemma_matrix_update(m: Seq<Vec<ExactRatio>>, i: int, r: Vec<ExactRatio>)
    requires
        0 <= i < m.len(),
    ensures
        matrix_view(m.update(i, r)) == matrix_view(m).update(i, ratios_view(r@)),
{
    assert(matrix_view(m.update(i, r)) =~= matrix_view(m).update(i, ratios_view(r@)));
}

/// The augmented rows are satisfied exactly by the solutions of the system.
proof fn lemma_augmented_solves(m: Seq<Seq<Frac>>, rhs: Seq<Frac>, cols: int, z: Seq<Frac>)
    requires
        cols >= 0,
        rhs.len() >= m.len(),
        forall|i: int| 0 <= i < m.len() ==> (#[trigger] m[i]).len() == cols,
        valid_point(z, cols),
    ensures
        sat_all(augmented(m, rhs), z, cols) <==> solves(m, rhs, z),
{
    let a = augmented(m, rhs);
    assert forall|i: int| 0 <= i < m.len() implies (#[trigger] sat_row(a[i], z, cols) <==> q_eq(
        dot(m[i], z, z.len() as int),
        rhs[i],
    )) by {
        lemma_dot_prefix(a[i], m[i], z, cols);
    }
    if sat_all(a, z, cols) {
        assert forall|i: int| 0 <= i < m.len() implies #[trigger] q_eq(dot(m[i], z, z.len() as int), rhs[i]) by {
            assert(sat_row(a[i], z, cols));
        }
    }
    if solves(m, rhs, z) {
        assert forall|i: int| 0 <= i < a.len() implies #[trigger] sat_row(a[i], z, cols) by {
            assert(q_eq(dot(m[i], z, z.len() as int), rhs[i]));
        }
    }
}

/// A row followed by one more entry.
fn augmented_row(row: &Vec<ExactRatio>, b: &ExactRatio) -> (out: Vec<ExactRatio>)
    ensures
        ratios_view(out@) == ratios_view(row@).push(b@),
        all_valid(ratios_view(out@)),
{
    let mut out: Vec<ExactRatio> = Vec::new();
    let mut j: usize = 0;
    while j < row.len()
        invariant
            j <= row.len(),
            ratios_view(out@) == ratios_view(row@).take(j as int),
            all_valid(ratios_view(out@)),
        decreases row.len() - j,
    {
        let e = ratio_clone(&row[j]);
        proof {
            use_type_invariant(&e);
        }
        let ghost before = out@;
        out.push(e);
        proof {
            lemma_ratios_push(before, e);
        }
        assert(ratios_view(out@) =~= ratios_view(row@).take(j as int + 1));
        j = j + 1;
    }
    let e = ratio_clone(b);
    proof {
        use_type_invariant(&e);
    }
    let ghost before = out@;
    out.push(e);
    proof {
        lemma_ratios_push(before, e);
    }
    assert(ratios_view(row@).take(row@.len() as int) =~= ratios_view(row@));
    out
}

/// The row divided entry by entry by `c`.
fn scaled_row(row: &Vec<ExactRatio>, c: &ExactRatio) -> (out: Vec<ExactRatio>)
    requires
        c@.0 != 0,
    ensures
        ratios_view(out@) == scale_row(ratios_view(row@), c@),
{
    let mut out: Vec<ExactRatio> = Vec::new();
    let mut j: usize = 0;
    while j < row.len()
        invariant
            j <= row.len(),
            c@.0 != 0,
            ratios_view(out@) == scale_row(ratios_view(row@), c@).take(j as int),
        decreases row.len() - j,
    {
        let e = ratio_div(&row[j], c);
        let ghost before = out@;
        out.push(e);
        proof {
            lemma_ratios_push(before, e);
        }
        assert(ratios_view(out@) =~= scale_row(ratios_view(row@), c@).take(j as int + 1));
        j = j + 1;
    }
    assert(ratios_view(out@) =~= scale_row(ratios_view(row@), c@));
    out
}

/// `row - f * pivot`, entry by entry.
fn eliminated_row(row: &Vec<ExactRatio>, f: &ExactRatio, pivot: &Vec<ExactRatio>) -> (out: Vec<ExactRatio>)
    requires
        row.len() == pivot.len(),
    ensures
        ratios_view(out@) == elim_row(ratios_view(row@), f@, ratios_view(pivot@)),
{
    let ghost target = elim_row(ratios_view(row@), f@, ratios_view(pivot@));
    let mut out: Vec<ExactRatio> = Vec::new();
    let mut j: usize = 0;
    while j < row.len()
        invariant
            j <= row.len(),
            row.len() == pivot.len(),
            target == elim_row(ratios_view(row@), f@, ratios_view(pivot@)),
            ratios_view(out@) == target.take(j as int),
        decreases row.len() - j,
    {
        let m = ratio_mul(f, &pivot[j]);
        let e = ratio_sub(&row[j], &m);
        let ghost before = out@;
        out.push(e);
        proof {
            lemma_ratios_push(before, e);
        }
        assert(ratios_view(out@) =~= target.take(j as int + 1));
        j = j + 1;
    }
    assert(ratios_view(out@) =~= target);
    out
}

/// The first row from `from` on whose entry in column `col` is nonzero.
fn find_pivot(aug: &Vec<Vec<ExactRatio>>, from: usize, col: usize, zero: &ExactRatio) -> (r: Option<usize>)
    requires
        zero@ == q_zero(),
        from <= aug.len(),
        forall|i: int| 0 <= i < aug.len() ==> col < (#[trigger] aug@[i]).len(),
    ensures
        r matches Some(i) ==> from <= i < aug.len() && !q_is_zero(matrix_view(aug@)[i as int][col as int]),
        r is None ==> forall|i: int|
            from <= i < aug.len() ==> q_is_zero(#[trigger] matrix_view(aug@)[i][col as int]),
{
    let mut i: usize = from;
    while i < aug.len()
        invariant
            from <= i <= aug.len(),
            zero@ == q_zero(),
            forall|k: int| 0 <= k < aug.len() ==> col < (#[trigger] aug@[k]).len(),
            forall|k: int| from <= k < i ==> q_is_zero(#[trigger] matrix_view(aug@)[k][col as int]),
        decreases aug.len() - i,
    {
        let e = &aug[i][col];
        proof {
            use_type_invariant(e);
            lemma_zero_value(e@);
        }
        assert(matrix_view(aug@)[i as int][col as int] == e@);
        if !ratio_eq(e, zero) {
            return Some(i);
        }
        i = i + 1;
    }
    None
}

/// The first of the first `n` entries of the row that is one.
fn first_one(row: &Vec<ExactRatio>, n: usize, one: &ExactRatio) -> (r: Option<usize>)
    requires
        n <= row.len(),
        one@ == (1int, 1int),
    ensures
        r matches Some(c) ==> c < n && q_is_one(ratios_view(row@)[c as int]) && forall|j: int|
            0 <= j < c ==> !q_is_one(#[trigger] ratios_view(row@)[j]),
        r is None ==> forall|j: int| 0 <= j < n ==> !q_is_one(#[trigger] ratios_view(row@)[j]),
{
    let mut c: usize = 0;
    while c < n
        invariant
            c <= n,
            n <= row.len(),
            one@ == (1int, 1int),
            forall|j: int| 0 <= j < c ==> !q_is_one(#[trigger] ratios_view(row@)[j]),
        decreases n - c,
    {
        let e = &row[c];
        proof {
            lemma_one_value(e@);
        }
        assert(ratios_view(row@)[c as int] == e@);
        if ratio_eq(e, one) {
            return Some(c);
        }
        c = c + 1;
    }
    None
}

/// `sum_{j < n} row[j] * x[j]`, accumulated from the left.
fn row_dot(row: &Vec<ExactRatio>, x: &Vec<ExactRatio>, n: usize, zero: &ExactRatio) -> (d: ExactRatio)
    requires
        n <= row.len(),
        n <= x.len(),
        zero@ == q_zero(),
    ensures
        d@ == dot(ratios_view(row@), ratios_view(x@), n as int),
{
    let mut sum = ratio_clone(zero);
    let mut j: usize = 0;
    while j < n
        invariant
            j <= n,
            n <= row.len(),
            n <= x.len(),
            sum@ == dot(ratios_view(row@), ratios_view(x@), j as int),
        decreases n - j,
    {
        let m = ratio_mul(&row[j], &x[j]);
        sum = ratio_add(&sum, &m);
        j = j + 1;
    }
    sum
}

/// Exchanges rows `a` and `b`.
fn swap_vec_rows(aug: &mut Vec<Vec<ExactRatio>>, a: usize, b: usize)
    requires
        a < old(aug).len(),
        b < old(aug).len(),
    ensures
        final(aug)@ == old(aug)@.update(a as int, old(aug)@[b as int]).update(b as int, old(aug)@[a as int]),
{
    if a == b {
        assert(old(aug)@.update(a as int, old(aug)@[b as int]).update(b as int, old(aug)@[a as int])
            =~= old(aug)@);
        return;
    }
    let (lo, hi) = if a < b {
        (a, b)
    } else {
        (b, a)
    };
    let ghost s0 = aug@;
    let row_hi = aug.remove(hi);
    let row_lo = aug.remove(lo);
    aug.insert(lo, row_hi);
    aug.insert(hi, row_lo);
    assert(aug@ =~= s0.update(a as int, s0[b as int]).update(b as int, s0[a as int]));
}

/// The solution of the system `matrix * x = rhs` with free unknowns set to
/// zero, by Gauss-Jordan elimination, or `None` when the system has no
/// solution. A system without equations has the empty solution.
pub fn solve_rational_system(matrix: &[Vec<ExactRatio>], rhs: &[ExactRatio]) -> (r: Option<Vec<ExactRatio>>)
    requires
        rhs@.len() >= matrix@.len(),
        forall|i: int| 0 <= i < matrix@.len() ==> (#[trigger] matrix@[i]).len() == matrix@[0].len(),
        matrix@.len() > 0 ==> matrix@[0].len() < usize::MAX,
    ensures
        matrix@.len() == 0 ==> (r matches Some(x) && x@.len() == 0),
        matrix@.len() > 0 ==> (r is Some <==> solvable(
            matrix_view(matrix@),
            ratios_view(rhs@),
            matrix@[0].len() as int,
        )),
        r matches Some(x) ==> matrix@.len() > 0 ==> x@.len() == matrix@[0].len() && valid_point(
            ratios_view(x@),
            matrix@[0].len() as int,
        ) && solves(matrix_view(matrix@), ratios_view(rhs@), ratios_view(x@)),
        r matches Some(x) ==> forall|j: int|
            0 <= j < x@.len() && free_column(matrix_view(matrix@), j) ==> #[trigger] q_is_zero(
                ratios_view(x@)[j],
            ),
{
    let rows = matrix.len();
    if rows == 0 {
        return Some(Vec::new());
    }
    let cols = matrix[0].len();
    let ghost mv = matrix_view(matrix@);
    let ghost rv = ratios_view(rhs@);
    let ghost orig = augmented(mv, rv);
    let mut aug: Vec<Vec<ExactRatio>> = Vec::new();
    let mut i: usize = 0;
    while i < rows
        invariant
            i <= rows,
            rows == matrix@.len(),
            rhs@.len() >= rows,
            aug@.len() == i,
            mv == matrix_view(matrix@),
            rv == ratios_view(rhs@),
            orig == augmented(mv, rv),
            forall|k: int| 0 <= k < i ==> #[trigger] matrix_view(aug@)[k] == orig[k],
            forall|k: int| 0 <= k < i ==> all_valid(#[trigger] orig[k]),
        decreases rows - i,
    {
        let row = augmented_row(&matrix[i], &rhs[i]);
        let ghost before = aug@;
        aug.push(row);
        proof {
            lemma_matrix_push(before, row);
            assert(ratios_view(matrix@[i as int]@) == mv[i as int]);
        }
        i = i + 1;
    }
    assert(matrix_view(aug@) =~= orig);
    proof {
        assert(rows_ok(orig, cols as int)) by {
            assert forall|k: int| 0 <= k < orig.len() implies (#[trigger] orig[k]).len() == cols + 1
                && all_valid(orig[k]) by {
                assert(matrix@[k].len() == cols);
            }
        }
    }
    let zero = ratio_from_integer(big_from_i64(0));
    let one = ratio_from_integer(big_from_i64(1));
    let mut pivot_row: usize = 0;
    let ghost mut pc: Seq<int> = Seq::empty();
    let mut col: usize = 0;
    while col < cols
        invariant
            rows == aug@.len(),
            rows > 0,
            col <= cols,
            cols < usize::MAX,
            zero@ == q_zero(),
            rows_ok(matrix_view(aug@), cols as int),
            same_solutions(matrix_view(aug@), orig, cols as int),
            reduced_upto(matrix_view(aug@), pivot_row as int, col as int, pc),
            forall|j: int, c: Seq<Frac>|
                0 <= j < cols && valid_point(c, j) && #[trigger] column_relation(orig, j, c)
                    ==> column_relation(matrix_view(aug@), j, c),
        decreases cols - col,
    {
        let ghost v = matrix_view(aug@);
        assert forall|k: int| 0 <= k < aug.len() implies col < (#[trigger] aug@[k]).len() by {
            assert(v[k].len() == cols + 1);
        }
        match find_pivot(&aug, pivot_row, col, &zero) {
            None => {
                proof {
                    lemma_skip_structure(v, pivot_row as int, col as int, pc);
                }
            },
            Some(pr) => {
                let p = pivot_row;
                proof {
                    lemma_pivot_solutions(v, p as int, pr as int, col as int, cols as int);
                    lemma_pivot_structure(v, p as int, pr as int, col as int, cols as int, pc);
                    lemma_same_solutions_trans(pivot_step(v, p as int, pr as int, col as int), v, orig, cols as int);
                }
                swap_vec_rows(&mut aug, p, pr);
                let ghost w1 = matrix_view(aug@);
                assert(w1 =~= swap_rows(v, p as int, pr as int));
                assert(w1[p as int].len() == cols + 1);
                let pv = ratio_clone(&aug[p][col]);
                assert(pv@ == w1[p as int][col as int]);
                assert(matrix_view(aug@)[p as int] == ratios_view(aug@[p as int]@));
                let scaled = scaled_row(&aug[p], &pv);
                let ghost before = aug@;
                aug[p] = scaled;
                proof {
                    lemma_matrix_update(before, p as int, scaled);
                }
                let ghost w2 = matrix_view(aug@);
                assert(w2 =~= scale_at(w1, p as int, col as int));
                let ghost w3 = elim_at(w2, p as int, col as int);
                let mut row: usize = 0;
                while row < rows
                    invariant
                        rows == aug@.len(),
                        p < rows,
                        col < cols,
                        zero@ == q_zero(),
                        w2.len() == rows,
                        w3 == elim_at(w2, p as int, col as int),
                        forall|k: int| 0 <= k < rows ==> (#[trigger] w2[k]).len() == cols + 1,
                        forall|k: int| 0 <= k < row ==> #[trigger] matrix_view(aug@)[k] == w3[k],
                        forall|k: int| row <= k < rows ==> #[trigger] matrix_view(aug@)[k] == w2[k],
                        matrix_view(aug@)[p as int] == w2[p as int],
                    decreases rows - row,
                {
                    assert(matrix_view(aug@)[row as int] == ratios_view(aug@[row as int]@));
                    assert(aug@[row as int]@.len() == cols + 1);
                    if row != p {
                        let e = &aug[row][col];
                        assert(e@ == ratios_view(aug@[row as int]@)[col as int]);
                        proof {
                            use_type_invariant(e);
                            lemma_zero_value(e@);
                        }
                        assert(e@ == w2[row as int][col as int]);
                        if !ratio_eq(e, &zero) {
                            let f = ratio_clone(e);
                            assert(matrix_view(aug@)[p as int] == ratios_view(aug@[p as int]@));
                            let nr = eliminated_row(&aug[row], &f, &aug[p]);
                            let ghost before = aug@;
                            aug[row] = nr;
                            proof {
                                lemma_matrix_update(before, row as int, nr);
                            }
                        }
                    }
                    assert(matrix_view(aug@)[row as int] == w3[row as int]);
                    row = row + 1;
                }
                assert(matrix_view(aug@) =~= w3);
                assert(w3 == pivot_step(v, p as int, pr as int, col as int));
                assert forall|j: int, c: Seq<Frac>|
                    0 <= j < cols && valid_point(c, j) && #[trigger] column_relation(orig, j, c)
                        implies column_relation(matrix_view(aug@), j, c) by {
                    assert(column_relation(v, j, c));
                    lemma_pivot_keeps_relation(v, p as int, pr as int, col as int, cols as int, j, c);
                }
                proof {
                    pc = pc.push(col as int);
                }
                pivot_row = pivot_row + 1;
            },
        }
        col = col + 1;
    }
    let ghost v = matrix_view(aug@);
    let ghost np = pivot_row as int;
    proof {
        lemma_reduced_point(v, pc, cols as int, np);
    }
    let mut x: Vec<ExactRatio> = Vec::new();
    let mut c: usize = 0;
    while c < cols
        invariant
            c <= cols,
            zero@ == q_zero(),
            ratios_view(x@) == Seq::new(c as nat, |j: int| q_zero()),
            all_valid(ratios_view(x@)),
        decreases cols - c,
    {
        let e = ratio_clone(&zero);
        proof {
            use_type_invariant(&e);
        }
        let ghost before = x@;
        x.push(e);
        proof {
            lemma_ratios_push(before, e);
        }
        assert(ratios_view(x@) =~= Seq::new(c as nat + 1, |j: int| q_zero()));
        c = c + 1;
    }
    assert(ratios_view(x@) == reduced_point(v, pc, cols as int, 0));
    let mut k: usize = 0;
    while k < pivot_row
        invariant
            k <= pivot_row,
            v == matrix_view(aug@),
            rows == aug@.len(),
            np == pivot_row,
            one@ == (1int, 1int),
            rows_ok(v, cols as int),
            reduced_upto(v, np, cols as int, pc),
            x@.len() == cols,
            ratios_view(x@) == reduced_point(v, pc, cols as int, k as int),
            all_valid(ratios_view(x@)),
        decreases pivot_row - k,
    {
        assert(v[k as int].len() == cols + 1);
        let found = first_one(&aug[k], cols, &one);
        let ghost j0 = pc[k as int];
        assert(q_is_one(v[k as int][j0]));
        assert forall|j: int| 0 <= j < j0 implies !q_is_one(#[trigger] v[k as int][j]) by {
            assert(q_is_zero(v[k as int][j]));
            assert(all_valid(v[k as int]));
            assert(crate::rational::q_valid(v[k as int][j]));
        }
        match found {
            Some(cc) => {
                assert(cc as int == j0);
                let b = ratio_clone(&aug[k][cols]);
                proof {
                    use_type_invariant(&b);
                }
                let ghost before = x@;
                x[cc] = b;
                assert(ratios_view(x@) =~= ratios_view(before).update(cc as int, b@));
                assert(ratios_view(x@) =~= reduced_point(v, pc, cols as int, k as int + 1));
            },
            None => {
                assert(!q_is_one(v[k as int][j0]));
            },
        }
        k = k + 1;
    }
    let ghost xv = ratios_view(x@);
    let mut i: usize = 0;
    while i < rows
        invariant
            i <= rows,
            rows == matrix@.len(),
            rhs@.len() >= rows,
            mv == matrix_view(matrix@),
            rv == ratios_view(rhs@),
            orig == augmented(mv, rv),
            cols == matrix@[0].len(),
            forall|q: int| 0 <= q < matrix@.len() ==> (#[trigger] matrix@[q]).len() == cols,
            zero@ == q_zero(),
            xv == ratios_view(x@),
            x@.len() == cols,
            valid_point(xv, cols as int),
            v == matrix_view(aug@),
            rows_ok(v, cols as int),
            reduced_upto(v, np, cols as int, pc),
            same_solutions(v, orig, cols as int),
            xv == reduced_point(v, pc, cols as int, np),
            forall|q: int| 0 <= q < i ==> #[trigger] q_eq(dot(mv[q], xv, xv.len() as int), rv[q]),
        decreases rows - i,
    {
        let d = row_dot(&matrix[i], &x, cols, &zero);
        assert(ratios_view(matrix@[i as int]@) == mv[i as int]);
        if !ratio_eq(&d, &rhs[i]) {
            proof {
                if solvable(mv, rv, cols as int) {
                    let y = choose|y: Seq<Frac>| valid_point(y, cols as int) && #[trigger] solves(mv, rv, y);
                    lemma_augmented_solves(mv, rv, cols as int, y);
                    assert(sat_all(orig, y, cols as int));
                    assert(sat_all(v, y, cols as int));
                    lemma_reduced_solution(v, np, cols as int, pc, y);
                    assert(sat_all(orig, xv, cols as int));
                    lemma_augmented_solves(mv, rv, cols as int, xv);
                    assert(q_eq(dot(mv[i as int], xv, xv.len() as int), rv[i as int]));
                }
            }
            return None;
        }
        i = i + 1;
    }
    assert(solves(mv, rv, xv));
    assert(valid_point(xv, cols as int) && solves(mv, rv, xv));
    proof {
        assert forall|j: int| 0 <= j < x@.len() && free_column(mv, j) implies #[trigger] q_is_zero(
            xv[j],
        ) by {
            let c = choose|c: Seq<Frac>| valid_point(c, j) && #[trigger] column_relation(mv, j, c);
            assert(column_relation(orig, j, c)) by {
                assert forall|i: int| 0 <= i < orig.len() implies #[trigger] q_eq(
                    dot(orig[i], c, j),
                    orig[i][j],
                ) by {
                    assert(q_eq(dot(mv[i], c, j), mv[i][j]));
                    assert(matrix@[i].len() == cols);
                    assert(mv[i].len() == cols);
                    lemma_dot_prefix(orig[i], mv[i], c, j);
                }
            }
            assert(column_relation(v, j, c));
            lemma_pivot_column_not_combination(v, np, cols as int, pc, j, c);
            lemma_reduced_point(v, pc, cols as int, np);
        }
    }
    Some(x)
}

} // verus!
