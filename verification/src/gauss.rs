//! Gauss-Jordan elimination on augmented rows of fractions: the steps of
//! the elimination as functions on sequences of rows, the reduced form they
//! build, and the proof that they keep the solutions of the system.
use vstd::prelude::*;
use crate::linear::{
    all_valid, dot, elim_row, lemma_dot_elim, lemma_dot_prefix, lemma_dot_scale, lemma_dot_reduced_row, lemma_dot_valid,
    lemma_dot_zero_row, lemma_sat_elim, lemma_sat_scale, rows_ok, same_solutions, sat_all,
    sat_row, scale_row, valid_point,
};
use crate::rational::{
    Frac, lemma_div_self, lemma_div_zero, lemma_eq_trans, lemma_mul_cong, lemma_ops_valid,
    lemma_sub_cong, lemma_sub_multiple_cases, q_div, q_eq, q_inv, q_is_one, q_is_zero, q_mul,
    q_sub, q_valid, q_zero,
};

verus! {

/// Rows `a` and `b` exchanged.
pub open spec fn swap_rows(v: Seq<Seq<Frac>>, a: int, b: int) -> Seq<Seq<Frac>> {
    v.update(a, v[b]).update(b, v[a])
}

/// Row `p` divided by its entry in column `col`.
pub open spec fn scale_at(v: Seq<Seq<Frac>>, p: int, col: int) -> Seq<Seq<Frac>> {
    v.update(p, scale_row(v[p], v[p][col]))
}

/// Every row but `p` with a nonzero entry in column `col` has that entry
/// times row `p` subtracted from it.
pub open spec fn elim_at(v: Seq<Seq<Frac>>, p: int, col: int) -> Seq<Seq<Frac>> {
    Seq::new(
        v.len(),
        |r: int|
            if r == p || q_is_zero(v[r][col]) {
                v[r]
            } else {
                elim_row(v[r], v[r][col], v[p])
            },
    )
}

/// One pivot step: row `pr` brought to position `p`, scaled so that its
/// entry in column `col` is one, and column `col` cleared in every other row.
pub open spec fn pivot_step(v: Seq<Seq<Frac>>, p: int, pr: int, col: int) -> Seq<Seq<Frac>> {
    elim_at(scale_at(swap_rows(v, p, pr), p, col), p, col)
}

/// The first `p` rows are pivot rows with pivot columns `pc` (increasing,
/// before `col`): a one at the pivot, zeros before it, and zeros in the
/// pivot column in every other row; the rows from `p` on are zero before
/// column `col`.
pub open spec fn reduced_upto(v: Seq<Seq<Frac>>, p: int, col: int, pc: Seq<int>) -> bool {
    &&& 0 <= p <= v.len()
    &&& pc.len() == p
    &&& forall|a: int, b: int| 0 <= a < b < p ==> pc[a] < pc[b]
    &&& forall|k: int| 0 <= k < p ==> 0 <= #[trigger] pc[k] < col
    &&& forall|k: int| 0 <= k < p ==> q_is_one(#[trigger] v[k][pc[k]])
    &&& forall|k: int, r: int|
        0 <= k < p && 0 <= r < v.len() && r != k ==> q_is_zero(#[trigger] v[r][pc[k]])
    &&& forall|k: int, c: int| 0 <= k < p && 0 <= c < pc[k] ==> q_is_zero(#[trigger] v[k][c])
    &&& forall|r: int, c: int| p <= r < v.len() && 0 <= c < col ==> q_is_zero(#[trigger] v[r][c])
}

/// The candidate solution read off reduced rows: the right-hand side of
/// pivot row `k` at its pivot column, for the first `n` pivot rows, and
/// zero in every other column.
pub open spec fn reduced_point(v: Seq<Seq<Frac>>, pc: Seq<int>, cols: int, n: int) -> Seq<Frac>
    decreases n,
{
    if n <= 0 {
        Seq::new(cols as nat, |c: int| q_zero())
    } else {
        reduced_point(v, pc, cols, n - 1).update(pc[n - 1], v[n - 1][cols])
    }
}

/// Having the same solutions is transitive.
pub proof fn lemma_same_solutions_trans(a: Seq<Seq<Frac>>, b: Seq<Seq<Frac>>, c: Seq<Seq<Frac>>, cols: int)
    requires
        same_solutions(a, b, cols),
        same_solutions(b, c, cols),
    ensures
        same_solutions(a, c, cols),
{
    assert forall|z: Seq<Frac>| valid_point(z, cols) implies (#[trigger] sat_all(a, z, cols) <==> sat_all(
        c,
        z,
        cols,
    )) by {
        assert(sat_all(a, z, cols) <==> sat_all(b, z, cols));
        assert(sat_all(b, z, cols) <==> sat_all(c, z, cols));
    }
}

/// A pivot step keeps the rows well formed and keeps the solutions.
pub proof fn lemma_pivot_solutions(v: Seq<Seq<Frac>>, p: int, pr: int, col: int, cols: int)
    requires
        rows_ok(v, cols),
        0 <= p <= pr < v.len(),
        0 <= col < cols,
        !q_is_zero(v[pr][col]),
    ensures
        rows_ok(pivot_step(v, p, pr, col), cols),
        same_solutions(pivot_step(v, p, pr, col), v, cols),
{
    let w1 = swap_rows(v, p, pr);
    let w2 = scale_at(w1, p, col);
    let w3 = elim_at(w2, p, col);
    let c = w1[p][col];
    assert(c == v[pr][col]);
    assert(rows_ok(w1, cols));
    assert(q_valid(c)) by {
        assert(all_valid(v[pr]));
    }
    assert(rows_ok(w2, cols)) by {
        assert forall|i: int| 0 <= i < w2.len() implies (#[trigger] w2[i]).len() == cols + 1 && all_valid(
            w2[i],
        ) by {
            if i == p {
                assert(all_valid(w1[p]));
                assert forall|j: int| 0 <= j < w2[p].len() implies #[trigger] q_valid(w2[p][j]) by {
                    assert(q_valid(w1[p][j]));
                    lemma_ops_valid(w1[p][j], c);
                }
            } else {
                assert(w2[i] == w1[i]);
            }
        }
    }
    let pivot = w2[p];
    assert(rows_ok(w3, cols)) by {
        assert forall|i: int| 0 <= i < w3.len() implies (#[trigger] w3[i]).len() == cols + 1 && all_valid(
            w3[i],
        ) by {
            assert(w2[i].len() == cols + 1 && all_valid(w2[i]));
            if !(i == p || q_is_zero(w2[i][col])) {
                let f = w2[i][col];
                assert(q_valid(f));
                assert(all_valid(pivot));
                assert forall|j: int| 0 <= j < w3[i].len() implies #[trigger] q_valid(w3[i][j]) by {
                    assert(q_valid(w2[i][j]) && q_valid(pivot[j]));
                    lemma_ops_valid(f, pivot[j]);
                    lemma_ops_valid(w2[i][j], q_mul(f, pivot[j]));
                }
            }
        }
    }
    assert forall|z: Seq<Frac>| valid_point(z, cols) implies (#[trigger] sat_all(w3, z, cols) <==> sat_all(
        v,
        z,
        cols,
    )) by {
        // swapping
        assert(sat_all(w1, z, cols) <==> sat_all(v, z, cols)) by {
            if sat_all(v, z, cols) {
                assert forall|i: int| 0 <= i < w1.len() implies #[trigger] sat_row(w1[i], z, cols) by {
                    if i == p {
                        assert(sat_row(v[pr], z, cols));
                    } else if i == pr {
                        assert(sat_row(v[p], z, cols));
                    } else {
                        assert(sat_row(v[i], z, cols));
                    }
                }
            }
            if sat_all(w1, z, cols) {
                assert forall|i: int| 0 <= i < v.len() implies #[trigger] sat_row(v[i], z, cols) by {
                    if i == p {
                        assert(sat_row(w1[pr], z, cols));
                    } else if i == pr {
                        assert(sat_row(w1[p], z, cols));
                    } else {
                        assert(sat_row(w1[i], z, cols));
                    }
                }
            }
        }
        // scaling
        assert(sat_all(w2, z, cols) <==> sat_all(w1, z, cols)) by {
            assert(all_valid(w1[p]));
            lemma_sat_scale(w1[p], c, z, cols);
            if sat_all(w1, z, cols) {
                assert forall|i: int| 0 <= i < w2.len() implies #[trigger] sat_row(w2[i], z, cols) by {
                    assert(sat_row(w1[i], z, cols));
                }
            }
            if sat_all(w2, z, cols) {
                assert forall|i: int| 0 <= i < w1.len() implies #[trigger] sat_row(w1[i], z, cols) by {
                    assert(sat_row(w2[i], z, cols));
                }
            }
        }
        // elimination
        assert(sat_all(w3, z, cols) <==> sat_all(w2, z, cols)) by {
            assert(w3[p] == pivot);
            if sat_all(w2, z, cols) {
                assert(sat_row(pivot, z, cols));
                assert forall|i: int| 0 <= i < w3.len() implies #[trigger] sat_row(w3[i], z, cols) by {
                    assert(sat_row(w2[i], z, cols));
                    if !(i == p || q_is_zero(w2[i][col])) {
                        assert(w2[i].len() == cols + 1 && all_valid(w2[i]));
                        assert(q_valid(w2[i][col]));
                        lemma_sat_elim(w2[i], w2[i][col], pivot, z, cols);
                    }
                }
            }
            if sat_all(w3, z, cols) {
                assert(sat_row(w3[p], z, cols));
                assert forall|i: int| 0 <= i < w2.len() implies #[trigger] sat_row(w2[i], z, cols) by {
                    assert(sat_row(w3[i], z, cols));
                    if !(i == p || q_is_zero(w2[i][col])) {
                        assert(w2[i].len() == cols + 1 && all_valid(w2[i]));
                        assert(q_valid(w2[i][col]));
                        lemma_sat_elim(w2[i], w2[i][col], pivot, z, cols);
                    }
                }
            }
        }
    }
}

/// A pivot step at column `col` extends the reduced form by one pivot row.
pub proof fn lemma_pivot_structure(v: Seq<Seq<Frac>>, p: int, pr: int, col: int, cols: int, pc: Seq<int>)
    requires
        rows_ok(v, cols),
        reduced_upto(v, p, col, pc),
        p <= pr < v.len(),
        0 <= col < cols,
        !q_is_zero(v[pr][col]),
    ensures
        reduced_upto(pivot_step(v, p, pr, col), p + 1, col + 1, pc.push(col)),
{
    let w1 = swap_rows(v, p, pr);
    let w2 = scale_at(w1, p, col);
    let w3 = elim_at(w2, p, col);
    let c = v[pr][col];
    let pivot = w2[p];
    let npc = pc.push(col);
    let n = v.len();
    assert(all_valid(v[pr]));
    assert(q_valid(c));
    assert(pivot == scale_row(v[pr], c));
    // the pivot row: zero before col, one at col, zero at earlier pivot columns
    assert forall|j: int| 0 <= j < col implies #[trigger] q_is_zero(pivot[j]) by {
        assert(q_is_zero(v[pr][j]));
        lemma_div_zero(v[pr][j], c);
    }
    assert(q_is_one(pivot[col])) by {
        lemma_div_self(c);
    }
    // rows other than p in w2 are rows of v other than pr... or row p of v
    assert forall|r: int| 0 <= r < n && r != p implies #[trigger] w2[r] == (if r == pr {
        v[p]
    } else {
        v[r]
    }) by {}
    assert forall|r: int| 0 <= r < n implies (#[trigger] w3[r]).len() == v[r].len() by {
        assert(v[r].len() == cols + 1);
        assert(v[pr].len() == cols + 1);
        assert(v[p].len() == cols + 1);
    }
    assert(all_valid(pivot)) by {
        assert forall|j: int| 0 <= j < pivot.len() implies #[trigger] q_valid(pivot[j]) by {
            assert(q_valid(v[pr][j]));
            lemma_ops_valid(v[pr][j], c);
        }
    }
    // every entry of the pivot row at an earlier pivot column is zero
    assert forall|k: int| 0 <= k < p implies #[trigger] q_is_zero(pivot[pc[k]]) by {
        assert(q_is_zero(v[pr][pc[k]]));
        lemma_div_zero(v[pr][pc[k]], c);
    }
    // R1
    assert forall|k: int| 0 <= k < p + 1 implies q_is_one(#[trigger] w3[k][npc[k]]) by {
        if k == p {
            assert(w3[p] == pivot);
        } else {
            assert(w2[k] == v[k]);
            assert(q_is_one(v[k][pc[k]]));
            if !q_is_zero(w2[k][col]) {
                assert(q_is_zero(pivot[pc[k]]));
                assert(all_valid(v[k]));
                lemma_sub_multiple_cases(v[k][pc[k]], v[k][col], pivot[pc[k]]);
            }
        }
    }
    // R2
    assert forall|k: int, r: int| 0 <= k < p + 1 && 0 <= r < n && r != k implies q_is_zero(
        #[trigger] w3[r][npc[k]],
    ) by {
        let f = w2[r][col];
        if k == p {
            if !q_is_zero(f) {
                assert(all_valid(w2[r]));
                lemma_sub_multiple_cases(f, f, pivot[col]);
            }
        } else {
            let j = pc[k];
            if r == p {
                assert(w3[p] == pivot);
            } else {
                assert(q_is_zero(w2[r][j]));
                if !q_is_zero(f) {
                    assert(all_valid(w2[r]));
                    lemma_sub_multiple_cases(w2[r][j], f, pivot[j]);
                }
            }
        }
    }
    // R3
    assert forall|k: int, cc: int| 0 <= k < p + 1 && 0 <= cc < npc[k] implies q_is_zero(
        #[trigger] w3[k][cc],
    ) by {
        if k == p {
            assert(w3[p] == pivot);
        } else {
            assert(w2[k] == v[k]);
            assert(q_is_zero(v[k][cc]));
            assert(cc < col);
            assert(q_is_zero(pivot[cc]));
            if !q_is_zero(w2[k][col]) {
                assert(all_valid(v[k]));
                lemma_sub_multiple_cases(v[k][cc], v[k][col], pivot[cc]);
            }
        }
    }
    // R4
    assert forall|r: int, cc: int| p + 1 <= r < n && 0 <= cc < col + 1 implies q_is_zero(
        #[trigger] w3[r][cc],
    ) by {
        let f = w2[r][col];
        if cc == col {
            if !q_is_zero(f) {
                assert(all_valid(w2[r]));
                lemma_sub_multiple_cases(f, f, pivot[col]);
            }
        } else {
            assert(q_is_zero(w2[r][cc]));
            assert(q_is_zero(pivot[cc]));
            if !q_is_zero(f) {
                assert(all_valid(w2[r]));
                lemma_sub_multiple_cases(w2[r][cc], f, pivot[cc]);
            }
        }
    }
    assert forall|k: int| 0 <= k < p + 1 implies 0 <= #[trigger] npc[k] < col + 1 by {
        if k < p {
            assert(npc[k] == pc[k]);
        }
    }
    assert forall|a: int, b: int| 0 <= a < b < p + 1 implies npc[a] < npc[b] by {
        if b < p {
            assert(npc[a] == pc[a] && npc[b] == pc[b]);
        } else {
            assert(npc[a] == pc[a]);
            assert(0 <= pc[a] < col);
        }
    }

}

/// A column with no nonzero entry from row `p` on adds no pivot.
pub proof fn lemma_skip_structure(v: Seq<Seq<Frac>>, p: int, col: int, pc: Seq<int>)
    requires
        reduced_upto(v, p, col, pc),
        forall|r: int| p <= r < v.len() ==> q_is_zero(#[trigger] v[r][col]),
    ensures
        reduced_upto(v, p, col + 1, pc),
{
    assert forall|r: int, c: int| p <= r < v.len() && 0 <= c < col + 1 implies q_is_zero(
        #[trigger] v[r][c],
    ) by {
        if c < col {
            assert(q_is_zero(v[r][c]));
        }
    }
}

/// The candidate point has `cols` entries: at the pivot column of each of
/// the first `n` pivot rows that row's right-hand side, zero elsewhere.
pub proof fn lemma_reduced_point(v: Seq<Seq<Frac>>, pc: Seq<int>, cols: int, n: int)
    requires
        0 <= n <= pc.len(),
        n <= v.len(),
        cols >= 0,
        forall|a: int, b: int| 0 <= a < b < pc.len() ==> pc[a] < pc[b],
        forall|k: int| 0 <= k < pc.len() ==> 0 <= #[trigger] pc[k] < cols,
    ensures
        reduced_point(v, pc, cols, n).len() == cols,
        forall|k: int| 0 <= k < n ==> #[trigger] reduced_point(v, pc, cols, n)[pc[k]] == v[k][cols],
        forall|c: int|
            0 <= c < cols && (forall|k: int| 0 <= k < n ==> #[trigger] pc[k] != c) ==> reduced_point(
                v,
                pc,
                cols,
                n,
            )[c] == q_zero(),
    decreases n,
{
    if n > 0 {
        lemma_reduced_point(v, pc, cols, n - 1);
        let prev = reduced_point(v, pc, cols, n - 1);
        let cur = reduced_point(v, pc, cols, n);
        assert(cur == prev.update(pc[n - 1], v[n - 1][cols]));
        assert forall|k: int| 0 <= k < n implies #[trigger] cur[pc[k]] == v[k][cols] by {
            if k < n - 1 {
                assert(pc[k] < pc[n - 1]);
                assert(prev[pc[k]] == v[k][cols]);
            }
        }
        assert forall|c: int|
            0 <= c < cols && (forall|k: int| 0 <= k < n ==> #[trigger] pc[k] != c) implies cur[c]
            == q_zero() by {
            assert(pc[n - 1] != c);
            assert forall|k: int| 0 <= k < n - 1 implies #[trigger] pc[k] != c by {
                assert(pc[k] != c);
            }
        }
    }
}

/// When the fully reduced system has a solution, the candidate point read
/// off the pivot rows solves it.
pub proof fn lemma_reduced_solution(v: Seq<Seq<Frac>>, p: int, cols: int, pc: Seq<int>, y: Seq<Frac>)
    requires
        cols >= 0,
        rows_ok(v, cols),
        reduced_upto(v, p, cols, pc),
        valid_point(y, cols),
        sat_all(v, y, cols),
    ensures
        valid_point(reduced_point(v, pc, cols, p), cols),
        sat_all(v, reduced_point(v, pc, cols, p), cols),
{
    let x = reduced_point(v, pc, cols, p);
    lemma_reduced_point(v, pc, cols, p);
    assert(all_valid(x)) by {
        assert forall|c: int| 0 <= c < x.len() implies #[trigger] q_valid(x[c]) by {
            if exists|k: int| 0 <= k < p && pc[k] == c {
                let k = choose|k: int| 0 <= k < p && pc[k] == c;
                assert(x[pc[k]] == v[k][cols]);
                assert(v[k].len() == cols + 1 && all_valid(v[k]));
            } else {
                assert forall|k: int| 0 <= k < p implies #[trigger] pc[k] != c by {}
            }
        }
    }
    assert forall|r: int| 0 <= r < v.len() implies #[trigger] sat_row(v[r], x, cols) by {
        assert(v[r].len() == cols + 1 && all_valid(v[r]));
        if r < p {
            let j0 = pc[r];
            assert forall|j: int| 0 <= j < cols && j != j0 implies q_is_zero(#[trigger] v[r][j])
                || q_is_zero(x[j]) by {
                if exists|k: int| 0 <= k < p && pc[k] == j {
                    let k = choose|k: int| 0 <= k < p && pc[k] == j;
                    assert(k != r);
                    assert(q_is_zero(v[r][pc[k]]));
                } else {
                    assert forall|k: int| 0 <= k < p implies #[trigger] pc[k] != j by {}
                }
            }
            lemma_dot_reduced_row(v[r], x, j0, cols);
            assert(x[j0] == v[r][cols]);
        } else {
            assert forall|j: int| 0 <= j < cols implies #[trigger] q_is_zero(v[r][j]) by {}
            lemma_dot_zero_row(v[r], y, cols);
            lemma_dot_zero_row(v[r], x, cols);
            assert(sat_row(v[r], y, cols));
            let dy = dot(v[r], y, cols);
            let dx = dot(v[r], x, cols);
            let b = v[r][cols];
            lemma_dot_valid(v[r], y, cols);
            lemma_dot_valid(v[r], x, cols);
            assert(q_valid(b));
            assert(b.0 == 0) by (nonlinear_arith)
                requires
                    dy.0 == 0,
                    dy.0 * b.1 == b.0 * dy.1,
                    dy.1 > 0,
            ;
            assert(dx.0 * b.1 == b.0 * dx.1) by (nonlinear_arith)
                requires
                    dx.0 == 0,
                    b.0 == 0,
            ;
        }
    }
}

/// Column `j` of the rows is the combination of the columns before it with
/// coefficients `c`: in every row, `row[j] = sum_{k < j} row[k] * c[k]`.
pub open spec fn column_relation(v: Seq<Seq<Frac>>, j: int, c: Seq<Frac>) -> bool {
    forall|i: int| 0 <= i < v.len() ==> #[trigger] q_eq(dot(v[i], c, j), v[i][j])
}

/// A pivot step keeps every relation among the columns.
pub proof fn lemma_pivot_keeps_relation(
    v: Seq<Seq<Frac>>,
    p: int,
    pr: int,
    col: int,
    cols: int,
    j: int,
    c: Seq<Frac>,
)
    requires
        rows_ok(v, cols),
        0 <= p <= pr < v.len(),
        0 <= col < cols,
        !q_is_zero(v[pr][col]),
        0 <= j < cols,
        valid_point(c, j),
        column_relation(v, j, c),
    ensures
        column_relation(pivot_step(v, p, pr, col), j, c),
{
    let w1 = swap_rows(v, p, pr);
    let w2 = scale_at(w1, p, col);
    let w3 = elim_at(w2, p, col);
    let cc = w1[p][col];
    assert(all_valid(v[pr]));
    assert(q_valid(cc));
    assert(column_relation(w1, j, c)) by {
        assert forall|i: int| 0 <= i < w1.len() implies #[trigger] q_eq(dot(w1[i], c, j), w1[i][j]) by {
            if i == p {
                assert(q_eq(dot(v[pr], c, j), v[pr][j]));
            } else if i == pr {
                assert(q_eq(dot(v[p], c, j), v[p][j]));
            } else {
                assert(q_eq(dot(v[i], c, j), v[i][j]));
            }
        }
    }
    let row = w1[p];
    let pivot = w2[p];
    assert(row.len() == cols + 1 && all_valid(row));
    assert(pivot == scale_row(row, cc));
    assert(all_valid(pivot)) by {
        assert forall|k: int| 0 <= k < pivot.len() implies #[trigger] q_valid(pivot[k]) by {
            assert(q_valid(row[k]));
            lemma_ops_valid(row[k], cc);
        }
    }
    // the scaled row keeps the relation
    assert(q_eq(dot(pivot, c, j), pivot[j])) by {
        lemma_dot_scale(row, cc, c, j);
        lemma_dot_valid(row, c, j);
        lemma_dot_valid(pivot, c, j);
        assert(q_eq(dot(row, c, j), row[j]));
        assert(q_valid(row[j]));
        lemma_ops_valid(cc, cc);
        lemma_mul_cong(dot(row, c, j), q_inv(cc), row[j], q_inv(cc));
        lemma_ops_valid(dot(row, c, j), cc);
        lemma_ops_valid(row[j], cc);
        lemma_eq_trans(dot(pivot, c, j), q_div(dot(row, c, j), cc), q_div(row[j], cc));
    }
    assert(column_relation(w2, j, c)) by {
        assert forall|i: int| 0 <= i < w2.len() implies #[trigger] q_eq(dot(w2[i], c, j), w2[i][j]) by {
            if i != p {
                assert(q_eq(dot(w1[i], c, j), w1[i][j]));
            }
        }
    }
    assert forall|i: int| 0 <= i < w3.len() implies #[trigger] q_eq(dot(w3[i], c, j), w3[i][j]) by {
        assert(q_eq(dot(w2[i], c, j), w2[i][j]));
        if !(i == p || q_is_zero(w2[i][col])) {
            let r = w2[i];
            let f = r[col];
            assert(r.len() == cols + 1 && all_valid(r)) by {
                if i == p {
                } else if i == pr {
                    assert(r == v[p]);
                } else {
                    assert(r == v[i]);
                }
            }
            assert(q_valid(f));
            lemma_dot_elim(r, f, pivot, c, j);
            lemma_dot_valid(r, c, j);
            lemma_dot_valid(pivot, c, j);
            assert(q_valid(r[j]) && q_valid(pivot[j]));
            lemma_mul_cong(f, dot(pivot, c, j), f, pivot[j]);
            lemma_sub_cong(dot(r, c, j), q_mul(f, dot(pivot, c, j)), r[j], q_mul(f, pivot[j]));
            let e = elim_row(r, f, pivot);
            assert(all_valid(e)) by {
                assert forall|k: int| 0 <= k < e.len() implies #[trigger] q_valid(e[k]) by {
                    assert(q_valid(r[k]) && q_valid(pivot[k]));
                    lemma_ops_valid(f, pivot[k]);
                    lemma_ops_valid(r[k], q_mul(f, pivot[k]));
                }
            }
            lemma_dot_valid(e, c, j);
            lemma_ops_valid(f, dot(pivot, c, j));
            lemma_ops_valid(f, pivot[j]);
            lemma_ops_valid(dot(r, c, j), q_mul(f, dot(pivot, c, j)));
            lemma_ops_valid(r[j], q_mul(f, pivot[j]));
            lemma_eq_trans(
                dot(e, c, j),
                q_sub(dot(r, c, j), q_mul(f, dot(pivot, c, j))),
                q_sub(r[j], q_mul(f, pivot[j])),
            );
            assert(w3[i] == e);
        }
    }
}

/// A pivot column of the reduced rows is no combination of the columns
/// before it.
pub proof fn lemma_pivot_column_not_combination(
    v: Seq<Seq<Frac>>,
    p: int,
    cols: int,
    pc: Seq<int>,
    j: int,
    c: Seq<Frac>,
)
    requires
        rows_ok(v, cols),
        reduced_upto(v, p, cols, pc),
        0 <= j < cols,
        valid_point(c, j),
        column_relation(v, j, c),
    ensures
        forall|k: int| 0 <= k < p ==> #[trigger] pc[k] != j,
{
    assert forall|k: int| 0 <= k < p implies #[trigger] pc[k] != j by {
        if pc[k] == j {
            assert(v[k].len() == cols + 1 && all_valid(v[k]));
            assert forall|jj: int| 0 <= jj < j implies #[trigger] q_is_zero(v[k][jj]) by {}
            lemma_dot_zero_row(v[k], c, j);
            lemma_dot_valid(v[k], c, j);
            let d = dot(v[k], c, j);
            let o = v[k][j];
            assert(q_eq(d, o));
            assert(q_is_one(o) && q_valid(o));
            assert(false) by (nonlinear_arith)
                requires
                    d.0 == 0,
                    d.1 > 0,
                    o.0 == o.1,
                    o.1 > 0,
                    d.0 * o.1 == o.0 * d.1,
            ;
        }
    }
}

} // verus!
