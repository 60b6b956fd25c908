//! How many fillings the Littlewood-Richardson construction can produce:
//! at most `(rows + boxes)^boxes`, so small diagrams give few outcomes.
use vstd::prelude::*;
use crate::lattice::{Cell, lattice_ok};
use crate::lr::{
    decompose_outcomes, decompose_over, grown_within, lemma_addable_rows_le_len,
    lemma_place_row_bounds, lemma_seq_sum_first, lemma_seq_sum_nonneg, lr_outcomes,
    place_row_options, place_row_spec, Fill,
};
use crate::shape::{
    addable_rows_of, addable_upto, cell_column, fits_dim, lemma_normal_shape_size, normal_shape,
    seq_sum, with_cell,
};

verus! {

/// `b` to the power `e`.
pub open spec fn ipow(b: int, e: nat) -> int
    decreases e,
{
    if e == 0 {
        1
    } else {
        b * ipow(b, (e - 1) as nat)
    }
}

pub proof fn lemma_ipow_pos(b: int, e: nat)
    requires
        b >= 1,
    ensures
        ipow(b, e) >= 1,
    decreases e,
{
    if e > 0 {
        lemma_ipow_pos(b, (e - 1) as nat);
        let p = ipow(b, (e - 1) as nat);
        assert(b * p >= 1) by (nonlinear_arith)
            requires
                b >= 1,
                p >= 1,
        ;
    }
}

pub proof fn lemma_ipow_nonneg(b: int, e: nat)
    requires
        b >= 0,
    ensures
        ipow(b, e) >= 0,
    decreases e,
{
    if e > 0 {
        lemma_ipow_nonneg(b, (e - 1) as nat);
        let p = ipow(b, (e - 1) as nat);
        assert(b * p >= 0) by (nonlinear_arith)
            requires
                b >= 0,
                p >= 0,
        ;
    }
}

pub proof fn lemma_ipow_mono(a: int, b: int, e: nat)
    requires
        0 <= a <= b,
    ensures
        ipow(a, e) <= ipow(b, e),
    decreases e,
{
    if e > 0 {
        lemma_ipow_mono(a, b, (e - 1) as nat);
        lemma_ipow_nonneg(a, (e - 1) as nat);
        let p = ipow(a, (e - 1) as nat);
        let q = ipow(b, (e - 1) as nat);
        assert(a * p <= b * q) by (nonlinear_arith)
            requires
                0 <= a <= b,
                0 <= p <= q,
        ;
    }
}

pub proof fn lemma_ipow_add(b: int, e1: nat, e2: nat)
    ensures
        ipow(b, e1 + e2) == ipow(b, e1) * ipow(b, e2),
    decreases e1,
{
    if e1 > 0 {
        lemma_ipow_add(b, (e1 - 1) as nat, e2);
        assert((e1 + e2 - 1) as nat == ((e1 - 1) as nat + e2) as nat);
        let p = ipow(b, (e1 - 1) as nat);
        let q = ipow(b, e2);
        assert(b * (p * q) == (b * p) * q) by (nonlinear_arith);
    }
}

proof fn lemma_addable_upto_len(shape: Seq<usize>, dim: int, n: int)
    requires
        n >= 0,
    ensures
        addable_upto(shape, dim, n).len() <= n,
    decreases n,
{
    if n > 0 {
        lemma_addable_upto_len(shape, dim, n - 1);
    }
}

proof fn lemma_place_row_count(
    shape: Seq<usize>,
    k: nat,
    label: u8,
    dim: int,
    used: Seq<usize>,
    cells: Seq<Cell>,
)
    ensures
        place_row_spec(shape, k, label, dim, used, cells).len() <= ipow((shape.len() + k) as int, k),
    decreases k, 1nat, 0nat,
{
    if k > 0 {
        let rows = addable_rows_of(shape, dim);
        lemma_addable_rows_le_len(shape, dim, shape.len() + 1int);
        lemma_addable_upto_len(shape, dim, shape.len() + 1int);
        lemma_place_options_count(shape, rows, k, label, dim, used, cells);
        let p = ipow((shape.len() + k) as int, (k - 1) as nat);
        lemma_ipow_nonneg((shape.len() + k) as int, (k - 1) as nat);
        let r = rows.len() as int;
        let m = (shape.len() + k) as int;
        assert(r * p <= m * p) by (nonlinear_arith)
            requires
                0 <= r <= m,
                p >= 0,
        ;
    } else {
        assert(ipow((shape.len() + k) as int, k) == 1);
    }
}

proof fn lemma_place_options_count(
    shape: Seq<usize>,
    rows: Seq<usize>,
    k: nat,
    label: u8,
    dim: int,
    used: Seq<usize>,
    cells: Seq<Cell>,
)
    requires
        k > 0,
        forall|i: int| 0 <= i < rows.len() ==> #[trigger] rows[i] <= shape.len(),
    ensures
        place_row_options(shape, rows, k, label, dim, used, cells).len() <= rows.len() * ipow(
            (shape.len() + k) as int,
            (k - 1) as nat,
        ),
    decreases k, 0nat, rows.len(),
{
    let p = ipow((shape.len() + k) as int, (k - 1) as nat);
    lemma_ipow_nonneg((shape.len() + k) as int, (k - 1) as nat);
    if rows.len() > 0 {
        lemma_place_options_count(shape, rows.drop_last(), k, label, dim, used, cells);
        let r = rows.last() as int;
        let col = cell_column(shape, r);
        let ns = with_cell(shape, r);
        let c2 = cells.push((r as usize, col, label));
        if !used.contains(col) && lattice_ok(c2) {
            lemma_place_row_count(ns, (k - 1) as nat, label, dim, used.push(col), c2);
            assert(ns.len() <= shape.len() + 1);
            lemma_ipow_mono((ns.len() + (k - 1)) as int, (shape.len() + k) as int, (k - 1) as nat);
        }
        let n1 = (rows.len() - 1) as int;
        assert(n1 * p + p == (n1 + 1) * p) by (nonlinear_arith);
    }
}

proof fn lemma_decompose_count(
    shape: Seq<usize>,
    rows: Seq<usize>,
    cells: Seq<Cell>,
    label: int,
    dim: int,
)
    ensures
        decompose_outcomes(shape, rows, cells, label, dim).len() <= ipow(
            shape.len() + seq_sum(rows),
            seq_sum(rows) as nat,
        ),
    decreases rows.len(), 1nat, 0nat,
{
    lemma_seq_sum_nonneg(rows);
    if rows.len() == 0 {
        assert(seq_sum(rows) == 0);
    } else {
        lemma_seq_sum_first(rows);
        let rest = rows.drop_first();
        lemma_seq_sum_nonneg(rest);
        let k = rows[0] as nat;
        let fills = place_row_spec(shape, k, label as u8, dim, Seq::empty(), cells);
        lemma_place_row_count(shape, k, label as u8, dim, Seq::empty(), cells);
        lemma_place_row_bounds(shape, k, label as u8, dim, Seq::empty(), cells);
        let big = shape.len() + seq_sum(rows);
        let sr = seq_sum(rest) as nat;
        lemma_decompose_over_count(fills, rest, label + 1, dim, big - sr, sr);
        lemma_ipow_mono((shape.len() + k) as int, big, k);
        lemma_ipow_nonneg(big, sr);
        lemma_ipow_nonneg((shape.len() + k) as int, k);
        let a = fills.len() as int;
        let b = ipow((shape.len() + k) as int, k);
        let c = ipow(big, k);
        let d = ipow(big, sr);
        assert(a * d <= c * d) by (nonlinear_arith)
            requires
                0 <= a <= b,
                b <= c,
                d >= 0,
        ;
        lemma_ipow_add(big, k, sr);
        assert(seq_sum(rows) as nat == (k + sr) as nat);
        assert(decompose_outcomes(shape, rows, cells, label, dim) == decompose_over(
            fills,
            rest,
            label + 1,
            dim,
        ));
    }
}

proof fn lemma_decompose_over_count(
    fills: Seq<Fill>,
    rows: Seq<usize>,
    label: int,
    dim: int,
    max_len: int,
    sr: nat,
)
    requires
        sr == seq_sum(rows),
        forall|j: int| 0 <= j < fills.len() ==> #[trigger] fills[j].0.len() <= max_len,
        max_len >= 0,
    ensures
        decompose_over(fills, rows, label, dim).len() <= fills.len() * ipow(max_len + sr, sr),
    decreases rows.len() + 1, 0nat, fills.len(),
{
    let p = ipow(max_len + sr, sr);
    lemma_ipow_nonneg(max_len + sr, sr);
    if fills.len() > 0 {
        let f = fills.last();
        assert(f == fills[fills.len() - 1]);
        lemma_decompose_over_count(fills.drop_last(), rows, label, dim, max_len, sr);
        lemma_decompose_count(f.0, rows, f.1, label, dim);
        lemma_ipow_mono((f.0.len() + sr) as int, max_len + sr, sr);
        let n1 = (fills.len() - 1) as int;
        assert(n1 * p + p == (n1 + 1) * p) by (nonlinear_arith);
    }
}

/// The product of `a` and `b` has at most `(|a| + |b|)^|b|` outcomes, where
/// `|x|` is the number of boxes.
pub proof fn lemma_lr_outcomes_count(a: Seq<usize>, b: Seq<usize>, dim: int)
    ensures
        lr_outcomes(a, b, dim).len() <= ipow(seq_sum(a) + seq_sum(b), seq_sum(b) as nat),
{
    lemma_normal_shape_size(a);
    lemma_normal_shape_size(b);
    lemma_seq_sum_nonneg(b);
    lemma_seq_sum_nonneg(a);
    lemma_ipow_nonneg(seq_sum(a) + seq_sum(b), seq_sum(b) as nat);
    if fits_dim(normal_shape(a), dim) && fits_dim(normal_shape(b), dim) {
        lemma_decompose_count(normal_shape(a), normal_shape(b), Seq::empty(), 1, dim);
        lemma_ipow_mono(
            normal_shape(a).len() + seq_sum(normal_shape(b)),
            seq_sum(a) + seq_sum(b),
            seq_sum(b) as nat,
        );
    }
}

} // verus!
