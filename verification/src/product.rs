//! Products of several Young diagrams, folded pairwise with
//! `littlewood_richardson`, multiplicities accumulated.
use vstd::prelude::*;
use crate::lattice::{Cell, lattice_ok};
use crate::lr::{
    decompose_outcomes, decompose_over, lemma_pair_count_absent, lemma_pair_count_entry,
    lemma_pair_count_push, lemma_pair_count_update, lemma_seq_count_concat, lemma_seq_count_le_len,
    lemma_seq_sum_first, lemma_seq_sum_nonneg, littlewood_richardson, lr_outcomes, pair_count,
    place_row_options, place_row_spec, rows_equal, seq_count, sort_table_desc, sorted_desc,
    table_ok, table_view, Fill,
};
use crate::shape::{
    addable, addable_rows_of, addable_upto, cell_column, copy_rows, fits_dim,
    lemma_normal_shape_props, lemma_normal_shape_size, normal_shape, normalize_shape,
    positive_rows, seq_sum, shapes_view, with_cell,
};

verus! {

/// `lr_outcomes` of each diagram of `list` with `shape`, concatenated.
pub open spec fn flat_lr(list: Seq<Seq<usize>>, shape: Seq<usize>, dim: int) -> Seq<Seq<usize>>
    decreases list.len(),
{
    if list.len() == 0 {
        Seq::empty()
    } else {
        flat_lr(list.drop_last(), shape, dim) + lr_outcomes(list.last(), shape, dim)
    }
}

/// The outcomes of multiplying the diagrams of `shapes` from left to right:
/// none for no diagram, the normalised diagram for one, else the outcomes of
/// the product of the first diagrams each multiplied by the last.
pub open spec fn product_list(shapes: Seq<Seq<usize>>, dim: int) -> Seq<Seq<usize>>
    decreases shapes.len(),
{
    if shapes.len() == 0 {
        Seq::empty()
    } else if shapes.len() == 1 {
        seq![normal_shape(shapes[0])]
    } else {
        flat_lr(product_list(shapes.drop_last(), dim), shapes.last(), dim)
    }
}

/// Total number of boxes over a list of diagrams.
pub open spec fn total_boxes(shapes: Seq<Seq<usize>>) -> int
    decreases shapes.len(),
{
    if shapes.len() == 0 {
        0
    } else {
        total_boxes(shapes.drop_last()) + seq_sum(shapes.last())
    }
}

/// Sum over the entries `(s, m)` of a table of `m` times the number of
/// times `t` is an outcome of `s` with `shape`.
pub open spec fn weighted_count(
    pairs: Seq<(Seq<usize>, usize)>,
    shape: Seq<usize>,
    dim: int,
    t: Seq<usize>,
) -> nat
    decreases pairs.len(),
{
    if pairs.len() == 0 {
        0
    } else {
        weighted_count(pairs.drop_last(), shape, dim, t) + pairs.last().1 as nat * seq_count(
            lr_outcomes(pairs.last().0, shape, dim),
            t,
        )
    }
}

// ---------------------------------------------------------------------------
// Every outcome has as many boxes as its factors together.
// ---------------------------------------------------------------------------
proof fn lemma_seq_sum_update(s: Seq<usize>, i: int, v: usize)
    requires
        0 <= i < s.len(),
    ensures
        seq_sum(s.update(i, v)) == seq_sum(s) - s[i] + v,
    decreases s.len(),
{
    if i == s.len() - 1 {
        assert(s.update(i, v).drop_last() =~= s.drop_last());
    } else {
        assert(s.update(i, v).drop_last() =~= s.drop_last().update(i, v));
        lemma_seq_sum_update(s.drop_last(), i, v);
    }
}

proof fn lemma_with_cell_sum(shape: Seq<usize>, r: int)
    requires
        0 <= r <= shape.len(),
        r < shape.len() ==> shape[r] < usize::MAX,
    ensures
        seq_sum(with_cell(shape, r)) == seq_sum(shape) + 1,
{
    if r == shape.len() {
        assert(shape.push(1).drop_last() =~= shape);
    } else {
        lemma_seq_sum_update(shape, r, (shape[r] + 1) as usize);
    }
}

/// Boxes bounded below `usize::MAX` in every row.
pub open spec fn rows_below_max(shape: Seq<usize>, extra: int) -> bool {
    forall|i: int| 0 <= i < shape.len() ==> shape[i] + extra < usize::MAX
}

proof fn lemma_addable_upto_le_len(shape: Seq<usize>, dim: int, n: int)
    requires
        n <= shape.len() + 1,
    ensures
        forall|i: int|
            0 <= i < addable_upto(shape, dim, n).len() ==> #[trigger] addable_upto(shape, dim, n)[i]
                <= shape.len(),
    decreases n,
{
    if n > 0 {
        lemma_addable_upto_le_len(shape, dim, n - 1);
        if addable(shape, dim, n - 1) {
            assert(addable_upto(shape, dim, n) == addable_upto(shape, dim, n - 1).push(
                (n - 1) as usize,
            ));
            if n - 1 <= usize::MAX {
                assert(((n - 1) as usize) as int == n - 1);
            }
        }
    }
}

proof fn lemma_place_row_sum(
    shape: Seq<usize>,
    k: nat,
    label: u8,
    dim: int,
    used: Seq<usize>,
    cells: Seq<Cell>,
)
    requires
        rows_below_max(shape, k as int),
        k < usize::MAX,
    ensures
        forall|j: int|
            0 <= j < place_row_spec(shape, k, label, dim, used, cells).len() ==> seq_sum(
                #[trigger] place_row_spec(shape, k, label, dim, used, cells)[j].0,
            ) == seq_sum(shape) + k,
    decreases k, 1nat, 0nat,
{
    if k > 0 {
        lemma_addable_upto_le_len(shape, dim, shape.len() + 1int);
        lemma_place_options_sum(shape, addable_rows_of(shape, dim), k, label, dim, used, cells);
        assert(place_row_spec(shape, k, label, dim, used, cells) == place_row_options(
            shape,
            addable_rows_of(shape, dim),
            k,
            label,
            dim,
            used,
            cells,
        ));
    }
}

proof fn lemma_place_options_sum(
    shape: Seq<usize>,
    rows: Seq<usize>,
    k: nat,
    label: u8,
    dim: int,
    used: Seq<usize>,
    cells: Seq<Cell>,
)
    requires
        forall|i: int| 0 <= i < rows.len() ==> #[trigger] rows[i] <= shape.len(),
        rows_below_max(shape, k as int),
        k < usize::MAX,
    ensures
        forall|j: int|
            0 <= j < place_row_options(shape, rows, k, label, dim, used, cells).len() ==> seq_sum(
                #[trigger] place_row_options(shape, rows, k, label, dim, used, cells)[j].0,
            ) == seq_sum(shape) + k,
    decreases k, 0nat, rows.len(),
{
    if rows.len() > 0 && k > 0 {
        let prev = place_row_options(shape, rows.drop_last(), k, label, dim, used, cells);
        lemma_place_options_sum(shape, rows.drop_last(), k, label, dim, used, cells);
        let r = rows.last() as int;
        let col = cell_column(shape, r);
        let ns = with_cell(shape, r);
        let c2 = cells.push((r as usize, col, label));
        if !used.contains(col) && lattice_ok(c2) {
            assert(rows_below_max(ns, k - 1)) by {
                assert forall|i: int| 0 <= i < ns.len() implies ns[i] + (k - 1) < usize::MAX by {
                    if i < shape.len() {
                    } else {
                        assert(ns[i] == 1);
                    }
                }
            }
            lemma_with_cell_sum(shape, r);
            let sub = place_row_spec(ns, (k - 1) as nat, label, dim, used.push(col), c2);
            lemma_place_row_sum(ns, (k - 1) as nat, label, dim, used.push(col), c2);
            let all = place_row_options(shape, rows, k, label, dim, used, cells);
            assert(all == prev + sub);
            assert forall|j: int| 0 <= j < all.len() implies seq_sum(#[trigger] all[j].0) == seq_sum(
                shape,
            ) + k by {
                if j >= prev.len() {
                    assert(all[j] == sub[j - prev.len()]);
                }
            }
        }
    }
}

proof fn lemma_place_row_rows_bound(
    shape: Seq<usize>,
    k: nat,
    label: u8,
    dim: int,
    used: Seq<usize>,
    cells: Seq<Cell>,
    extra: int,
)
    requires
        rows_below_max(shape, k + extra),
        extra >= 0,
        shape.len() + k + extra < usize::MAX,
    ensures
        forall|j: int|
            0 <= j < place_row_spec(shape, k, label, dim, used, cells).len() ==> rows_below_max(
                #[trigger] place_row_spec(shape, k, label, dim, used, cells)[j].0,
                extra,
            ) && place_row_spec(shape, k, label, dim, used, cells)[j].0.len() + extra
                < usize::MAX,
    decreases k, 1nat, 0nat,
{
    if k > 0 {
        lemma_addable_upto_le_len(shape, dim, shape.len() + 1int);
        lemma_place_options_rows_bound(
            shape,
            addable_rows_of(shape, dim),
            k,
            label,
            dim,
            used,
            cells,
            extra,
        );
        assert(place_row_spec(shape, k, label, dim, used, cells) == place_row_options(
            shape,
            addable_rows_of(shape, dim),
            k,
            label,
            dim,
            used,
            cells,
        ));
    }
}

proof fn lemma_place_options_rows_bound(
    shape: Seq<usize>,
    rows: Seq<usize>,
    k: nat,
    label: u8,
    dim: int,
    used: Seq<usize>,
    cells: Seq<Cell>,
    extra: int,
)
    requires
        forall|i: int| 0 <= i < rows.len() ==> #[trigger] rows[i] <= shape.len(),
        rows_below_max(shape, k + extra),
        extra >= 0,
        shape.len() + k + extra < usize::MAX,
    ensures
        forall|j: int|
            0 <= j < place_row_options(shape, rows, k, label, dim, used, cells).len()
                ==> rows_below_max(
                #[trigger] place_row_options(shape, rows, k, label, dim, used, cells)[j].0,
                extra,
            ) && place_row_options(shape, rows, k, label, dim, used, cells)[j].0.len() + extra
                < usize::MAX,
    decreases k, 0nat, rows.len(),
{
    if rows.len() > 0 && k > 0 {
        let prev = place_row_options(shape, rows.drop_last(), k, label, dim, used, cells);
        lemma_place_options_rows_bound(shape, rows.drop_last(), k, label, dim, used, cells, extra);
        let r = rows.last() as int;
        let col = cell_column(shape, r);
        let ns = with_cell(shape, r);
        let c2 = cells.push((r as usize, col, label));
        if !used.contains(col) && lattice_ok(c2) {
            assert(rows_below_max(ns, (k - 1) + extra)) by {
                assert forall|i: int| 0 <= i < ns.len() implies ns[i] + (k - 1) + extra
                    < usize::MAX by {
                    if i < shape.len() {
                    } else {
                        assert(ns[i] == 1);
                    }
                }
            }
            let sub = place_row_spec(ns, (k - 1) as nat, label, dim, used.push(col), c2);
            lemma_place_row_rows_bound(ns, (k - 1) as nat, label, dim, used.push(col), c2, extra);
            let all = place_row_options(shape, rows, k, label, dim, used, cells);
            assert(all == prev + sub);
            assert forall|j: int| 0 <= j < all.len() implies rows_below_max(#[trigger] all[j].0, extra)
                && all[j].0.len() + extra < usize::MAX by {
                if j >= prev.len() {
                    assert(all[j] == sub[j - prev.len()]);
                }
            }
        }
    }
}

proof fn lemma_decompose_sum(
    shape: Seq<usize>,
    rows: Seq<usize>,
    cells: Seq<Cell>,
    label: int,
    dim: int,
)
    requires
        rows_below_max(shape, seq_sum(rows)),
        shape.len() + seq_sum(rows) < usize::MAX,
    ensures
        forall|j: int|
            0 <= j < decompose_outcomes(shape, rows, cells, label, dim).len() ==> seq_sum(
                #[trigger] decompose_outcomes(shape, rows, cells, label, dim)[j],
            ) == seq_sum(shape) + seq_sum(rows),
    decreases rows.len(), 1nat, 0nat,
{
    if rows.len() == 0 {
        lemma_normal_shape_size(shape);
        assert(seq_sum(rows) == 0);
    } else {
        lemma_seq_sum_first(rows);
        lemma_seq_sum_nonneg(rows.drop_first());
        let k = rows[0] as nat;
        let fills = place_row_spec(shape, k, label as u8, dim, Seq::empty(), cells);
        assert(rows_below_max(shape, k as int)) by {
            assert forall|i: int| 0 <= i < shape.len() implies shape[i] + k < usize::MAX by {
                assert(shape[i] + seq_sum(rows) < usize::MAX);
            }
        }
        assert(k <= seq_sum(rows));
        lemma_place_row_sum(shape, k, label as u8, dim, Seq::empty(), cells);
        lemma_place_row_rows_bound(
            shape,
            k,
            label as u8,
            dim,
            Seq::empty(),
            cells,
            seq_sum(rows.drop_first()),
        );
        lemma_decompose_over_sum(
            fills,
            rows.drop_first(),
            label + 1,
            dim,
            seq_sum(shape) + k,
        );
        assert(decompose_outcomes(shape, rows, cells, label, dim) == decompose_over(
            fills,
            rows.drop_first(),
            label + 1,
            dim,
        ));
    }
}

proof fn lemma_decompose_over_sum(
    fills: Seq<Fill>,
    rows: Seq<usize>,
    label: int,
    dim: int,
    total: int,
)
    requires
        forall|j: int| 0 <= j < fills.len() ==> seq_sum(#[trigger] fills[j].0) == total,
        forall|j: int|
            0 <= j < fills.len() ==> rows_below_max(#[trigger] fills[j].0, seq_sum(rows))
                && fills[j].0.len() + seq_sum(rows) < usize::MAX,
    ensures
        forall|j: int|
            0 <= j < decompose_over(fills, rows, label, dim).len() ==> seq_sum(
                #[trigger] decompose_over(fills, rows, label, dim)[j],
            ) == total + seq_sum(rows),
    decreases rows.len() + 1, 0nat, fills.len(),
{
    if fills.len() > 0 {
        let f = fills.last();
        assert(f == fills[fills.len() - 1]);
        lemma_decompose_over_sum(fills.drop_last(), rows, label, dim, total);
        lemma_decompose_sum(f.0, rows, f.1, label, dim);
        let prev = decompose_over(fills.drop_last(), rows, label, dim);
        let sub = decompose_outcomes(f.0, rows, f.1, label, dim);
        let all = decompose_over(fills, rows, label, dim);
        assert(all == prev + sub);
        assert forall|j: int| 0 <= j < all.len() implies seq_sum(#[trigger] all[j]) == total
            + seq_sum(rows) by {
            if j >= prev.len() {
                assert(all[j] == sub[j - prev.len()]);
            }
        }
    }
}

/// Each outcome of the product of `a` and `b` has the boxes of both.
pub proof fn lemma_lr_outcomes_boxes(a: Seq<usize>, b: Seq<usize>, dim: int)
    requires
        seq_sum(a) + seq_sum(b) < usize::MAX,
    ensures
        forall|j: int|
            0 <= j < lr_outcomes(a, b, dim).len() ==> seq_sum(#[trigger] lr_outcomes(a, b, dim)[j])
                == seq_sum(a) + seq_sum(b),
{
    if fits_dim(normal_shape(a), dim) && fits_dim(normal_shape(b), dim) {
        lemma_normal_shape_size(a);
        lemma_normal_shape_size(b);
        lemma_decompose_sum(normal_shape(a), normal_shape(b), Seq::empty(), 1, dim);
    }
}

// ---------------------------------------------------------------------------
// Counting lemmas
// ---------------------------------------------------------------------------
proof fn lemma_seq_count_pos_contains(list: Seq<Seq<usize>>, s: Seq<usize>)
    requires
        seq_count(list, s) > 0,
    ensures
        exists|j: int| 0 <= j < list.len() && list[j] == s,
    decreases list.len(),
{
    if list.last() != s {
        lemma_seq_count_pos_contains(list.drop_last(), s);
        let j = choose|j: int| 0 <= j < list.drop_last().len() && list.drop_last()[j] == s;
        assert(list[j] == s);
    } else {
        assert(list[list.len() - 1] == s);
    }
}

proof fn lemma_flat_lr_contains_len(list: Seq<Seq<usize>>, shape: Seq<usize>, dim: int, j: int)
    requires
        0 <= j < list.len(),
    ensures
        lr_outcomes(list[j], shape, dim).len() <= flat_lr(list, shape, dim).len(),
    decreases list.len(),
{
    if j < list.len() - 1 {
        lemma_flat_lr_contains_len(list.drop_last(), shape, dim, j);
    }
}

proof fn lemma_flat_lr_boxes(list: Seq<Seq<usize>>, shape: Seq<usize>, dim: int, total: int)
    requires
        forall|j: int| 0 <= j < list.len() ==> seq_sum(#[trigger] list[j]) == total,
        total + seq_sum(shape) < usize::MAX,
    ensures
        forall|j: int|
            0 <= j < flat_lr(list, shape, dim).len() ==> seq_sum(
                #[trigger] flat_lr(list, shape, dim)[j],
            ) == total + seq_sum(shape),
    decreases list.len(),
{
    if list.len() > 0 {
        lemma_flat_lr_boxes(list.drop_last(), shape, dim, total);
        assert(list.last() == list[list.len() - 1]);
        lemma_lr_outcomes_boxes(list.last(), shape, dim);
        let prev = flat_lr(list.drop_last(), shape, dim);
        let sub = lr_outcomes(list.last(), shape, dim);
        let all = flat_lr(list, shape, dim);
        assert(all == prev + sub);
        assert forall|j: int| 0 <= j < all.len() implies seq_sum(#[trigger] all[j]) == total
            + seq_sum(shape) by {
            if j >= prev.len() {
                assert(all[j] == sub[j - prev.len()]);
            }
        }
    }
}

proof fn lemma_total_boxes_nonneg(shapes: Seq<Seq<usize>>)
    ensures
        total_boxes(shapes) >= 0,
    decreases shapes.len(),
{
    if shapes.len() > 0 {
        lemma_total_boxes_nonneg(shapes.drop_last());
        lemma_seq_sum_nonneg(shapes.last());
    }
}

/// Every outcome of the product of the first `k` diagrams has the boxes of all of them.
proof fn lemma_product_list_boxes(shapes: Seq<Seq<usize>>, dim: int)
    requires
        total_boxes(shapes) < usize::MAX,
    ensures
        forall|j: int|
            0 <= j < product_list(shapes, dim).len() ==> seq_sum(
                #[trigger] product_list(shapes, dim)[j],
            ) == total_boxes(shapes),
    decreases shapes.len(),
{
    if shapes.len() == 1 {
        lemma_normal_shape_size(shapes[0]);
        assert(shapes.drop_last() =~= Seq::<Seq<usize>>::empty());
        assert(shapes.last() == shapes[0]);
    } else if shapes.len() > 1 {
        lemma_total_boxes_nonneg(shapes.drop_last());
        lemma_seq_sum_nonneg(shapes.last());
        lemma_product_list_boxes(shapes.drop_last(), dim);
        lemma_flat_lr_boxes(
            product_list(shapes.drop_last(), dim),
            shapes.last(),
            dim,
            total_boxes(shapes.drop_last()),
        );
    }
}

proof fn lemma_pair_count_remove(p: Seq<(Seq<usize>, usize)>, i: int, s: Seq<usize>)
    requires
        0 <= i < p.len(),
    ensures
        pair_count(p, s) == pair_count(p.remove(i), s) + if p[i].0 == s {
            p[i].1 as nat
        } else {
            0nat
        },
    decreases p.len(),
{
    if i == p.len() - 1 {
        assert(p.remove(i) =~= p.drop_last());
    } else {
        assert(p.remove(i).drop_last() =~= p.drop_last().remove(i));
        assert(p.remove(i).last() == p.last());
        lemma_pair_count_remove(p.drop_last(), i, s);
    }
}

proof fn lemma_weighted_remove(
    p: Seq<(Seq<usize>, usize)>,
    i: int,
    shape: Seq<usize>,
    dim: int,
    t: Seq<usize>,
)
    requires
        0 <= i < p.len(),
    ensures
        weighted_count(p, shape, dim, t) == weighted_count(p.remove(i), shape, dim, t) + p[i].1
            as nat * seq_count(lr_outcomes(p[i].0, shape, dim), t),
    decreases p.len(),
{
    if i == p.len() - 1 {
        assert(p.remove(i) =~= p.drop_last());
    } else {
        assert(p.remove(i).drop_last() =~= p.drop_last().remove(i));
        assert(p.remove(i).last() == p.last());
        lemma_weighted_remove(p.drop_last(), i, shape, dim, t);
    }
}

proof fn lemma_weighted_update(
    p: Seq<(Seq<usize>, usize)>,
    i: int,
    v: usize,
    shape: Seq<usize>,
    dim: int,
    t: Seq<usize>,
)
    requires
        0 <= i < p.len(),
    ensures
        weighted_count(p.update(i, (p[i].0, v)), shape, dim, t) + p[i].1 as nat * seq_count(
            lr_outcomes(p[i].0, shape, dim),
            t,
        ) == weighted_count(p, shape, dim, t) + v as nat * seq_count(
            lr_outcomes(p[i].0, shape, dim),
            t,
        ),
    decreases p.len(),
{
    if i == p.len() - 1 {
        assert(p.update(i, (p[i].0, v)).drop_last() =~= p.drop_last());
    } else {
        assert(p.update(i, (p[i].0, v)).drop_last() =~= p.drop_last().update(i, (p[i].0, v)));
        lemma_weighted_update(p.drop_last(), i, v, shape, dim, t);
    }
}

/// A table that counts the diagrams of `list` gives, weighted by the
/// outcomes of each diagram with `shape`, the count of the concatenated outcomes.
pub proof fn lemma_weighted_matches_flat(
    p: Seq<(Seq<usize>, usize)>,
    list: Seq<Seq<usize>>,
    shape: Seq<usize>,
    dim: int,
    t: Seq<usize>,
)
    requires
        table_ok(p),
        forall|s: Seq<usize>| #[trigger] pair_count(p, s) == seq_count(list, s),
    ensures
        weighted_count(p, shape, dim, t) == seq_count(flat_lr(list, shape, dim), t),
    decreases list.len(),
{
    if list.len() == 0 {
        if p.len() > 0 {
            lemma_pair_count_entry(p, 0);
            assert(pair_count(p, p[0].0) == seq_count(list, p[0].0));
        }
        assert(p.len() == 0);
    } else {
        let x = list.last();
        assert(seq_count(list, x) > 0);
        assert(pair_count(p, x) > 0);
        let j = choose_entry(p, x);
        let m = p[j].1;
        let l2 = list.drop_last();
        lemma_seq_count_concat(flat_lr(l2, shape, dim), lr_outcomes(x, shape, dim), t);
        if m == 1 {
            let p2 = p.remove(j);
            assert forall|s: Seq<usize>| #[trigger] pair_count(p2, s) == seq_count(l2, s) by {
                lemma_pair_count_remove(p, j, s);
                assert(pair_count(p, s) == seq_count(list, s));
            }
            assert(table_ok(p2)) by {
                assert forall|a: int, b: int| 0 <= a < b < p2.len() implies p2[a].0 != p2[b].0 by {
                    let a0 = if a < j { a } else { a + 1 };
                    let b0 = if b < j { b } else { b + 1 };
                    assert(p2[a] == p[a0]);
                    assert(p2[b] == p[b0]);
                }
                assert forall|a: int| 0 <= a < p2.len() implies p2[a].1 > 0 by {
                    let a0 = if a < j { a } else { a + 1 };
                    assert(p2[a] == p[a0]);
                }
            }
            lemma_weighted_matches_flat(p2, l2, shape, dim, t);
            lemma_weighted_remove(p, j, shape, dim, t);
        } else {
            let p2 = p.update(j, (p[j].0, (m - 1) as usize));
            assert forall|s: Seq<usize>| #[trigger] pair_count(p2, s) == seq_count(l2, s) by {
                lemma_pair_count_update(p, j, (m - 1) as usize, s);
                assert(pair_count(p, s) == seq_count(list, s));
            }
            assert(table_ok(p2)) by {
                assert forall|a: int, b: int| 0 <= a < b < p2.len() implies p2[a].0 != p2[b].0 by {
                    assert(p2[a].0 == p[a].0);
                    assert(p2[b].0 == p[b].0);
                }
            }
            lemma_weighted_matches_flat(p2, l2, shape, dim, t);
            lemma_weighted_update(p, j, (m - 1) as usize, shape, dim, t);
            let c = seq_count(lr_outcomes(x, shape, dim), t) as int;
            let mi = m as int;
            assert(mi * c == (mi - 1) * c + c) by (nonlinear_arith);
        }
    }
}

proof fn choose_entry(p: Seq<(Seq<usize>, usize)>, x: Seq<usize>) -> (j: int)
    requires
        table_ok(p),
        pair_count(p, x) > 0,
    ensures
        0 <= j < p.len(),
        p[j].0 == x,
        p[j].1 as nat == pair_count(p, x),
{
    if forall|q: int| 0 <= q < p.len() ==> p[q].0 != x {
        lemma_pair_count_absent(p, x);
    }
    let j = choose|q: int| 0 <= q < p.len() && p[q].0 == x;
    lemma_pair_count_entry(p, j);
    j
}

proof fn lemma_weighted_prefix(
    p: Seq<(Seq<usize>, usize)>,
    q: int,
    shape: Seq<usize>,
    dim: int,
    t: Seq<usize>,
)
    requires
        0 <= q <= p.len(),
    ensures
        weighted_count(p.take(q), shape, dim, t) <= weighted_count(p, shape, dim, t),
    decreases p.len(),
{
    if q < p.len() {
        assert(p.drop_last().take(q) =~= p.take(q));
        lemma_weighted_prefix(p.drop_last(), q, shape, dim, t);
    } else {
        assert(p.take(q) =~= p);
    }
}

/// Adds `amount` occurrences of diagram `s` to the table.
fn add_to_table(results: &mut Vec<(Vec<usize>, usize)>, s: Vec<usize>, amount: usize)
    requires
        table_ok(table_view(old(results)@)),
        amount > 0,
        pair_count(table_view(old(results)@), s@) + amount <= usize::MAX,
    ensures
        table_ok(table_view(final(results)@)),
        forall|t: Seq<usize>|
            #[trigger] pair_count(table_view(final(results)@), t) == pair_count(
                table_view(old(results)@),
                t,
            ) + if t == s@ {
                amount as nat
            } else {
                0nat
            },
{
    let ghost p0 = table_view(results@);
    let mut i: usize = 0;
    while i < results.len()
        invariant
            i <= results.len(),
            p0 == table_view(results@),
            p0 == table_view(old(results)@),
            table_ok(p0),
            amount > 0,
            pair_count(p0, s@) + amount <= usize::MAX,
            forall|k: int| 0 <= k < i ==> p0[k].0 != s@,
        decreases results.len() - i,
    {
        if rows_equal(&results[i].0, &s) {
            proof {
                lemma_pair_count_entry(p0, i as int);
            }
            let count = results[i].1;
            let key = copy_rows(&results[i].0);
            results.set(i, (key, count + amount));
            proof {
                assert(table_view(results@) =~= p0.update(
                    i as int,
                    (p0[i as int].0, (count + amount) as usize),
                ));
                assert forall|t: Seq<usize>|
                    #[trigger] pair_count(table_view(results@), t) == pair_count(p0, t) + if t
                        == s@ {
                        amount as nat
                    } else {
                        0nat
                    } by {
                    lemma_pair_count_update(p0, i as int, (count + amount) as usize, t);
                    assert(p0[i as int].0 == s@);
                    assert(p0[i as int].1 == count);
                }
            }
            return;
        }
        i = i + 1;
    }
    let ghost key = s@;
    results.push((s, amount));
    proof {
        assert(table_view(results@) =~= p0.push((key, amount)));
        assert forall|t: Seq<usize>|
            #[trigger] pair_count(table_view(results@), t) == pair_count(p0, t) + if t == key {
                amount as nat
            } else {
                0nat
            } by {
            lemma_pair_count_push(p0, (key, amount), t);
        }
    }
}

proof fn lemma_pair_count_prefix(p: Seq<(Seq<usize>, usize)>, q: int, s: Seq<usize>)
    requires
        0 <= q <= p.len(),
    ensures
        pair_count(p.take(q), s) <= pair_count(p, s),
    decreases p.len(),
{
    if q < p.len() {
        assert(p.drop_last().take(q) =~= p.take(q));
        lemma_pair_count_prefix(p.drop_last(), q, s);
    } else {
        assert(p.take(q) =~= p);
    }
}

pub proof fn lemma_total_boxes_prefix(shapes: Seq<Seq<usize>>, k: int)
    requires
        0 <= k <= shapes.len(),
    ensures
        total_boxes(shapes.take(k)) <= total_boxes(shapes),
    decreases shapes.len(),
{
    if k < shapes.len() {
        assert(shapes.drop_last().take(k) =~= shapes.take(k));
        lemma_total_boxes_prefix(shapes.drop_last(), k);
        lemma_seq_sum_nonneg(shapes.last());
    } else {
        assert(shapes.take(k) =~= shapes);
    }
}

/// The product of the diagrams of `shapes`, multiplied pairwise from the
/// left with `littlewood_richardson`: each diagram reached with its
/// multiplicity, largest diagram first. Empty for no diagram.
pub fn lr_product_decomposition(shapes: &[Vec<usize>], dim: usize) -> (out: Vec<(Vec<usize>, usize)>)
    requires
        forall|i: int| 0 <= i < shapes.len() ==> positive_rows(#[trigger] shapes[i]@).len() <= 254,
        total_boxes(shapes_view(shapes@)) < usize::MAX,
        forall|k: int|
            1 <= k <= shapes.len() ==> #[trigger] product_list(shapes_view(shapes@).take(k), dim as int).len()
                <= usize::MAX,
    ensures
        table_ok(table_view(out@)),
        sorted_desc(table_view(out@)),
        forall|t: Seq<usize>|
            #[trigger] pair_count(table_view(out@), t) == seq_count(
                product_list(shapes_view(shapes@), dim as int),
                t,
            ),
{
    let ghost sv = shapes_view(shapes@);
    if shapes.len() == 0 {
        let out: Vec<(Vec<usize>, usize)> = Vec::new();
        assert(table_view(out@) =~= Seq::<(Seq<usize>, usize)>::empty());
        return out;
    }
    let first = normalize_shape(&shapes[0]);
    let mut current: Vec<(Vec<usize>, usize)> = Vec::new();
    let ghost f = first@;
    current.push((first, 1));
    proof {
        assert(table_view(current@) =~= seq![(f, 1usize)]);
        assert(sv.take(1) =~= seq![sv[0]]);
        assert(sv[0] == shapes@[0]@);
        assert forall|t: Seq<usize>|
            #[trigger] pair_count(table_view(current@), t) == seq_count(product_list(sv.take(1), dim as int), t) by {
            assert(product_list(sv.take(1), dim as int) == seq![normal_shape(sv[0])]);
            assert(seq![(f, 1usize)].drop_last() =~= Seq::<(Seq<usize>, usize)>::empty());
            assert(seq![normal_shape(sv[0])].drop_last() =~= Seq::<Seq<usize>>::empty());
            assert(pair_count(Seq::<(Seq<usize>, usize)>::empty(), t) == 0);
            assert(seq_count(Seq::<Seq<usize>>::empty(), t) == 0);
            assert(f == normal_shape(sv[0]));
        }
    }
    let mut k: usize = 1;
    while k < shapes.len()
        invariant
            sv == shapes_view(shapes@),
            1 <= k <= shapes.len(),
            forall|i: int| 0 <= i < shapes.len() ==> positive_rows(#[trigger] shapes[i]@).len() <= 254,
            total_boxes(sv) < usize::MAX,
            forall|k2: int|
                1 <= k2 <= shapes.len() ==> #[trigger] product_list(sv.take(k2), dim as int).len()
                    <= usize::MAX,
            table_ok(table_view(current@)),
            forall|t: Seq<usize>|
                #[trigger] pair_count(table_view(current@), t) == seq_count(
                    product_list(sv.take(k as int), dim as int),
                    t,
                ),
        decreases shapes.len() - k,
    {
        let shape = &shapes[k];
        let ghost cur = table_view(current@);
        let ghost plist = product_list(sv.take(k as int), dim as int);
        let ghost sh = sv[k as int];
        assert(sh == shape@);
        proof {
            assert(sv.take(k as int + 1).drop_last() =~= sv.take(k as int));
            assert(sv.take(k as int + 1).last() == sh);
            assert(product_list(sv.take(k as int + 1), dim as int) == flat_lr(plist, sh, dim as int));
            lemma_total_boxes_prefix(sv, k as int + 1);
            assert(total_boxes(sv.take(k as int + 1)) == total_boxes(sv.take(k as int)) + seq_sum(sh));
            lemma_total_boxes_nonneg(sv.take(k as int));
            lemma_seq_sum_nonneg(sh);
            lemma_product_list_boxes(sv.take(k as int), dim as int);
            assert forall|t: Seq<usize>| #[trigger] weighted_count(cur, sh, dim as int, t) == seq_count(
                flat_lr(plist, sh, dim as int),
                t,
            ) by {
                lemma_weighted_matches_flat(cur, plist, sh, dim as int, t);
            }
        }
        let mut next: Vec<(Vec<usize>, usize)> = Vec::new();
        assert(table_view(next@) =~= Seq::<(Seq<usize>, usize)>::empty());
        assert(cur.take(0) =~= Seq::<(Seq<usize>, usize)>::empty());
        let mut q: usize = 0;
        while q < current.len()
            invariant
                cur == table_view(current@),
                table_ok(cur),
                sh == shape@,
                q <= current.len(),
                positive_rows(shape@).len() <= 254,
                total_boxes(sv.take(k as int)) + seq_sum(sh) < usize::MAX,
                forall|j: int| 0 <= j < plist.len() ==> seq_sum(#[trigger] plist[j]) == total_boxes(sv.take(k as int)),
                forall|t: Seq<usize>| #[trigger] pair_count(cur, t) == seq_count(plist, t),
                flat_lr(plist, sh, dim as int).len() <= usize::MAX,
                forall|t: Seq<usize>| #[trigger] weighted_count(cur, sh, dim as int, t) == seq_count(
                    flat_lr(plist, sh, dim as int),
                    t,
                ),
                table_ok(table_view(next@)),
                forall|t: Seq<usize>|
                    #[trigger] pair_count(table_view(next@), t) == weighted_count(
                        cur.take(q as int),
                        sh,
                        dim as int,
                        t,
                    ),
            decreases current.len() - q,
        {
            let lm = current[q].1;
            let ghost left = cur[q as int].0;
            assert(current@[q as int].0@ == left);
            proof {
                lemma_pair_count_entry(cur, q as int);
                assert(seq_count(plist, left) > 0);
                lemma_seq_count_pos_contains(plist, left);
                let j = choose|j: int| 0 <= j < plist.len() && plist[j] == left;
                assert(seq_sum(plist[j]) == total_boxes(sv.take(k as int)));
                lemma_flat_lr_contains_len(plist, sh, dim as int, j);
            }
            let lr = littlewood_richardson(&current[q].0, shape, dim);
            let ghost lv = table_view(lr@);
            let ghost base = table_view(next@);
            assert(cur.take(q as int + 1).drop_last() =~= cur.take(q as int));
            assert(cur.take(q as int + 1).last() == cur[q as int]);
            assert(lv.take(0) =~= Seq::<(Seq<usize>, usize)>::empty());
            assert forall|t: Seq<usize>|
                #[trigger] pair_count(table_view(next@), t) == pair_count(base, t) + lm as nat
                    * pair_count(lv.take(0), t) by {
                assert(pair_count(lv.take(0), t) == 0);
            }
            let mut r: usize = 0;
            while r < lr.len()
                invariant
                    lv == table_view(lr@),
                    table_ok(lv),
                    forall|t: Seq<usize>| #[trigger] pair_count(lv, t) == seq_count(lr_outcomes(left, sh, dim as int), t),
                    r <= lr.len(),
                    lm > 0,
                    lm == cur[q as int].1,
                    left == cur[q as int].0,
                    q < cur.len(),
                    cur == table_view(current@),
                    forall|t: Seq<usize>| #[trigger] pair_count(base, t) == weighted_count(
                        cur.take(q as int),
                        sh,
                        dim as int,
                        t,
                    ),
                    forall|t: Seq<usize>| #[trigger] weighted_count(cur, sh, dim as int, t) == seq_count(
                        flat_lr(plist, sh, dim as int),
                        t,
                    ),
                    flat_lr(plist, sh, dim as int).len() <= usize::MAX,
                    cur.take(q as int + 1).drop_last() == cur.take(q as int),
                    cur.take(q as int + 1).last() == cur[q as int],
                    table_ok(table_view(next@)),
                    forall|t: Seq<usize>|
                        #[trigger] pair_count(table_view(next@), t) == pair_count(base, t) + lm as nat
                            * pair_count(lv.take(r as int), t),
                decreases lr.len() - r,
            {
                let rm = lr[r].1;
                let ghost right = lv[r as int].0;
                let key = copy_rows(&lr[r].0);
                assert(lv.take(r as int + 1) =~= lv.take(r as int).push(lv[r as int]));
                proof {
                    lemma_pair_count_push(lv.take(r as int), lv[r as int], right);
                    lemma_pair_count_prefix(lv, r as int + 1, right);
                    lemma_weighted_prefix(cur, q as int + 1, sh, dim as int, right);
                    lemma_seq_count_le_len(flat_lr(plist, sh, dim as int), right);
                    let a = pair_count(lv.take(r as int), right) as int;
                    let b = pair_count(lv, right) as int;
                    let m = lm as int;
                    let rr = rm as int;
                    assert(a + rr <= b);
                    assert(m * (a + rr) <= m * b) by (nonlinear_arith)
                        requires a + rr <= b, m > 0;
                    assert(m * (a + rr) == m * a + m * rr) by (nonlinear_arith);
                    assert(m * rr > 0) by (nonlinear_arith) requires m > 0, rr > 0;
                }
                let amount = lm * rm;
                add_to_table(&mut next, key, amount);
                proof {
                    assert forall|t: Seq<usize>|
                        #[trigger] pair_count(table_view(next@), t) == pair_count(base, t) + lm as nat
                            * pair_count(lv.take(r as int + 1), t) by {
                        lemma_pair_count_push(lv.take(r as int), lv[r as int], t);
                        let a = pair_count(lv.take(r as int), t) as int;
                        let m = lm as int;
                        let rr = rm as int;
                        assert(m * (a + rr) == m * a + m * rr) by (nonlinear_arith);
                    }
                }
                r = r + 1;
            }
            proof {
                assert(lv.take(lv.len() as int) =~= lv);
            }
            q = q + 1;
        }
        proof {
            assert(cur.take(cur.len() as int) =~= cur);
        }
        current = next;
        k = k + 1;
    }
    proof {
        assert(sv.take(shapes@.len() as int) =~= sv);
    }
    sort_table_desc(&current)
}

} // verus!
