//! Young diagrams given as row lengths: normalising a shape, column heights,
//! the dimension bound, and the rows at which one more box may be added.
use vstd::prelude::*;
use vstd::relations::{sorted_by, total_ordering};

verus! {

/// Sum of the entries of a sequence of row lengths (the number of boxes).
pub open spec fn seq_sum(s: Seq<usize>) -> int
    decreases s.len(),
{
    if s.len() == 0 {
        0
    } else {
        seq_sum(s.drop_last()) + s.last()
    }
}

/// The order "at least as long", used to sort rows longest first.
pub open spec fn row_ge(a: usize, b: usize) -> bool {
    a >= b
}

/// Rows of a diagram: the nonzero entries of `shape`, in their given order.
pub open spec fn positive_rows(shape: Seq<usize>) -> Seq<usize>
    decreases shape.len(),
{
    if shape.len() == 0 {
        Seq::empty()
    } else if shape.last() > 0 {
        positive_rows(shape.drop_last()).push(shape.last())
    } else {
        positive_rows(shape.drop_last())
    }
}

/// The normal form of a diagram: its nonzero rows, longest first.
pub open spec fn normal_shape(shape: Seq<usize>) -> Seq<usize> {
    positive_rows(shape).sort_by(|a: usize, b: usize| row_ge(a, b))
}

/// Diagrams given as executable rows, seen as sequences.
pub open spec fn shapes_view(shapes: Seq<Vec<usize>>) -> Seq<Seq<usize>> {
    shapes.map_values(|v: Vec<usize>| v@)
}

/// A partition: positive rows that never grow from top to bottom.
pub open spec fn is_partition(shape: Seq<usize>) -> bool {
    &&& forall|i: int| 0 <= i < shape.len() ==> shape[i] > 0
    &&& forall|i: int, j: int| 0 <= i <= j < shape.len() ==> shape[i] >= shape[j]
}

/// Number of rows of `shape` that are longer than `col`: the height of column `col`.
pub open spec fn column_height(shape: Seq<usize>, col: int) -> nat
    decreases shape.len(),
{
    if shape.len() == 0 {
        0
    } else {
        column_height(shape.drop_last(), col) + if shape.last() > col {
            1nat
        } else {
            0nat
        }
    }
}

/// Every column up to the length of the first row is at most `dim` boxes high.
pub open spec fn fits_dim(shape: Seq<usize>, dim: int) -> bool {
    let width = if shape.len() == 0 {
        0
    } else {
        shape[0] as int
    };
    forall|col: int| 0 <= col < width ==> #[trigger] column_height(shape, col) <= dim
}

/// `shape` with one more box at the end of row `row` (a new row when `row == shape.len()`).
pub open spec fn with_cell(shape: Seq<usize>, row: int) -> Seq<usize> {
    if row == shape.len() {
        shape.push(1)
    } else {
        shape.update(row, (shape[row] + 1) as usize)
    }
}

/// The column of the box that `with_cell(shape, row)` adds.
pub open spec fn cell_column(shape: Seq<usize>, row: int) -> usize {
    if row == shape.len() {
        0
    } else {
        shape[row]
    }
}

/// Length of row `row`, zero past the last row.
pub open spec fn row_len(shape: Seq<usize>, row: int) -> int {
    if 0 <= row < shape.len() {
        shape[row] as int
    } else {
        0
    }
}

/// A box may be added at the end of `row`: the row above is strictly longer
/// (or `row` is the top row), and the grown diagram still fits `dim`.
pub open spec fn addable(shape: Seq<usize>, dim: int, row: int) -> bool {
    &&& 0 <= row <= shape.len()
    &&& (row == 0 || shape[row - 1] > row_len(shape, row))
    &&& fits_dim(with_cell(shape, row), dim)
}

/// The rows `0 .. n` at which a box may be added, in increasing order.
pub open spec fn addable_upto(shape: Seq<usize>, dim: int, n: int) -> Seq<usize>
    decreases n,
{
    if n <= 0 {
        Seq::empty()
    } else if addable(shape, dim, n - 1) {
        addable_upto(shape, dim, n - 1).push((n - 1) as usize)
    } else {
        addable_upto(shape, dim, n - 1)
    }
}

/// All rows at which a box may be added, top to bottom.
pub open spec fn addable_rows_of(shape: Seq<usize>, dim: int) -> Seq<usize> {
    addable_upto(shape, dim, shape.len() + 1int)
}

pub proof fn lemma_row_ge_total()
    ensures
        total_ordering(|a: usize, b: usize| row_ge(a, b)),
{
}

proof fn lemma_positive_rows_positive(shape: Seq<usize>)
    ensures
        forall|i: int| 0 <= i < positive_rows(shape).len() ==> positive_rows(shape)[i] > 0,
        positive_rows(shape).len() <= shape.len(),
    decreases shape.len(),
{
    if shape.len() > 0 {
        lemma_positive_rows_positive(shape.drop_last());
    }
}

/// The normal form is a partition, and normalising a partition changes nothing.
pub proof fn lemma_normal_shape_props(shape: Seq<usize>)
    ensures
        is_partition(normal_shape(shape)),
        normal_shape(shape).len() == positive_rows(shape).len(),
        normal_shape(shape).to_multiset() == positive_rows(shape).to_multiset(),
{
    let leq = |a: usize, b: usize| row_ge(a, b);
    lemma_row_ge_total();
    positive_rows(shape).lemma_sort_by_ensures(leq);
    lemma_positive_rows_positive(shape);
    let n = normal_shape(shape);
    let p = positive_rows(shape);
    assert forall|i: int| 0 <= i < n.len() implies n[i] > 0 by {
        broadcast use vstd::seq_lib::group_to_multiset_ensures;

        assert(n.contains(n[i]));
        assert(n.to_multiset().count(n[i]) > 0);
        assert(p.to_multiset().count(n[i]) > 0);
        assert(p.contains(n[i]));
    }
    assert forall|i: int, j: int| 0 <= i <= j < n.len() implies n[i] >= n[j] by {
        if i < j {
            assert(leq(n[i], n[j]));
        }
    }
    broadcast use vstd::seq_lib::group_to_multiset_ensures;

    assert(n.len() == n.to_multiset().len());
    assert(p.len() == p.to_multiset().len());
}

proof fn lemma_positive_rows_of_partition(shape: Seq<usize>)
    requires
        forall|i: int| 0 <= i < shape.len() ==> shape[i] > 0,
    ensures
        positive_rows(shape) == shape,
    decreases shape.len(),
{
    if shape.len() > 0 {
        lemma_positive_rows_of_partition(shape.drop_last());
        assert(shape.drop_last().push(shape.last()) =~= shape);
    }
}

/// Normalising is idempotent: a partition is its own normal form.
pub proof fn lemma_normal_shape_of_partition(shape: Seq<usize>)
    requires
        is_partition(shape),
    ensures
        normal_shape(shape) == shape,
{
    let leq = |a: usize, b: usize| row_ge(a, b);
    lemma_row_ge_total();
    lemma_positive_rows_of_partition(shape);
    lemma_normal_shape_props(shape);
    assert(sorted_by(shape, leq));
    vstd::seq_lib::lemma_sorted_unique(normal_shape(shape), shape, leq);
}

/// Inserts `x` into `out` (kept longest first) before the first shorter row.
fn insert_row_sorted(out: &mut Vec<usize>, x: usize)
    requires
        forall|i: int, j: int| 0 <= i <= j < old(out).len() ==> old(out)[i] >= old(out)[j],
    ensures
        forall|i: int, j: int| 0 <= i <= j < final(out).len() ==> final(out)[i] >= final(out)[j],
        final(out)@.to_multiset() == old(out)@.to_multiset().insert(x),
        final(out)@.len() == old(out)@.len() + 1,
        forall|i: int| 0 <= i < final(out).len() ==> (final(out)[i] == x || old(out)@.contains(
            #[trigger] final(out)[i],
        )),
{
    let mut pos: usize = 0;
    while pos < out.len() && out[pos] >= x
        invariant
            pos <= out.len(),
            forall|k: int| 0 <= k < pos ==> out[k] >= x,
        decreases out.len() - pos,
    {
        pos = pos + 1;
    }
    let ghost before = out@;
    out.insert(pos, x);
    proof {
        vstd::seq_lib::to_multiset_insert(before, pos as int, x);
        assert forall|i: int, j: int| 0 <= i <= j < out.len() implies out[i] >= out[j] by {
            if i < pos && j < pos {
            } else if i < pos && j == pos {
            } else if i < pos && j > pos {
                assert(out[j] == before[j - 1]);
            } else if i == pos && j == pos {
            } else if i == pos {
                assert(out[j] == before[j - 1]);
                assert(before[pos as int] < x);
            } else {
                assert(out[j] == before[j - 1]);
                assert(out[i] == before[i - 1]);
            }
        }
        assert forall|i: int| 0 <= i < out.len() implies (out[i] == x || before.contains(
            #[trigger] out[i],
        )) by {
            if i < pos {
                assert(out[i] == before[i]);
            } else if i > pos {
                assert(out[i] == before[i - 1]);
            }
        }
    }
}

/// The normal form of a diagram: zero rows dropped, rows sorted longest first.
pub fn normalize_shape(shape: &[usize]) -> (out: Vec<usize>)
    ensures
        out@ == normal_shape(shape@),
        is_partition(out@),
{
    let mut out: Vec<usize> = Vec::new();
    let mut i: usize = 0;
    while i < shape.len()
        invariant
            i <= shape.len(),
            forall|a: int, b: int| 0 <= a <= b < out.len() ==> out[a] >= out[b],
            forall|a: int| 0 <= a < out.len() ==> out[a] > 0,
            out@.to_multiset() == positive_rows(shape@.take(i as int)).to_multiset(),
        decreases shape.len() - i,
    {
        let x = shape[i];
        assert(shape@.take(i as int + 1).drop_last() =~= shape@.take(i as int));
        if x > 0 {
            insert_row_sorted(&mut out, x);
            proof {
                vstd::seq_lib::lemma_multiset_commutative(
                    positive_rows(shape@.take(i as int)),
                    seq![x],
                );
                assert(positive_rows(shape@.take(i as int)).push(x) =~= positive_rows(
                    shape@.take(i as int),
                ) + seq![x]);
                broadcast use vstd::seq_lib::group_to_multiset_ensures;

            }
        }
        i = i + 1;
    }
    proof {
        assert(shape@.take(shape@.len() as int) =~= shape@);
        let leq = |a: usize, b: usize| row_ge(a, b);
        lemma_row_ge_total();
        lemma_normal_shape_props(shape@);
        assert(sorted_by(out@, leq));
        vstd::seq_lib::lemma_sorted_unique(out@, normal_shape(shape@), leq);
    }
    out
}

/// Height of column `col`: the number of rows longer than `col`.
pub fn shape_column_height(shape: &[usize], col: usize) -> (h: usize)
    ensures
        h == column_height(shape@, col as int),
{
    let mut h: usize = 0;
    let mut i: usize = 0;
    while i < shape.len()
        invariant
            i <= shape.len(),
            h == column_height(shape@.take(i as int), col as int),
            h <= i,
        decreases shape.len() - i,
    {
        assert(shape@.take(i as int + 1).drop_last() =~= shape@.take(i as int));
        if shape[i] > col {
            h = h + 1;
        }
        i = i + 1;
    }
    assert(shape@.take(shape@.len() as int) =~= shape@);
    h
}

/// Whether every column under the first row is at most `dim` boxes high.
pub fn shape_fits_dim(shape: &[usize], dim: usize) -> (b: bool)
    ensures
        b == fits_dim(shape@, dim as int),
{
    let width = if shape.len() == 0 {
        0
    } else {
        shape[0]
    };
    let mut col: usize = 0;
    while col < width
        invariant
            col <= width,
            width == (if shape@.len() == 0 {
                0
            } else {
                shape@[0] as int
            }),
            forall|c: int| 0 <= c < col ==> #[trigger] column_height(shape@, c) <= dim,
        decreases width - col,
    {
        if shape_column_height(shape, col) > dim {
            return false;
        }
        col = col + 1;
    }
    true
}

/// Copies a sequence of row lengths.
pub(crate) fn copy_rows(v: &[usize]) -> (out: Vec<usize>)
    ensures
        out@ == v@,
{
    let mut out: Vec<usize> = Vec::new();
    let mut i: usize = 0;
    while i < v.len()
        invariant
            i <= v.len(),
            out@ == v@.take(i as int),
        decreases v.len() - i,
    {
        out.push(v[i]);
        assert(v@.take(i as int + 1) =~= v@.take(i as int).push(v[i as int]));
        i = i + 1;
    }
    assert(v@.take(v@.len() as int) =~= v@);
    out
}

/// Adds a box at the end of row `row`; returns the grown diagram and the box's column.
pub fn add_cell(shape: &[usize], row: usize) -> (res: (Vec<usize>, usize))
    requires
        row <= shape.len(),
        row < shape.len() ==> shape[row as int] < usize::MAX,
    ensures
        res.0@ == with_cell(shape@, row as int),
        res.1 == cell_column(shape@, row as int),
{
    let mut out = copy_rows(shape);
    let col;
    if row == out.len() {
        out.push(1);
        col = 0;
    } else {
        col = out[row];
        out.set(row, out[row] + 1);
    }
    (out, col)
}

/// The rows, top to bottom, at which one more box keeps the diagram a
/// diagram (the row above is strictly longer) that fits `dim`.
pub fn addable_rows(shape: &[usize], dim: usize) -> (rows: Vec<usize>)
    requires
        shape.len() < usize::MAX,
        forall|i: int| 0 <= i < shape.len() ==> shape[i] < usize::MAX,
    ensures
        rows@ == addable_rows_of(shape@, dim as int),
{
    let mut rows: Vec<usize> = Vec::new();
    let mut row: usize = 0;
    while row <= shape.len()
        invariant
            row <= shape.len() + 1,
            shape.len() < usize::MAX,
            forall|i: int| 0 <= i < shape.len() ==> shape[i] < usize::MAX,
            rows@ == addable_upto(shape@, dim as int, row as int),
        decreases shape.len() + 1 - row,
    {
        let row_length = if row < shape.len() {
            shape[row]
        } else {
            0
        };
        let blocked = row > 0 && shape[row - 1] <= row_length;
        if !blocked {
            let (trial, _col) = add_cell(shape, row);
            if shape_fits_dim(&trial, dim) {
                rows.push(row);
            }
        }
        row = row + 1;
    }
    rows
}

proof fn lemma_seq_sum_remove(s: Seq<usize>, j: int)
    requires
        0 <= j < s.len(),
    ensures
        seq_sum(s) == seq_sum(s.remove(j)) + s[j],
    decreases s.len(),
{
    if j == s.len() - 1 {
        assert(s.remove(j) =~= s.drop_last());
    } else {
        assert(s.remove(j).drop_last() =~= s.drop_last().remove(j));
        assert(s.remove(j).last() == s.last());
        lemma_seq_sum_remove(s.drop_last(), j);
    }
}

/// Reordering rows does not change the number of boxes.
pub proof fn lemma_seq_sum_permutation(x: Seq<usize>, y: Seq<usize>)
    requires
        x.to_multiset() == y.to_multiset(),
    ensures
        seq_sum(x) == seq_sum(y),
    decreases x.len(),
{
    broadcast use vstd::seq_lib::group_to_multiset_ensures;

    if x.len() == 0 {
        assert(y.to_multiset().len() == 0);
        assert(y.len() == 0);
        assert(y =~= x);
    } else {
        let v = x.last();
        assert(x.to_multiset().count(v) > 0) by {
            assert(x.contains(v)) by {
                assert(x[x.len() - 1] == v);
            }
        }
        assert(y.contains(v));
        let j = choose|j: int| 0 <= j < y.len() && y[j] == v;
        vstd::seq_lib::to_multiset_remove(y, j);
        assert(x =~= x.drop_last().push(v));
        assert(x.drop_last().to_multiset() == x.to_multiset().remove(v));
        lemma_seq_sum_permutation(x.drop_last(), y.remove(j));
        lemma_seq_sum_remove(y, j);
    }
}

proof fn lemma_positive_rows_sum(shape: Seq<usize>)
    ensures
        seq_sum(positive_rows(shape)) == seq_sum(shape),
        positive_rows(shape).len() <= seq_sum(shape),
    decreases shape.len(),
{
    if shape.len() > 0 {
        lemma_positive_rows_sum(shape.drop_last());
        if shape.last() > 0 {
            assert(positive_rows(shape).drop_last() =~= positive_rows(shape.drop_last()));
        }
    }
}

proof fn lemma_entry_le_sum(s: Seq<usize>, i: int)
    requires
        0 <= i < s.len(),
    ensures
        s[i] <= seq_sum(s),
    decreases s.len(),
{
    if i < s.len() - 1 {
        lemma_entry_le_sum(s.drop_last(), i);
    }
    lemma_seq_sum_nonneg_shape(s.drop_last());
}

proof fn lemma_seq_sum_nonneg_shape(s: Seq<usize>)
    ensures
        seq_sum(s) >= 0,
    decreases s.len(),
{
    if s.len() > 0 {
        lemma_seq_sum_nonneg_shape(s.drop_last());
    }
}

/// The normal form keeps the boxes: same total, at most one row per box,
/// and no row longer than the total.
pub proof fn lemma_normal_shape_size(shape: Seq<usize>)
    ensures
        seq_sum(normal_shape(shape)) == seq_sum(shape),
        normal_shape(shape).len() <= seq_sum(shape),
        forall|i: int| 0 <= i < normal_shape(shape).len() ==> normal_shape(shape)[i] <= seq_sum(shape),
{
    lemma_normal_shape_props(shape);
    lemma_positive_rows_sum(shape);
    lemma_seq_sum_permutation(normal_shape(shape), positive_rows(shape));
    assert forall|i: int| 0 <= i < normal_shape(shape).len() implies normal_shape(shape)[i] <= seq_sum(shape) by {
        lemma_entry_le_sum(normal_shape(shape), i);
    }
}

} // verus!
