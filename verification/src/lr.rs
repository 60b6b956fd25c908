//! Products of Young diagrams by filling boxes row by row under the
//! lattice-word rule (the Littlewood-Richardson construction), and tables of
//! diagrams with multiplicities.
use vstd::prelude::*;
use crate::lattice::{Cell, insert_pos, label_count, lattice_ok, lr_lattice_word_ok, max_label, reading_word, reads_before};
use crate::shape::{lemma_normal_shape_props, lemma_normal_shape_size, positive_rows, normalize_shape, row_len, seq_sum, shape_fits_dim, add_cell, addable, addable_rows, addable_rows_of, addable_upto, cell_column, column_height, copy_rows, fits_dim, is_partition, lemma_normal_shape_of_partition, normal_shape, with_cell};

verus! {

/// A diagram reached while filling, with the labelled boxes placed so far.
pub type Fill = (Seq<usize>, Seq<Cell>);

/// The executable fills seen as mathematical values.
pub open spec fn fills_view(s: Seq<(Vec<usize>, Vec<Cell>)>) -> Seq<Fill> {
    s.map_values(|p: (Vec<usize>, Vec<Cell>)| (p.0@, p.1@))
}

/// A table of diagrams with multiplicities seen as mathematical values.
pub open spec fn table_view(s: Seq<(Vec<usize>, usize)>) -> Seq<(Seq<usize>, usize)> {
    s.map_values(|p: (Vec<usize>, usize)| (p.0@, p.1))
}

/// Every way, in order, of adding `k` boxes labelled `label` to `shape`, one at
/// a time: each box at an addable row, no two in the same column (nor in a
/// column of `used`), the placed boxes forming a lattice word after each step.
pub open spec fn place_row_spec(
    shape: Seq<usize>,
    k: nat,
    label: u8,
    dim: int,
    used: Seq<usize>,
    cells: Seq<Cell>,
) -> Seq<Fill>
    decreases k, 1nat, 0nat,
{
    if k == 0 {
        if lattice_ok(cells) {
            seq![(shape, cells)]
        } else {
            Seq::empty()
        }
    } else {
        place_row_options(shape, addable_rows_of(shape, dim), k, label, dim, used, cells)
    }
}

/// The fills of `place_row_spec` whose first box goes to one of `rows`, in
/// the order of `rows`.
pub open spec fn place_row_options(
    shape: Seq<usize>,
    rows: Seq<usize>,
    k: nat,
    label: u8,
    dim: int,
    used: Seq<usize>,
    cells: Seq<Cell>,
) -> Seq<Fill>
    decreases k, 0nat, rows.len(),
{
    if rows.len() == 0 || k == 0 {
        Seq::empty()
    } else {
        let prev = place_row_options(shape, rows.drop_last(), k, label, dim, used, cells);
        let r = rows.last() as int;
        let col = cell_column(shape, r);
        if used.contains(col) {
            prev
        } else {
            let c2 = cells.push((r as usize, col, label));
            if lattice_ok(c2) {
                prev + place_row_spec(
                    with_cell(shape, r),
                    (k - 1) as nat,
                    label,
                    dim,
                    used.push(col),
                    c2,
                )
            } else {
                prev
            }
        }
    }
}

/// The normalised diagrams reached by filling row after row of `rows`
/// (labels `label`, `label + 1`, ...), one entry per complete filling that
/// fits `dim` and reads as a lattice word.
pub open spec fn decompose_outcomes(
    shape: Seq<usize>,
    rows: Seq<usize>,
    cells: Seq<Cell>,
    label: int,
    dim: int,
) -> Seq<Seq<usize>>
    decreases rows.len(), 1nat, 0nat,
{
    if rows.len() == 0 {
        if fits_dim(shape, dim) && lattice_ok(cells) {
            seq![normal_shape(shape)]
        } else {
            Seq::empty()
        }
    } else {
        decompose_over(
            place_row_spec(shape, rows[0] as nat, label as u8, dim, Seq::empty(), cells),
            rows.drop_first(),
            label + 1,
            dim,
        )
    }
}

/// `decompose_outcomes` continued from each fill in turn.
pub open spec fn decompose_over(fills: Seq<Fill>, rows: Seq<usize>, label: int, dim: int) -> Seq<
    Seq<usize>,
>
    decreases rows.len() + 1, 0nat, fills.len(),
{
    if fills.len() == 0 {
        Seq::empty()
    } else {
        decompose_over(fills.drop_last(), rows, label, dim) + decompose_outcomes(
            fills.last().0,
            rows,
            fills.last().1,
            label,
            dim,
        )
    }
}

/// The boxes of the first row labelled by `labels`, column by column.
pub open spec fn cells_from_labels(labels: Seq<u8>) -> Seq<Cell> {
    Seq::new(labels.len(), |i: int| (0usize, i as usize, labels[i]))
}

/// All outcomes of the product of diagrams `a` and `b` within dimension `dim`:
/// none when either normalised diagram does not fit, else one normalised
/// diagram per complete filling of `a` by the rows of `b`.
pub open spec fn lr_outcomes(a: Seq<usize>, b: Seq<usize>, dim: int) -> Seq<Seq<usize>> {
    if !fits_dim(normal_shape(a), dim) || !fits_dim(normal_shape(b), dim) {
        Seq::empty()
    } else {
        decompose_outcomes(normal_shape(a), normal_shape(b), Seq::empty(), 1, dim)
    }
}

/// How often `s` occurs in `list`.
pub open spec fn seq_count(list: Seq<Seq<usize>>, s: Seq<usize>) -> nat
    decreases list.len(),
{
    if list.len() == 0 {
        0
    } else {
        seq_count(list.drop_last(), s) + if list.last() == s {
            1nat
        } else {
            0nat
        }
    }
}

/// The multiplicity that a table gives to `s` (summed over its entries for `s`).
pub open spec fn pair_count(pairs: Seq<(Seq<usize>, usize)>, s: Seq<usize>) -> nat
    decreases pairs.len(),
{
    if pairs.len() == 0 {
        0
    } else {
        pair_count(pairs.drop_last(), s) + if pairs.last().0 == s {
            pairs.last().1 as nat
        } else {
            0nat
        }
    }
}

/// No diagram has two entries in the table.
pub open spec fn keys_unique(pairs: Seq<(Seq<usize>, usize)>) -> bool {
    forall|i: int, j: int| 0 <= i < j < pairs.len() ==> pairs[i].0 != pairs[j].0
}

/// Every entry of the table has a positive multiplicity.
pub open spec fn counts_positive(pairs: Seq<(Seq<usize>, usize)>) -> bool {
    forall|i: int| 0 <= i < pairs.len() ==> pairs[i].1 > 0
}

/// A well-formed table: unique diagrams, positive multiplicities.
pub open spec fn table_ok(pairs: Seq<(Seq<usize>, usize)>) -> bool {
    keys_unique(pairs) && counts_positive(pairs)
}

/// Strict lexicographic order of row sequences (a proper prefix is smaller).
pub open spec fn lex_lt(a: Seq<usize>, b: Seq<usize>) -> bool
    decreases a.len(),
{
    if a.len() == 0 {
        b.len() > 0
    } else if b.len() == 0 {
        false
    } else if a[0] < b[0] {
        true
    } else if a[0] == b[0] {
        lex_lt(a.drop_first(), b.drop_first())
    } else {
        false
    }
}

/// Entries strictly decreasing by diagram, lexicographically.
pub open spec fn sorted_desc(pairs: Seq<(Seq<usize>, usize)>) -> bool {
    forall|i: int, j: int| 0 <= i < j < pairs.len() ==> lex_lt(pairs[j].0, pairs[i].0)
}

// ---------------------------------------------------------------------------
// Lemmas on counting tables
// ---------------------------------------------------------------------------
pub proof fn lemma_pair_count_push(p: Seq<(Seq<usize>, usize)>, x: (Seq<usize>, usize), s: Seq<usize>)
    ensures
        pair_count(p.push(x), s) == pair_count(p, s) + if x.0 == s {
            x.1 as nat
        } else {
            0nat
        },
{
    assert(p.push(x).drop_last() =~= p);
}

pub proof fn lemma_pair_count_absent(p: Seq<(Seq<usize>, usize)>, s: Seq<usize>)
    requires
        forall|i: int| 0 <= i < p.len() ==> p[i].0 != s,
    ensures
        pair_count(p, s) == 0,
    decreases p.len(),
{
    if p.len() > 0 {
        lemma_pair_count_absent(p.drop_last(), s);
    }
}

pub proof fn lemma_pair_count_update(
    p: Seq<(Seq<usize>, usize)>,
    i: int,
    v: usize,
    s: Seq<usize>,
)
    requires
        0 <= i < p.len(),
    ensures
        pair_count(p.update(i, (p[i].0, v)), s) + (if p[i].0 == s {
            p[i].1 as int
        } else {
            0
        }) == pair_count(p, s) + (if p[i].0 == s {
            v as int
        } else {
            0
        }),
    decreases p.len(),
{
    let q = p.update(i, (p[i].0, v));
    if i == p.len() - 1 {
        assert(q.drop_last() =~= p.drop_last());
    } else {
        assert(q.drop_last() =~= p.drop_last().update(i, (p[i].0, v)));
        lemma_pair_count_update(p.drop_last(), i, v, s);
    }
}

/// The table gives `s` exactly the multiplicity of its unique entry for `s`.
pub proof fn lemma_pair_count_entry(p: Seq<(Seq<usize>, usize)>, i: int)
    requires
        keys_unique(p),
        0 <= i < p.len(),
    ensures
        pair_count(p, p[i].0) == p[i].1,
    decreases p.len(),
{
    if i == p.len() - 1 {
        lemma_pair_count_absent(p.drop_last(), p[i].0);
    } else {
        lemma_pair_count_entry(p.drop_last(), i);
    }
}

pub proof fn lemma_pair_count_insert(
    p: Seq<(Seq<usize>, usize)>,
    k: int,
    x: (Seq<usize>, usize),
    s: Seq<usize>,
)
    requires
        0 <= k <= p.len(),
    ensures
        pair_count(p.insert(k, x), s) == pair_count(p, s) + if x.0 == s {
            x.1 as nat
        } else {
            0nat
        },
    decreases p.len(),
{
    if k == p.len() {
        assert(p.insert(k, x) =~= p.push(x));
        lemma_pair_count_push(p, x, s);
    } else {
        assert(p.insert(k, x).drop_last() =~= p.drop_last().insert(k, x));
        lemma_pair_count_insert(p.drop_last(), k, x, s);
    }
}

pub proof fn lemma_seq_count_concat(a: Seq<Seq<usize>>, b: Seq<Seq<usize>>, s: Seq<usize>)
    ensures
        seq_count(a + b, s) == seq_count(a, s) + seq_count(b, s),
    decreases b.len(),
{
    if b.len() == 0 {
        assert(a + b =~= a);
    } else {
        assert((a + b).drop_last() =~= a + b.drop_last());
        lemma_seq_count_concat(a, b.drop_last(), s);
    }
}

pub proof fn lemma_seq_count_le_len(a: Seq<Seq<usize>>, s: Seq<usize>)
    ensures
        seq_count(a, s) <= a.len(),
    decreases a.len(),
{
    if a.len() > 0 {
        lemma_seq_count_le_len(a.drop_last(), s);
    }
}

// ---------------------------------------------------------------------------
// Lemmas on the lexicographic order
// ---------------------------------------------------------------------------
pub proof fn lemma_lex_irreflexive(a: Seq<usize>)
    ensures
        !lex_lt(a, a),
    decreases a.len(),
{
    if a.len() > 0 {
        lemma_lex_irreflexive(a.drop_first());
    }
}

pub proof fn lemma_lex_transitive(a: Seq<usize>, b: Seq<usize>, c: Seq<usize>)
    requires
        lex_lt(a, b),
        lex_lt(b, c),
    ensures
        lex_lt(a, c),
    decreases a.len(),
{
    if a.len() > 0 && b.len() > 0 && c.len() > 0 {
        if a[0] == b[0] && b[0] == c[0] {
            lemma_lex_transitive(a.drop_first(), b.drop_first(), c.drop_first());
        }
    }
}

pub proof fn lemma_lex_total(a: Seq<usize>, b: Seq<usize>)
    requires
        a != b,
    ensures
        lex_lt(a, b) || lex_lt(b, a),
    decreases a.len(),
{
    if a.len() > 0 && b.len() > 0 && a[0] == b[0] {
        if a.drop_first() == b.drop_first() {
            assert(a =~= seq![a[0]] + a.drop_first());
            assert(b =~= seq![b[0]] + b.drop_first());
        }
        lemma_lex_total(a.drop_first(), b.drop_first());
    } else if a.len() == 0 && b.len() == 0 {
        assert(a =~= b);
    }
}

pub proof fn lemma_lex_asymmetric(a: Seq<usize>, b: Seq<usize>)
    requires
        lex_lt(a, b),
    ensures
        !lex_lt(b, a),
{
    if lex_lt(b, a) {
        lemma_lex_transitive(a, b, a);
        lemma_lex_irreflexive(a);
    }
}

// ---------------------------------------------------------------------------
// Executable helpers
// ---------------------------------------------------------------------------
/// Whether `v` holds `x`.
pub(crate) fn contains_usize(v: &Vec<usize>, x: usize) -> (b: bool)
    ensures
        b == v@.contains(x),
{
    let mut i: usize = 0;
    while i < v.len()
        invariant
            i <= v.len(),
            forall|k: int| 0 <= k < i ==> v@[k] != x,
        decreases v.len() - i,
    {
        if v[i] == x {
            assert(v@[i as int] == x);
            return true;
        }
        i = i + 1;
    }
    false
}

/// Equality of two row sequences.
pub(crate) fn rows_equal(a: &Vec<usize>, b: &Vec<usize>) -> (r: bool)
    ensures
        r == (a@ == b@),
{
    if a.len() != b.len() {
        return false;
    }
    let mut i: usize = 0;
    while i < a.len()
        invariant
            a.len() == b.len(),
            i <= a.len(),
            forall|k: int| 0 <= k < i ==> a@[k] == b@[k],
        decreases a.len() - i,
    {
        if a[i] != b[i] {
            return false;
        }
        i = i + 1;
    }
    assert(a@ =~= b@);
    true
}

/// Strict lexicographic comparison of two row sequences.
pub(crate) fn rows_lex_less(a: &Vec<usize>, b: &Vec<usize>) -> (r: bool)
    ensures
        r == lex_lt(a@, b@),
{
    let mut i: usize = 0;
    assert(a@.skip(0) =~= a@);
    assert(b@.skip(0) =~= b@);
    while i < a.len() && i < b.len() && a[i] == b[i]
        invariant
            i <= a.len(),
            i <= b.len(),
            lex_lt(a@, b@) == lex_lt(a@.skip(i as int), b@.skip(i as int)),
        decreases a.len() - i,
    {
        assert(a@.skip(i as int).drop_first() =~= a@.skip(i as int + 1));
        assert(b@.skip(i as int).drop_first() =~= b@.skip(i as int + 1));
        i = i + 1;
    }
    if i == a.len() {
        i < b.len()
    } else if i == b.len() {
        false
    } else {
        a[i] < b[i]
    }
}

/// Copies a list of labelled boxes.
fn copy_cells(v: &Vec<Cell>) -> (out: Vec<Cell>)
    ensures
        out@ == v@,
{
    let mut out: Vec<Cell> = Vec::new();
    let mut i: usize = 0;
    while i < v.len()
        invariant
            i <= v.len(),
            out@ == v@.take(i as int),
        decreases v.len() - i,
    {
        out.push(v[i]);
        assert(v@.take(i as int + 1) =~= v@.take(i as int).push(v@[i as int]));
        i = i + 1;
    }
    assert(v@.take(v@.len() as int) =~= v@);
    out
}

proof fn lemma_addable_upto_members(shape: Seq<usize>, dim: int, n: int)
    requires
        n <= usize::MAX + 1,
    ensures
        forall|i: int|
            0 <= i < addable_upto(shape, dim, n).len() ==> addable(
                shape,
                dim,
                #[trigger] addable_upto(shape, dim, n)[i] as int,
            ),
    decreases n,
{
    if n > 0 {
        lemma_addable_upto_members(shape, dim, n - 1);
        let prev = addable_upto(shape, dim, n - 1);
        if addable(shape, dim, n - 1) {
            assert(addable_upto(shape, dim, n) == prev.push((n - 1) as usize));
            assert(((n - 1) as usize) as int == n - 1);
        }
    }
}

/// Every way of adding `cells_to_place` boxes labelled `label` to `shape` one
/// by one (see `place_row_spec`), appended to `out` in order.
pub fn place_lr_row(
    shape: &[usize],
    cells_to_place: usize,
    label: u8,
    dim: usize,
    used_columns: &mut Vec<usize>,
    placed_cells: &mut Vec<Cell>,
    out: &mut Vec<(Vec<usize>, Vec<Cell>)>,
)
    requires
        shape.len() + cells_to_place < usize::MAX,
        forall|i: int| 0 <= i < shape.len() ==> shape[i] + cells_to_place < usize::MAX,
    ensures
        final(used_columns)@ == old(used_columns)@,
        final(placed_cells)@ == old(placed_cells)@,
        fills_view(final(out)@) == fills_view(old(out)@) + place_row_spec(
            shape@,
            cells_to_place as nat,
            label,
            dim as int,
            old(used_columns)@,
            old(placed_cells)@,
        ),
    decreases cells_to_place,
{
    if cells_to_place == 0 {
        if lr_lattice_word_ok(placed_cells) {
            let s = copy_rows(shape);
            let c = copy_cells(placed_cells);
            let ghost before = out@;
            out.push((s, c));
            assert(fills_view(out@) =~= fills_view(before) + seq![(shape@, placed_cells@)]);
        } else {
            assert(fills_view(out@) =~= fills_view(out@) + Seq::<Fill>::empty());
        }
        return;
    }
    let rows = addable_rows(shape, dim);
    proof {
        lemma_addable_upto_members(shape@, dim as int, shape@.len() + 1int);
    }
    let ghost used0 = used_columns@;
    let ghost placed0 = placed_cells@;
    let ghost out0 = fills_view(out@);
    let mut idx: usize = 0;
    assert(fills_view(out@) =~= out0 + place_row_options(
        shape@,
        rows@.take(0),
        cells_to_place as nat,
        label,
        dim as int,
        used0,
        placed0,
    ));
    while idx < rows.len()
        invariant
            shape.len() + cells_to_place < usize::MAX,
            forall|i: int| 0 <= i < shape.len() ==> shape[i] + cells_to_place < usize::MAX,
            cells_to_place > 0,
            rows@ == addable_rows_of(shape@, dim as int),
            forall|i: int| 0 <= i < rows@.len() ==> addable(shape@, dim as int, #[trigger] rows@[i] as int),
            idx <= rows.len(),
            used_columns@ == used0,
            placed_cells@ == placed0,
            fills_view(out@) == out0 + place_row_options(
                shape@,
                rows@.take(idx as int),
                cells_to_place as nat,
                label,
                dim as int,
                used0,
                placed0,
            ),
        decreases rows.len() - idx,
    {
        let row = rows[idx];
        assert(addable(shape@, dim as int, rows@[idx as int] as int));
        let (next_shape, col) = add_cell(shape, row);
        assert(rows@.take(idx as int + 1).drop_last() =~= rows@.take(idx as int));
        assert(rows@.take(idx as int + 1).last() == row);
        let ghost opts = place_row_options(
            shape@,
            rows@.take(idx as int),
            cells_to_place as nat,
            label,
            dim as int,
            used0,
            placed0,
        );
        if !contains_usize(used_columns, col) {
            used_columns.push(col);
            placed_cells.push((row, col, label));
            if lr_lattice_word_ok(placed_cells) {
                let ghost mid = fills_view(out@);
                place_lr_row(
                    &next_shape,
                    cells_to_place - 1,
                    label,
                    dim,
                    used_columns,
                    placed_cells,
                    out,
                );
                assert(fills_view(out@) =~= out0 + (opts + place_row_spec(
                    with_cell(shape@, row as int),
                    (cells_to_place - 1) as nat,
                    label,
                    dim as int,
                    used0.push(col),
                    placed0.push((row, col, label)),
                )));
            }
            placed_cells.pop();
            used_columns.pop();
            assert(placed_cells@ =~= placed0);
            assert(used_columns@ =~= used0);
        }
        idx = idx + 1;
    }
    assert(rows@.take(rows@.len() as int) =~= rows@);
}

/// Adds one occurrence of diagram `s` to the table.
pub(crate) fn record_shape(results: &mut Vec<(Vec<usize>, usize)>, s: Vec<usize>)
    requires
        table_ok(table_view(old(results)@)),
        pair_count(table_view(old(results)@), s@) < usize::MAX,
    ensures
        table_ok(table_view(final(results)@)),
        forall|t: Seq<usize>|
            #[trigger] pair_count(table_view(final(results)@), t) == pair_count(
                table_view(old(results)@),
                t,
            ) + if t == s@ {
                1nat
            } else {
                0nat
            },
{
    let ghost p0 = table_view(results@);
    let mut i: usize = 0;
    while i < results.len()
        invariant
            i <= results.len(),
            p0 == table_view(results@),
            p0 == table_view(old(results)@),
            table_ok(p0),
            pair_count(p0, s@) < usize::MAX,
            forall|k: int| 0 <= k < i ==> p0[k].0 != s@,
        decreases results.len() - i,
    {
        if rows_equal(&results[i].0, &s) {
            proof {
                lemma_pair_count_entry(p0, i as int);
            }
            let count = results[i].1;
            let key = copy_rows(&results[i].0);
            results.set(i, (key, count + 1));
            proof {
                assert(table_view(results@) =~= p0.update(i as int, (p0[i as int].0, (count + 1) as usize)));
                assert forall|t: Seq<usize>|
                    #[trigger] pair_count(table_view(results@), t) == pair_count(p0, t) + if t
                        == s@ {
                        1nat
                    } else {
                        0nat
                    } by {
                    lemma_pair_count_update(p0, i as int, (count + 1) as usize, t);
                    assert(p0[i as int].0 == s@);
                    assert(p0[i as int].1 == count);
                }
            }
            return;
        }
        i = i + 1;
    }
    let ghost key = s@;
    results.push((s, 1));
    proof {
        assert(table_view(results@) =~= p0.push((key, 1usize)));
        assert forall|t: Seq<usize>|
            #[trigger] pair_count(table_view(results@), t) == pair_count(p0, t) + if t == key {
                1nat
            } else {
                0nat
            } by {
            lemma_pair_count_push(p0, (key, 1usize), t);
        }
    }
}

/// Row bound of a diagram grown by `k` boxes from `shape`.
pub open spec fn grown_within(shape: Seq<usize>, grown: Seq<usize>, k: int) -> bool {
    &&& grown.len() <= shape.len() + k
    &&& forall|i: int| 0 <= i < grown.len() ==> grown[i] <= row_len(shape, i) + k
}

pub proof fn lemma_place_row_bounds(
    shape: Seq<usize>,
    k: nat,
    label: u8,
    dim: int,
    used: Seq<usize>,
    cells: Seq<Cell>,
)
    ensures
        forall|j: int|
            0 <= j < place_row_spec(shape, k, label, dim, used, cells).len() ==> grown_within(
                shape,
                #[trigger] place_row_spec(shape, k, label, dim, used, cells)[j].0,
                k as int,
            ),
    decreases k, 1nat, 0nat,
{
    if k > 0 {
        lemma_addable_rows_le_len(shape, dim, shape.len() + 1int);
        lemma_place_options_bounds(shape, addable_rows_of(shape, dim), k, label, dim, used, cells);
        assert(place_row_spec(shape, k, label, dim, used, cells) == place_row_options(
            shape,
            addable_rows_of(shape, dim),
            k,
            label,
            dim,
            used,
            cells,
        ));
    } else {
        assert(grown_within(shape, shape, 0));
    }
}

pub proof fn lemma_place_options_bounds(
    shape: Seq<usize>,
    rows: Seq<usize>,
    k: nat,
    label: u8,
    dim: int,
    used: Seq<usize>,
    cells: Seq<Cell>,
)
    requires
        forall|i: int| 0 <= i < rows.len() ==> #[trigger] rows[i] <= shape.len(),
    ensures
        forall|j: int|
            0 <= j < place_row_options(shape, rows, k, label, dim, used, cells).len()
                ==> grown_within(
                shape,
                #[trigger] place_row_options(shape, rows, k, label, dim, used, cells)[j].0,
                k as int,
            ),
    decreases k, 0nat, rows.len(),
{
    if rows.len() > 0 && k > 0 {
        let prev = place_row_options(shape, rows.drop_last(), k, label, dim, used, cells);
        lemma_place_options_bounds(shape, rows.drop_last(), k, label, dim, used, cells);
        let r = rows.last() as int;
        let col = cell_column(shape, r);
        let ns = with_cell(shape, r);
        let c2 = cells.push((r as usize, col, label));
        if !used.contains(col) && lattice_ok(c2) {
            let sub = place_row_spec(ns, (k - 1) as nat, label, dim, used.push(col), c2);
            lemma_place_row_bounds(ns, (k - 1) as nat, label, dim, used.push(col), c2);
            let all = place_row_options(shape, rows, k, label, dim, used, cells);
            assert(all == prev + sub);
            assert forall|j: int| 0 <= j < all.len() implies grown_within(shape, #[trigger] all[j].0, k as int) by {
                if j >= prev.len() {
                    let g = sub[j - prev.len()].0;
                    assert(all[j] == sub[j - prev.len()]);
                    assert(grown_within(ns, g, k - 1));
                    assert forall|i: int| 0 <= i < g.len() implies g[i] <= row_len(shape, i) + k by {
                        assert(row_len(ns, i) <= row_len(shape, i) + 1);
                    }
                }
            }
        }
    }
}

pub proof fn lemma_addable_rows_le_len(shape: Seq<usize>, dim: int, n: int)
    requires
        n <= shape.len() + 1,
    ensures
        forall|i: int|
            0 <= i < addable_upto(shape, dim, n).len() ==> #[trigger] addable_upto(shape, dim, n)[i]
                <= shape.len(),
    decreases n,
{
    if n > 0 {
        lemma_addable_rows_le_len(shape, dim, n - 1);
        if addable(shape, dim, n - 1) {
            assert(addable_upto(shape, dim, n) == addable_upto(shape, dim, n - 1).push((n - 1) as usize));
            if n - 1 <= usize::MAX {
                assert(((n - 1) as usize) as int == n - 1);
            }
        }
    }
}

proof fn lemma_over_prefix_count(
    fills: Seq<Fill>,
    m: int,
    rows: Seq<usize>,
    label: int,
    dim: int,
    t: Seq<usize>,
)
    requires
        0 <= m <= fills.len(),
    ensures
        seq_count(decompose_over(fills.take(m), rows, label, dim), t) <= seq_count(
            decompose_over(fills, rows, label, dim),
            t,
        ),
    decreases fills.len(),
{
    if m == fills.len() {
        assert(fills.take(m) =~= fills);
    } else {
        assert(fills.drop_last().take(m) =~= fills.take(m));
        lemma_over_prefix_count(fills.drop_last(), m, rows, label, dim, t);
        lemma_seq_count_concat(
            decompose_over(fills.drop_last(), rows, label, dim),
            decompose_outcomes(fills.last().0, rows, fills.last().1, label, dim),
            t,
        );
    }
}

/// The rows of `rows` after the first.
fn tail_rows(rows: &[usize]) -> (out: Vec<usize>)
    requires
        rows.len() > 0,
    ensures
        out@ == rows@.drop_first(),
{
    let mut out: Vec<usize> = Vec::new();
    let mut i: usize = 1;
    while i < rows.len()
        invariant
            1 <= i <= rows.len(),
            out@ == rows@.subrange(1, i as int),
        decreases rows.len() - i,
    {
        out.push(rows[i]);
        assert(rows@.subrange(1, i as int + 1) =~= rows@.subrange(1, i as int).push(rows@[i as int]));
        i = i + 1;
    }
    assert(rows@.subrange(1, rows@.len() as int) =~= rows@.drop_first());
    out
}

/// Fills `current_shape` with the rows of `remaining_rows` (labels from
/// `current_label` on) in every admissible way, and counts each normalised
/// diagram reached into `results`.
fn lr_decompose_cells(
    current_shape: &[usize],
    remaining_rows: &[usize],
    placed_cells: &[Cell],
    current_label: u8,
    dim: usize,
    results: &mut Vec<(Vec<usize>, usize)>,
)
    requires
        table_ok(table_view(old(results)@)),
        forall|t: Seq<usize>|
            pair_count(table_view(old(results)@), t) + seq_count(
                #[trigger] decompose_outcomes(
                    current_shape@,
                    remaining_rows@,
                    placed_cells@,
                    current_label as int,
                    dim as int,
                ),
                t,
            ) <= usize::MAX,
        current_label as int + remaining_rows.len() <= 255,
        current_shape.len() + seq_sum(remaining_rows@) < usize::MAX,
        forall|i: int|
            0 <= i < current_shape.len() ==> current_shape[i] + seq_sum(remaining_rows@)
                < usize::MAX,
        forall|i: int| 0 <= i < remaining_rows.len() ==> remaining_rows[i] >= 0,
    ensures
        table_ok(table_view(final(results)@)),
        forall|t: Seq<usize>|
            #[trigger] pair_count(table_view(final(results)@), t) == pair_count(
                table_view(old(results)@),
                t,
            ) + seq_count(
                decompose_outcomes(
                    current_shape@,
                    remaining_rows@,
                    placed_cells@,
                    current_label as int,
                    dim as int,
                ),
                t,
            ),
    decreases remaining_rows.len(),
{
    let ghost outcomes = decompose_outcomes(
        current_shape@,
        remaining_rows@,
        placed_cells@,
        current_label as int,
        dim as int,
    );
    if remaining_rows.len() == 0 {
        if shape_fits_dim(current_shape, dim) && lr_lattice_word_ok(placed_cells) {
            let n = normalize_shape(current_shape);
            proof {
                assert(outcomes == seq![normal_shape(current_shape@)]);
                assert(seq_count(outcomes, n@) == 1) by {
                    assert(outcomes.drop_last() =~= Seq::<Seq<usize>>::empty());
                    assert(seq_count(outcomes.drop_last(), n@) == 0);
                    assert(outcomes.last() == n@);
                }
            }
            record_shape(results, n);
            proof {
                assert forall|t: Seq<usize>|
                    #[trigger] pair_count(table_view(results@), t) == pair_count(
                        table_view(old(results)@),
                        t,
                    ) + seq_count(outcomes, t) by {
                    assert(outcomes.drop_last() =~= Seq::<Seq<usize>>::empty());
                    assert(seq_count(outcomes.drop_last(), t) == 0);
                    assert(outcomes.last() == n@);
                }
            }
        } else {
            assert(outcomes =~= Seq::<Seq<usize>>::empty());
        }
        return;
    }
    let first = remaining_rows[0];
    let mut row_placements: Vec<(Vec<usize>, Vec<Cell>)> = Vec::new();
    let mut used: Vec<usize> = Vec::new();
    let mut cells: Vec<Cell> = Vec::new();
    let mut c: usize = 0;
    while c < placed_cells.len()
        invariant
            c <= placed_cells.len(),
            cells@ == placed_cells@.take(c as int),
        decreases placed_cells.len() - c,
    {
        cells.push(placed_cells[c]);
        assert(placed_cells@.take(c as int + 1) =~= placed_cells@.take(c as int).push(
            placed_cells@[c as int],
        ));
        c = c + 1;
    }
    assert(placed_cells@.take(placed_cells@.len() as int) =~= placed_cells@);
    proof {
        assert(remaining_rows@ =~= seq![first] + remaining_rows@.drop_first());
        assert(seq_sum(remaining_rows@) == first + seq_sum(remaining_rows@.drop_first())) by {
            lemma_seq_sum_first(remaining_rows@);
        }
        lemma_seq_sum_nonneg(remaining_rows@.drop_first());
    }
    assert(fills_view(row_placements@) =~= Seq::<Fill>::empty());
    place_lr_row(
        current_shape,
        first,
        current_label,
        dim,
        &mut used,
        &mut cells,
        &mut row_placements,
    );
    let ghost fills = place_row_spec(
        current_shape@,
        first as nat,
        current_label,
        dim as int,
        Seq::empty(),
        placed_cells@,
    );
    assert(fills_view(row_placements@) =~= fills);
    let rest = tail_rows(remaining_rows);
    let next_label: u8 = current_label + 1;
    proof {
        lemma_place_row_bounds(
            current_shape@,
            first as nat,
            current_label,
            dim as int,
            Seq::empty(),
            placed_cells@,
        );
        assert(outcomes == decompose_over(fills, rest@, next_label as int, dim as int));
    }
    let ghost r0 = table_view(results@);
    let mut j: usize = 0;
    assert(fills.take(0) =~= Seq::<Fill>::empty());
    while j < row_placements.len()
        invariant
            j <= row_placements.len(),
            fills_view(row_placements@) == fills,
            outcomes == decompose_over(fills, rest@, next_label as int, dim as int),
            remaining_rows.len() > 0,
            rest@ == remaining_rows@.drop_first(),
            next_label as int + rest@.len() <= 255,
            seq_sum(remaining_rows@) == first + seq_sum(rest@),
            current_shape.len() + seq_sum(remaining_rows@) < usize::MAX,
            forall|i: int|
                0 <= i < current_shape.len() ==> current_shape[i] + seq_sum(remaining_rows@)
                    < usize::MAX,
            forall|q: int| 0 <= q < fills.len() ==> grown_within(current_shape@, #[trigger] fills[q].0, first as int),
            table_ok(table_view(results@)),
            forall|t: Seq<usize>| #[trigger] pair_count(r0, t) + seq_count(outcomes, t) <= usize::MAX,
            forall|t: Seq<usize>|
                #[trigger] pair_count(table_view(results@), t) == pair_count(r0, t) + seq_count(
                    decompose_over(fills.take(j as int), rest@, next_label as int, dim as int),
                    t,
                ),
        decreases row_placements.len() - j,
    {
        let ghost f = fills[j as int];
        assert(row_placements@[j as int].0@ == f.0);
        assert(row_placements@[j as int].1@ == f.1);
        assert(fills.take(j as int + 1).drop_last() =~= fills.take(j as int));
        assert(fills.take(j as int + 1).last() == f);
        proof {
            assert forall|t: Seq<usize>|
                pair_count(table_view(results@), t) + seq_count(
                    #[trigger] decompose_outcomes(f.0, rest@, f.1, next_label as int, dim as int),
                    t,
                ) <= usize::MAX by {
                lemma_over_prefix_count(fills, j as int + 1, rest@, next_label as int, dim as int, t);
                lemma_seq_count_concat(
                    decompose_over(fills.take(j as int), rest@, next_label as int, dim as int),
                    decompose_outcomes(f.0, rest@, f.1, next_label as int, dim as int),
                    t,
                );
            }
            assert(grown_within(current_shape@, f.0, first as int));
            assert forall|i: int| 0 <= i < f.0.len() implies f.0[i] + seq_sum(rest@) < usize::MAX by {
                if i < current_shape.len() {
                    assert(current_shape@[i] + seq_sum(remaining_rows@) < usize::MAX);
                }
            }
        }
        lr_decompose_cells(
            &row_placements[j].0,
            &rest,
            &row_placements[j].1,
            next_label,
            dim,
            results,
        );
        proof {
            assert forall|t: Seq<usize>|
                #[trigger] pair_count(table_view(results@), t) == pair_count(r0, t) + seq_count(
                    decompose_over(fills.take(j as int + 1), rest@, next_label as int, dim as int),
                    t,
                ) by {
                lemma_seq_count_concat(
                    decompose_over(fills.take(j as int), rest@, next_label as int, dim as int),
                    decompose_outcomes(f.0, rest@, f.1, next_label as int, dim as int),
                    t,
                );
            }
        }
        j = j + 1;
    }
    assert(fills.take(fills.len() as int) =~= fills);
}

pub proof fn lemma_seq_sum_nonneg(s: Seq<usize>)
    ensures
        seq_sum(s) >= 0,
    decreases s.len(),
{
    if s.len() > 0 {
        lemma_seq_sum_nonneg(s.drop_last());
    }
}

pub proof fn lemma_seq_sum_first(s: Seq<usize>)
    requires
        s.len() > 0,
    ensures
        seq_sum(s) == s[0] + seq_sum(s.drop_first()),
    decreases s.len(),
{
    if s.len() > 1 {
        lemma_seq_sum_first(s.drop_last());
        assert(s.drop_last().drop_first() =~= s.drop_first().drop_last());
    } else {
        assert(s.drop_first() =~= Seq::<usize>::empty());
        assert(s.drop_last() =~= Seq::<usize>::empty());
    }
}

/// The table ordered so that its diagrams decrease lexicographically.
pub(crate) fn sort_table_desc(table: &Vec<(Vec<usize>, usize)>) -> (out: Vec<(Vec<usize>, usize)>)
    requires
        table_ok(table_view(table@)),
    ensures
        table_ok(table_view(out@)),
        sorted_desc(table_view(out@)),
        forall|t: Seq<usize>|
            #[trigger] pair_count(table_view(out@), t) == pair_count(table_view(table@), t),
{
    let ghost tv = table_view(table@);
    let mut out: Vec<(Vec<usize>, usize)> = Vec::new();
    let mut i: usize = 0;
    assert(tv.take(0) =~= Seq::<(Seq<usize>, usize)>::empty());
    while i < table.len()
        invariant
            tv == table_view(table@),
            table_ok(tv),
            i <= table.len(),
            table_ok(table_view(out@)),
            sorted_desc(table_view(out@)),
            forall|t: Seq<usize>|
                #[trigger] pair_count(table_view(out@), t) == pair_count(tv.take(i as int), t),
        decreases table.len() - i,
    {
        let key = copy_rows(&table[i].0);
        let count = table[i].1;
        let ghost ov = table_view(out@);
        let ghost k = key@;
        assert(tv[i as int] == (k, count));
        proof {
            assert forall|q: int| 0 <= q < tv.take(i as int).len() implies tv.take(i as int)[q].0 != k by {
                assert(tv.take(i as int)[q] == tv[q]);
            }
            lemma_pair_count_absent(tv.take(i as int), k);
            assert forall|q: int| 0 <= q < ov.len() implies ov[q].0 != k by {
                if ov[q].0 == k {
                    lemma_pair_count_entry(ov, q);
                }
            }
        }
        let mut pos: usize = 0;
        while pos < out.len() && !rows_lex_less(&out[pos].0, &key)
            invariant
                pos <= out.len(),
                ov == table_view(out@),
                k == key@,
                forall|q: int| 0 <= q < pos ==> !lex_lt(#[trigger] ov[q].0, k),
            decreases out.len() - pos,
        {
            pos = pos + 1;
        }
        out.insert(pos, (key, count));
        proof {
            let nv = table_view(out@);
            assert(nv =~= ov.insert(pos as int, (k, count)));
            assert forall|a: int, b: int| 0 <= a < b < nv.len() implies lex_lt(nv[b].0, nv[a].0) by {
                if b < pos {
                } else if a < pos && b == pos {
                    assert(!lex_lt(ov[a].0, k));
                    lemma_lex_total(ov[a].0, k);
                } else if a < pos && b > pos {
                    assert(nv[b] == ov[b - 1]);
                } else if a == pos {
                    assert(nv[b] == ov[b - 1]);
                    assert(lex_lt(ov[pos as int].0, k));
                    if b - 1 > pos {
                        lemma_lex_transitive(ov[b - 1].0, ov[pos as int].0, k);
                    }
                } else {
                    assert(nv[b] == ov[b - 1]);
                    assert(nv[a] == ov[a - 1]);
                }
            }
            assert forall|a: int, b: int| 0 <= a < b < nv.len() implies nv[a].0 != nv[b].0 by {
                lemma_lex_irreflexive(nv[a].0);
            }
            assert(tv.take(i as int + 1) =~= tv.take(i as int).push(tv[i as int]));
            assert forall|t: Seq<usize>| #[trigger] pair_count(nv, t) == pair_count(tv.take(i as int + 1), t) by {
                lemma_pair_count_insert(ov, pos as int, (k, count), t);
                lemma_pair_count_push(tv.take(i as int), tv[i as int], t);
            }
            assert(count > 0);
        }
        i = i + 1;
    }
    assert(tv.take(table@.len() as int) =~= tv);
    out
}

/// The Littlewood-Richardson style product of the diagrams `tab_a` and
/// `tab_b` within dimension `dim`: each normalised diagram reached, with the
/// number of fillings that reach it, largest diagram (lexicographically) first.
/// Empty when either normalised diagram does not fit `dim`.
pub fn littlewood_richardson(tab_a: &[usize], tab_b: &[usize], dim: usize) -> (out: Vec<
    (Vec<usize>, usize),
>)
    requires
        positive_rows(tab_b@).len() <= 254,
        seq_sum(tab_a@) + seq_sum(tab_b@) < usize::MAX,
        lr_outcomes(tab_a@, tab_b@, dim as int).len() <= usize::MAX,
    ensures
        table_ok(table_view(out@)),
        sorted_desc(table_view(out@)),
        forall|t: Seq<usize>|
            #[trigger] pair_count(table_view(out@), t) == seq_count(
                lr_outcomes(tab_a@, tab_b@, dim as int),
                t,
            ),
{
    let shape_a = normalize_shape(tab_a);
    let shape_b = normalize_shape(tab_b);
    if !shape_fits_dim(&shape_a, dim) || !shape_fits_dim(&shape_b, dim) {
        let out: Vec<(Vec<usize>, usize)> = Vec::new();
        assert(table_view(out@) =~= Seq::<(Seq<usize>, usize)>::empty());
        return out;
    }
    let ghost outcomes = lr_outcomes(tab_a@, tab_b@, dim as int);
    proof {
        lemma_normal_shape_size(tab_a@);
        lemma_normal_shape_size(tab_b@);
        lemma_normal_shape_props(tab_b@);
        assert forall|t: Seq<usize>| #[trigger] seq_count(outcomes, t) <= usize::MAX by {
            lemma_seq_count_le_len(outcomes, t);
        }
    }
    let mut results: Vec<(Vec<usize>, usize)> = Vec::new();
    assert(table_view(results@) =~= Seq::<(Seq<usize>, usize)>::empty());
    let no_labels: Vec<u8> = Vec::new();
    proof {
        assert(cells_from_labels(no_labels@) =~= Seq::<Cell>::empty());
        assert(outcomes == decompose_outcomes(shape_a@, shape_b@, cells_from_labels(no_labels@), 1, dim as int));
        assert forall|t: Seq<usize>|
            pair_count(table_view(results@), t) + seq_count(
                #[trigger] decompose_outcomes(shape_a@, shape_b@, cells_from_labels(no_labels@), 1, dim as int),
                t,
            ) <= usize::MAX by {
            lemma_seq_count_le_len(outcomes, t);
        }
    }
    lr_decompose_recursive(&shape_a, &shape_b, &no_labels, 1, dim, &mut results);
    proof {
        assert(cells_from_labels(no_labels@) =~= Seq::<Cell>::empty());
    }
    sort_table_desc(&results)
}

/// Starts the filling of `current_shape` from boxes in the first row whose
/// labels are `placed_labels`, then proceeds as `lr_decompose_cells`.
fn lr_decompose_recursive(
    current_shape: &[usize],
    remaining_rows: &[usize],
    placed_labels: &[u8],
    current_label: u8,
    dim: usize,
    results: &mut Vec<(Vec<usize>, usize)>,
)
    requires
        table_ok(table_view(old(results)@)),
        forall|t: Seq<usize>|
            pair_count(table_view(old(results)@), t) + seq_count(
                #[trigger] decompose_outcomes(
                    current_shape@,
                    remaining_rows@,
                    cells_from_labels(placed_labels@),
                    current_label as int,
                    dim as int,
                ),
                t,
            ) <= usize::MAX,
        current_label as int + remaining_rows.len() <= 255,
        current_shape.len() + seq_sum(remaining_rows@) < usize::MAX,
        forall|i: int|
            0 <= i < current_shape.len() ==> current_shape[i] + seq_sum(remaining_rows@)
                < usize::MAX,
    ensures
        table_ok(table_view(final(results)@)),
        forall|t: Seq<usize>|
            #[trigger] pair_count(table_view(final(results)@), t) == pair_count(
                table_view(old(results)@),
                t,
            ) + seq_count(
                decompose_outcomes(
                    current_shape@,
                    remaining_rows@,
                    cells_from_labels(placed_labels@),
                    current_label as int,
                    dim as int,
                ),
                t,
            ),
{
    let mut placed_cells: Vec<Cell> = Vec::new();
    let mut col: usize = 0;
    while col < placed_labels.len()
        invariant
            col <= placed_labels.len(),
            placed_cells@ == cells_from_labels(placed_labels@.take(col as int)),
        decreases placed_labels.len() - col,
    {
        placed_cells.push((0, col, placed_labels[col]));
        assert(cells_from_labels(placed_labels@.take(col as int + 1)) =~= cells_from_labels(
            placed_labels@.take(col as int),
        ).push((0usize, col, placed_labels@[col as int])));
        col = col + 1;
    }
    assert(placed_labels@.take(placed_labels@.len() as int) =~= placed_labels@);
    lr_decompose_cells(
        current_shape,
        remaining_rows,
        &placed_cells,
        current_label,
        dim,
        results,
    );
}

// ---------------------------------------------------------------------------
// A column of two boxes can always go into two new rows
// ---------------------------------------------------------------------------

proof fn lemma_column_height_at_most_rows(s: Seq<usize>, col: int)
    ensures
        column_height(s, col) <= s.len(),
    decreases s.len(),
{
    if s.len() > 0 {
        lemma_column_height_at_most_rows(s.drop_last(), col);
    }
}

/// A diagram with at most `dim` rows fits `dim`.
proof fn lemma_few_rows_fit(s: Seq<usize>, dim: int)
    requires
        s.len() <= dim,
    ensures
        fits_dim(s, dim),
{
    assert forall|col: int| 0 <= col < (if s.len() == 0 { 0 } else { s[0] as int }) implies #[trigger] column_height(s, col) <= dim by {
        lemma_column_height_at_most_rows(s, col);
    }
}

/// When there is room for one more row, the last row at which a box may be
/// added is a new row below the diagram.
proof fn lemma_new_row_is_last_addable(a: Seq<usize>, dim: int)
    requires
        a.len() == 0 || a[a.len() - 1] > 0,
        a.len() + 1 <= dim,
        dim <= usize::MAX,
    ensures
        addable_rows_of(a, dim).len() > 0,
        addable_rows_of(a, dim).last() == a.len(),
{
    let n = a.len() as int;
    lemma_few_rows_fit(with_cell(a, n), dim);
    assert(addable(a, dim, n));
    assert(addable_rows_of(a, dim) == addable_upto(a, dim, n).push(n as usize));
}

/// A single labelled box reads as a lattice word.
proof fn lemma_one_cell_lattice(x: Cell)
    requires
        x.2 == 1,
    ensures
        lattice_ok(seq![x]),
{
    let c = seq![x];
    let e = Seq::<Cell>::empty();
    assert(c.drop_last() =~= e);
    assert(reading_word(e) == e);
    assert(insert_pos(e, x) == 0);
    assert(e.insert(0, x) =~= seq![x]);
    assert(reading_word(c) =~= seq![x]);
    assert(max_label(e) == 0);
    assert(c.last() == x);
    assert(max_label(c) == 1);
}

/// A box labelled 1 followed by a box labelled 2 in a later row reads as a
/// lattice word.
proof fn lemma_two_rows_lattice(x: Cell, y: Cell)
    requires
        x.2 == 1,
        y.2 == 2,
        x.0 < y.0,
    ensures
        lattice_ok(seq![x, y]),
{
    let c = seq![x, y];
    assert(c.drop_last() =~= seq![x]);
    lemma_one_cell_lattice(x);
    assert(seq![x].drop_last() =~= Seq::<Cell>::empty());
    let e = Seq::<Cell>::empty();
    assert(reading_word(e) == e);
    assert(insert_pos(e, x) == 0);
    assert(e.insert(0, x) =~= seq![x]);
    assert(reading_word(seq![x]) =~= seq![x]);
    assert(!reads_before(y, x));
    assert(seq![x].drop_first() =~= e);
    assert(seq![x][0] == x);
    assert(insert_pos(e, y) == 0);
    assert(insert_pos(seq![x], y) == 1);
    assert(seq![x].insert(1, y) =~= seq![x, y]);
    assert(max_label(e) == 0);
    let w = reading_word(c);
    assert(w =~= seq![x, y]);
    assert(max_label(seq![x]) == 1);
    assert(max_label(c) == 2);
    assert(w.take(1) =~= seq![x]);
    assert(w.take(2) =~= seq![x, y]);
    assert(seq![x, y].drop_last() =~= seq![x]);
    assert(seq![x].drop_last() =~= Seq::<Cell>::empty());
    assert(label_count(e, 1) == 0);
    assert(label_count(e, 2) == 0);
    assert(seq![x].last() == x);
    assert(seq![x, y].last() == y);
    assert(label_count(seq![x], 1) == 1);
    assert(label_count(seq![x], 2) == 0);
    assert(label_count(seq![x, y], 1) == 1);
    assert(label_count(seq![x, y], 2) == 1);
    assert forall|p: int, i: int| 1 <= p <= w.len() && 1 <= i < max_label(c) implies #[trigger] label_count(
        w.take(p),
        i,
    ) >= label_count(w.take(p), i + 1) by {
        assert(i == 1);
        if p == 1 {
            assert(w.take(p) =~= seq![x]);
        } else {
            assert(w.take(p) =~= seq![x, y]);
        }
    }
}

/// Placing one box labelled `label` when the last addable row is a new row:
/// the last fill puts it in column 0 of that new row.
proof fn lemma_place_one_in_new_row(a: Seq<usize>, label: u8, dim: int, cells: Seq<Cell>)
    requires
        addable_rows_of(a, dim).len() > 0,
        addable_rows_of(a, dim).last() == a.len(),
        lattice_ok(cells.push((a.len() as usize, 0usize, label))),
    ensures
        place_row_spec(a, 1, label, dim, Seq::empty(), cells).len() > 0,
        place_row_spec(a, 1, label, dim, Seq::empty(), cells).last() == (
            a.push(1),
            cells.push((a.len() as usize, 0usize, label)),
        ),
{
    let rows = addable_rows_of(a, dim);
    let n = a.len() as int;
    let c2 = cells.push((n as usize, 0usize, label));
    assert(cell_column(a, n) == 0);
    assert(!Seq::<usize>::empty().contains(0usize));
    assert(with_cell(a, n) == a.push(1));
    let tail = place_row_spec(a.push(1), 0, label, dim, Seq::<usize>::empty().push(0usize), c2);
    assert(tail == seq![(a.push(1), c2)]);
    let prev = place_row_options(a, rows.drop_last(), 1, label, dim, Seq::empty(), cells);
    assert(place_row_spec(a, 1, label, dim, Seq::empty(), cells) == prev + tail);
}

proof fn lemma_decompose_over_last(fills: Seq<Fill>, rows: Seq<usize>, label: int, dim: int, t: Seq<usize>)
    requires
        fills.len() > 0,
    ensures
        seq_count(decompose_over(fills, rows, label, dim), t) >= seq_count(
            decompose_outcomes(fills.last().0, rows, fills.last().1, label, dim),
            t,
        ),
{
    lemma_seq_count_concat(
        decompose_over(fills.drop_last(), rows, label, dim),
        decompose_outcomes(fills.last().0, rows, fills.last().1, label, dim),
        t,
    );
}

/// Law: the two boxes of a column `[1, 1]` may always go into two new rows
/// below a diagram `a` (when `dim` leaves room for them): boxes of different
/// labels may share a column, so the product `a x [1, 1]` contains `a` with
/// two rows of one box appended. For `a = [1]` this is `[1, 1, 1]`.
pub proof fn lemma_column_pair_starts_new_rows(a: Seq<usize>, dim: int)
    requires
        is_partition(a),
        a.len() + 2 <= dim,
        dim <= usize::MAX,
    ensures
        seq_count(lr_outcomes(a, seq![1usize, 1usize], dim), a + seq![1usize, 1usize]) >= 1,
{
    let n = a.len() as int;
    let b = seq![1usize, 1usize];
    let t = a + b;
    lemma_normal_shape_of_partition(a);
    assert(is_partition(b));
    lemma_normal_shape_of_partition(b);
    lemma_few_rows_fit(a, dim);
    lemma_few_rows_fit(b, dim);
    // the first box, labelled 1, starts row `n`
    let x = (n as usize, 0usize, 1u8);
    let c1 = seq![x];
    let a1 = a.push(1);
    assert(Seq::<Cell>::empty().push(x) =~= c1);
    lemma_new_row_is_last_addable(a, dim);
    lemma_one_cell_lattice(x);
    lemma_place_one_in_new_row(a, 1u8, dim, Seq::empty());
    let f1 = place_row_spec(a, 1, 1u8, dim, Seq::empty(), Seq::empty());
    assert(b.drop_first() =~= seq![1usize]);
    assert(lr_outcomes(a, b, dim) == decompose_over(f1, seq![1usize], 2, dim));
    lemma_decompose_over_last(f1, seq![1usize], 2, dim, t);
    // the second box, labelled 2, starts row `n + 1`
    let y = ((n + 1) as usize, 0usize, 2u8);
    let c2 = seq![x, y];
    let a2 = a1.push(1);
    assert(c1.push(y) =~= c2);
    assert(a1.len() == n + 1);
    lemma_new_row_is_last_addable(a1, dim);
    lemma_two_rows_lattice(x, y);
    lemma_place_one_in_new_row(a1, 2u8, dim, c1);
    let f2 = place_row_spec(a1, 1, 2u8, dim, Seq::empty(), c1);
    assert(seq![1usize].drop_first() =~= Seq::<usize>::empty());
    assert(decompose_outcomes(a1, seq![1usize], c1, 2, dim) == decompose_over(
        f2,
        Seq::<usize>::empty(),
        3,
        dim,
    ));
    lemma_decompose_over_last(f2, Seq::<usize>::empty(), 3, dim, t);
    // the completed filling
    assert(a2 =~= t);
    assert(is_partition(a2)) by {
        assert forall|i: int, j: int| 0 <= i <= j < a2.len() implies a2[i] >= a2[j] by {
            if j >= n && i < n {
                assert(a[i] > 0);
            }
        }
    }
    lemma_normal_shape_of_partition(a2);
    lemma_few_rows_fit(a2, dim);
    let last = decompose_outcomes(a2, Seq::<usize>::empty(), c2, 3, dim);
    assert(last == seq![t]);
    assert(seq![t].drop_last() =~= Seq::<Seq<usize>>::empty());
    assert(seq_count(Seq::<Seq<usize>>::empty(), t) == 0);
    assert(seq![t].last() == t);
    assert(seq_count(seq![t], t) == 1);
}

/// Placing a single box labelled 1 on an empty filling: one fill per row of
/// `rows`, in order, the box at the end of that row.
proof fn lemma_place_one_box(a: Seq<usize>, rows: Seq<usize>, dim: int)
    ensures
        place_row_options(a, rows, 1, 1u8, dim, Seq::empty(), Seq::empty()) == rows.map_values(
            |r: usize| (with_cell(a, r as int), seq![(r, cell_column(a, r as int), 1u8)]),
        ),
    decreases rows.len(),
{
    let f = |r: usize| (with_cell(a, r as int), seq![(r, cell_column(a, r as int), 1u8)]);
    if rows.len() == 0 {
        assert(rows.map_values(f) =~= Seq::<Fill>::empty());
    } else {
        lemma_place_one_box(a, rows.drop_last(), dim);
        let r = rows.last();
        let col = cell_column(a, r as int);
        let x = (r, col, 1u8);
        assert(!Seq::<usize>::empty().contains(col));
        assert(Seq::<Cell>::empty().push(x) =~= seq![x]);
        lemma_one_cell_lattice(x);
        let tail = place_row_spec(with_cell(a, r as int), 0, 1u8, dim, Seq::<usize>::empty().push(col), seq![x]);
        assert(tail == seq![(with_cell(a, r as int), seq![x])]);
        assert(rows.map_values(f) =~= rows.drop_last().map_values(f) + seq![f(r)]);
    }
}

/// Completing fills with no rows left: the normalised diagram of each.
proof fn lemma_complete_fills(fills: Seq<Fill>, label: int, dim: int)
    requires
        forall|i: int| 0 <= i < fills.len() ==> fits_dim(#[trigger] fills[i].0, dim) && lattice_ok(fills[i].1),
    ensures
        decompose_over(fills, Seq::empty(), label, dim) == fills.map_values(|f: Fill| normal_shape(f.0)),
    decreases fills.len(),
{
    let g = |f: Fill| normal_shape(f.0);
    if fills.len() == 0 {
        assert(fills.map_values(g) =~= Seq::<Seq<usize>>::empty());
    } else {
        assert forall|i: int| 0 <= i < fills.drop_last().len() implies fits_dim(#[trigger] fills.drop_last()[i].0, dim) && lattice_ok(fills.drop_last()[i].1) by {
            assert(fills.drop_last()[i] == fills[i]);
        }
        lemma_complete_fills(fills.drop_last(), label, dim);
        let last = fills.last();
        assert(fits_dim(fills[fills.len() - 1].0, dim) && lattice_ok(fills[fills.len() - 1].1));
        assert(decompose_outcomes(last.0, Seq::empty(), last.1, label, dim) == seq![normal_shape(last.0)]);
        assert(fills.map_values(g) =~= fills.drop_last().map_values(g) + seq![g(last)]);
    }
}

/// A box added where it may be added leaves a partition a partition.
proof fn lemma_with_cell_partition(a: Seq<usize>, dim: int, r: int)
    requires
        is_partition(a),
        addable(a, dim, r),
        a.len() == 0 || a[0] < usize::MAX,
    ensures
        is_partition(with_cell(a, r)),
{
    let b = with_cell(a, r);
    if r < a.len() {
        assert(a[r] < usize::MAX) by {
            if r > 0 {
                assert(a[r] < a[r - 1]);
            }
        }
        assert forall|i: int, j: int| 0 <= i <= j < b.len() implies b[i] >= b[j] by {
            if j == r && i < r {
                assert(a[i] >= a[r - 1]);
            }
            if i == r && j > r {
                assert(a[r] >= a[j]);
            }
        }
    } else {
        assert forall|i: int, j: int| 0 <= i <= j < b.len() implies b[i] >= b[j] by {
            if j == a.len() && i < j {
                assert(a[i] > 0);
            }
        }
    }
}

/// Every row of a partition is at least 1 long, so column 0 holds every row.
proof fn lemma_column_height_all(a: Seq<usize>)
    requires
        forall|q: int| 0 <= q < a.len() ==> a[q] > 0,
    ensures
        column_height(a, 0) == a.len(),
    decreases a.len(),
{
    if a.len() > 0 {
        lemma_column_height_all(a.drop_last());
    }
}

/// Law (Pieri's rule for one box): the product of a diagram `a` with a single
/// box is the list of diagrams obtained by adding one box to `a` at each row
/// where one may be added, top to bottom, each once.
pub proof fn lemma_one_box_product(a: Seq<usize>, dim: int)
    requires
        is_partition(a),
        fits_dim(a, dim),
        1 <= dim <= usize::MAX,
        a.len() == 0 || a[0] < usize::MAX,
    ensures
        lr_outcomes(a, seq![1usize], dim) == addable_rows_of(a, dim).map_values(
            |r: usize| with_cell(a, r as int),
        ),
{
    let b = seq![1usize];
    assert(is_partition(b));
    lemma_normal_shape_of_partition(a);
    lemma_normal_shape_of_partition(b);
    lemma_few_rows_fit(b, dim);
    if a.len() > 0 {
        assert(column_height(a, 0) <= dim);
        lemma_column_height_all(a);
    }
    let rows = addable_rows_of(a, dim);
    lemma_addable_upto_members(a, dim, a.len() + 1int);
    lemma_place_one_box(a, rows, dim);
    let fills = rows.map_values(
        |r: usize| (with_cell(a, r as int), seq![(r, cell_column(a, r as int), 1u8)]),
    );
    assert(b.drop_first() =~= Seq::<usize>::empty());
    assert(place_row_spec(a, 1, 1u8, dim, Seq::empty(), Seq::empty()) == fills);
    assert(lr_outcomes(a, b, dim) == decompose_over(fills, Seq::empty(), 2, dim));
    assert forall|i: int| 0 <= i < fills.len() implies fits_dim(#[trigger] fills[i].0, dim) && lattice_ok(fills[i].1) by {
        assert(addable(a, dim, rows[i] as int));
        lemma_one_cell_lattice((rows[i], cell_column(a, rows[i] as int), 1u8));
    }
    lemma_complete_fills(fills, 2, dim);
    let want = rows.map_values(|r: usize| with_cell(a, r as int));
    assert forall|i: int| 0 <= i < rows.len() implies normal_shape(#[trigger] fills[i].0) == want[i] by {
        assert(addable(a, dim, rows[i] as int));
        lemma_with_cell_partition(a, dim, rows[i] as int);
        lemma_normal_shape_of_partition(with_cell(a, rows[i] as int));
    }
    assert(fills.map_values(|f: Fill| normal_shape(f.0)) =~= want);
}

} // verus!
