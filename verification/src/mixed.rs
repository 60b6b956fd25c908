//! Mixed tensor-spinor symmetries: sorting the Young diagrams of a mixed
//! symmetry into tensor, undotted and dotted spinor sectors, and the
//! decomposition of small products sector by sector.
use vstd::prelude::*;
use crate::lr::{littlewood_richardson, lex_lt, lr_outcomes, pair_count, seq_count, sorted_desc, table_ok, table_view, lemma_lex_irreflexive, lemma_pair_count_entry, lemma_seq_sum_nonneg};
use crate::lr_bounds::{ipow, lemma_ipow_mono, lemma_lr_outcomes_count, lemma_ipow_nonneg};
use crate::shape::{copy_rows, is_partition, shapes_view, lemma_normal_shape_props, lemma_normal_shape_size, normal_shape, positive_rows, seq_sum};
use crate::shape_order::{sort_shapes, sorted_shapes};

verus! {

/// What a slot of a mixed symmetry carries.
#[derive(Clone, Copy, Debug, PartialEq, Eq, Structural)]
pub enum SlotKind {
    Tensor,
    UndottedSpinor,
    DottedSpinor,
}

/// A slot of a tableau attachment: its position and kind.
#[derive(Clone, Copy, Debug)]
pub struct MixedSlot {
    pub index: usize,
    pub kind: SlotKind,
}

/// A Young diagram attached to some slots.
pub struct MixedTableauAttachment {
    pub shape: Vec<usize>,
    pub slots: Vec<MixedSlot>,
}

/// The tableaux of a mixed tensor-spinor symmetry.
pub struct MixedTensorSymmetry {
    pub tableaux: Vec<MixedTableauAttachment>,
}

/// Why a mixed symmetry is rejected.
#[derive(Clone, Copy, Debug, PartialEq, Eq, Structural)]
pub enum MixedSymmetryError {
    /// A tableau mixes tensor and spinor slots, or the product is outside the
    /// supported small regime.
    InvalidMixedTensorProduct,
    /// The symmetry failed validation.
    InvalidSymmetry,
}

/// The diagrams of a mixed symmetry, sector by sector, each list sorted.
#[derive(Clone, Debug, PartialEq, Eq)]
pub struct MixedIrrepSummary {
    pub tensor_shapes: Vec<Vec<usize>>,
    pub undotted_spinor_shapes: Vec<Vec<usize>>,
    pub dotted_spinor_shapes: Vec<Vec<usize>>,
}

/// The three sectors of a summary as sequences of diagrams.
pub open spec fn summary_view(s: MixedIrrepSummary) -> (Seq<Seq<usize>>, Seq<Seq<usize>>, Seq<Seq<usize>>) {
    (
        shapes_view(s.tensor_shapes@),
        shapes_view(s.undotted_spinor_shapes@),
        shapes_view(s.dotted_spinor_shapes@),
    )
}

/// Some slot of the tableau has kind `k`.
pub open spec fn has_kind(t: MixedTableauAttachment, k: SlotKind) -> bool {
    exists|i: int| 0 <= i < t.slots@.len() && #[trigger] t.slots@[i].kind == k
}

/// The tableau has tensor slots together with spinor slots.
pub open spec fn conflicting(t: MixedTableauAttachment) -> bool {
    has_kind(t, SlotKind::Tensor) && (has_kind(t, SlotKind::UndottedSpinor) || has_kind(
        t,
        SlotKind::DottedSpinor,
    ))
}

/// Some tableau among the first `m` mixes tensor and spinor slots.
pub open spec fn any_conflict(tabs: Seq<MixedTableauAttachment>, m: int) -> bool {
    exists|i: int| 0 <= i < m && conflicting(#[trigger] tabs[i])
}

/// The diagrams of the first `m` tableaux by sector, in order: a tableau with
/// tensor slots goes to the tensor sector; one with both kinds of spinor
/// slots to both spinor sectors; one with one kind to that sector; one with
/// no slots to none.
pub open spec fn sector_lists(tabs: Seq<MixedTableauAttachment>, m: int) -> (
    Seq<Seq<usize>>,
    Seq<Seq<usize>>,
    Seq<Seq<usize>>,
)
    decreases m,
{
    if m <= 0 {
        (Seq::empty(), Seq::empty(), Seq::empty())
    } else {
        let p = sector_lists(tabs, m - 1);
        let t = tabs[m - 1];
        let s = t.shape@;
        let ten = has_kind(t, SlotKind::Tensor);
        let und = has_kind(t, SlotKind::UndottedSpinor);
        let dot = has_kind(t, SlotKind::DottedSpinor);
        if ten {
            (p.0.push(s), p.1, p.2)
        } else if und && dot {
            (p.0, p.1.push(s), p.2.push(s))
        } else if und {
            (p.0, p.1.push(s), p.2)
        } else if dot {
            (p.0, p.1, p.2.push(s))
        } else {
            p
        }
    }
}

/// The summary of a conflict-free symmetry: each sector's list sorted.
pub open spec fn summary_spec(tabs: Seq<MixedTableauAttachment>) -> (Seq<Seq<usize>>, Seq<Seq<usize>>, Seq<Seq<usize>>) {
    let l = sector_lists(tabs, tabs.len() as int);
    (sorted_shapes(l.0), sorted_shapes(l.1), sorted_shapes(l.2))
}

fn slots_have_kind(slots: &Vec<MixedSlot>, k: SlotKind) -> (b: bool)
    ensures
        b == exists|i: int| 0 <= i < slots@.len() && #[trigger] slots@[i].kind == k,
{
    let mut i: usize = 0;
    while i < slots.len()
        invariant
            i <= slots.len(),
            forall|q: int| 0 <= q < i ==> #[trigger] slots@[q].kind != k,
        decreases slots.len() - i,
    {
        if slots[i].kind == k {
            return true;
        }
        i = i + 1;
    }
    false
}

/// Sorts the diagrams of a mixed symmetry into its tensor, undotted spinor
/// and dotted spinor sectors (each list sorted ascending). `validated` is
/// the outcome of validating the symmetry; its error is returned as it is.
/// A tableau that mixes tensor and spinor slots is rejected.
pub fn summarize_mixed_tensor_symmetry(
    sym: &MixedTensorSymmetry,
    validated: Result<(), MixedSymmetryError>,
) -> (r: Result<MixedIrrepSummary, MixedSymmetryError>)
    ensures
        validated matches Err(e) ==> r matches Err(e2) && e2 == e,
        validated is Ok ==> (r is Err <==> any_conflict(sym.tableaux@, sym.tableaux@.len() as int)),
        validated is Ok && any_conflict(sym.tableaux@, sym.tableaux@.len() as int) ==> r
            == Err::<MixedIrrepSummary, MixedSymmetryError>(MixedSymmetryError::InvalidMixedTensorProduct),
        r matches Ok(s) ==> summary_view(s) == summary_spec(sym.tableaux@),
{
    if let Err(e) = validated {
        return Err(e);
    }
    let ghost tabs = sym.tableaux@;
    let mut tensor: Vec<Vec<usize>> = Vec::new();
    let mut undotted: Vec<Vec<usize>> = Vec::new();
    let mut dotted: Vec<Vec<usize>> = Vec::new();
    let mut i: usize = 0;
    assert(shapes_view(tensor@) =~= Seq::<Seq<usize>>::empty());
    assert(shapes_view(undotted@) =~= Seq::<Seq<usize>>::empty());
    assert(shapes_view(dotted@) =~= Seq::<Seq<usize>>::empty());
    while i < sym.tableaux.len()
        invariant
            tabs == sym.tableaux@,
            validated is Ok,
            i <= tabs.len(),
            !any_conflict(tabs, i as int),
            (shapes_view(tensor@), shapes_view(undotted@), shapes_view(dotted@)) == sector_lists(
                tabs,
                i as int,
            ),
        decreases tabs.len() - i,
    {
        let t = &sym.tableaux[i];
        let has_tensor = slots_have_kind(&t.slots, SlotKind::Tensor);
        let has_undotted = slots_have_kind(&t.slots, SlotKind::UndottedSpinor);
        let has_dotted = slots_have_kind(&t.slots, SlotKind::DottedSpinor);
        if has_tensor && (has_undotted || has_dotted) {
            assert(conflicting(tabs[i as int]));
            assert(any_conflict(tabs, tabs.len() as int));
            return Err(MixedSymmetryError::InvalidMixedTensorProduct);
        }
        let ghost (t0, u0, d0) = (shapes_view(tensor@), shapes_view(undotted@), shapes_view(dotted@));
        if has_tensor {
            tensor.push(copy_rows(&t.shape));
        } else if has_undotted && has_dotted {
            undotted.push(copy_rows(&t.shape));
            dotted.push(copy_rows(&t.shape));
        } else if has_undotted {
            undotted.push(copy_rows(&t.shape));
        } else if has_dotted {
            dotted.push(copy_rows(&t.shape));
        }
        assert(shapes_view(tensor@) =~= sector_lists(tabs, i as int + 1).0);
        assert(shapes_view(undotted@) =~= sector_lists(tabs, i as int + 1).1);
        assert(shapes_view(dotted@) =~= sector_lists(tabs, i as int + 1).2);
        assert forall|q: int| 0 <= q < i + 1 implies !conflicting(#[trigger] tabs[q]) by {
            if q < i {
                assert(!any_conflict(tabs, i as int));
            }
        }
        i = i + 1;
    }
    let summary = MixedIrrepSummary {
        tensor_shapes: sort_shapes(&tensor),
        undotted_spinor_shapes: sort_shapes(&undotted),
        dotted_spinor_shapes: sort_shapes(&dotted),
    };
    Ok(summary)
}

/// Every diagram of the list has at most two boxes.
pub open spec fn small_shapes(list: Seq<Seq<usize>>) -> bool {
    forall|i: int| 0 <= i < list.len() ==> seq_sum(#[trigger] list[i]) <= 2
}

/// The supported regime: at most one diagram per sector, none with more than two boxes.
pub open spec fn supported_regime(v: (Seq<Seq<usize>>, Seq<Seq<usize>>, Seq<Seq<usize>>)) -> bool {
    &&& v.0.len() <= 1 && v.1.len() <= 1 && v.2.len() <= 1
    &&& small_shapes(v.0) && small_shapes(v.1) && small_shapes(v.2)
}

/// Whether the diagram has more than two boxes.
fn more_than_two_boxes(shape: &Vec<usize>) -> (b: bool)
    ensures
        b == (seq_sum(shape@) > 2),
{
    let mut total: usize = 0;
    let mut i: usize = 0;
    while i < shape.len()
        invariant
            i <= shape.len(),
            total == seq_sum(shape@.take(i as int)),
            total <= 2,
        decreases shape.len() - i,
    {
        assert(shape@.take(i as int + 1).drop_last() =~= shape@.take(i as int));
        if shape[i] > 2 - total {
            proof {
                lemma_sum_prefix_le(shape@, i as int + 1);
            }
            return true;
        }
        total = total + shape[i];
        i = i + 1;
    }
    assert(shape@.take(shape@.len() as int) =~= shape@);
    false
}

pub proof fn lemma_sum_prefix_le(s: Seq<usize>, k: int)
    requires
        0 <= k <= s.len(),
    ensures
        seq_sum(s.take(k)) <= seq_sum(s),
    decreases s.len(),
{
    if k < s.len() {
        assert(s.drop_last().take(k) =~= s.take(k));
        lemma_sum_prefix_le(s.drop_last(), k);
    } else {
        assert(s.take(k) =~= s);
    }
}

fn all_small(list: &Vec<Vec<usize>>) -> (b: bool)
    ensures
        b == small_shapes(shapes_view(list@)),
{
    let mut i: usize = 0;
    while i < list.len()
        invariant
            i <= list.len(),
            forall|q: int| 0 <= q < i ==> seq_sum(#[trigger] shapes_view(list@)[q]) <= 2,
        decreases list.len() - i,
    {
        if more_than_two_boxes(&list[i]) {
            assert(seq_sum(shapes_view(list@)[i as int]) > 2);
            return false;
        }
        i = i + 1;
    }
    true
}

/// Accepts a summary in the supported regime (at most one diagram per
/// sector, none with more than two boxes); `validated` is the outcome of
/// validating the symmetry, whose error is returned as it is.
pub fn ensure_supported_regime(
    validated: Result<(), MixedSymmetryError>,
    summary: &MixedIrrepSummary,
) -> (r: Result<(), MixedSymmetryError>)
    ensures
        validated matches Err(e) ==> r == Err::<(), MixedSymmetryError>(e),
        validated is Ok ==> (r is Ok <==> supported_regime(summary_view(*summary))),
        validated is Ok ==> (r matches Err(e) ==> e == MixedSymmetryError::InvalidMixedTensorProduct),
{
    if let Err(e) = validated {
        return Err(e);
    }
    if summary.tensor_shapes.len() > 1 || summary.undotted_spinor_shapes.len() > 1
        || summary.dotted_spinor_shapes.len() > 1 {
        return Err(MixedSymmetryError::InvalidMixedTensorProduct);
    }
    if !all_small(&summary.tensor_shapes) || !all_small(&summary.undotted_spinor_shapes)
        || !all_small(&summary.dotted_spinor_shapes) {
        return Err(MixedSymmetryError::InvalidMixedTensorProduct);
    }
    Ok(())
}

/// The outcome of one sector of a product: no diagram on either side gives
/// one empty list; a diagram on one side only gives that diagram; diagrams
/// on both sides give one single-diagram list per diagram of their product,
/// in ascending order.
pub open spec fn sector_ok(
    left: Seq<Seq<usize>>,
    right: Seq<Seq<usize>>,
    out: Seq<Seq<Seq<usize>>>,
) -> bool {
    if left.len() == 0 && right.len() == 0 {
        out == seq![Seq::<Seq<usize>>::empty()]
    } else if left.len() == 0 {
        out == seq![seq![right[0]]]
    } else if right.len() == 0 {
        out == seq![seq![left[0]]]
    } else {
        let outcomes = lr_outcomes(left[0], right[0], seq_sum(left[0]) + seq_sum(right[0]));
        &&& forall|i: int| 0 <= i < out.len() ==> #[trigger] out[i].len() == 1
        &&& forall|i: int, j: int| 0 <= i < j < out.len() ==> lex_lt(out[i][0], out[j][0])
        &&& forall|i: int| 0 <= i < out.len() ==> seq_count(outcomes, #[trigger] out[i][0]) > 0
        &&& forall|s: Seq<usize>|
            #[trigger] seq_count(outcomes, s) > 0 ==> exists|i: int| 0 <= i < out.len() && out[i][0] == s
    }
}

/// Lists of lists of diagrams seen as sequences.
pub open spec fn sector_view(v: Seq<Vec<Vec<usize>>>) -> Seq<Seq<Seq<usize>>> {
    v.map_values(|x: Vec<Vec<usize>>| shapes_view(x@))
}

/// Whether a sector pair can be multiplied: when both sides have a
/// diagram, both first diagrams are partitions.
pub open spec fn sector_valid(left: Seq<Seq<usize>>, right: Seq<Seq<usize>>) -> bool {
    left.len() > 0 && right.len() > 0 ==> is_partition(left[0]) && is_partition(right[0])
}

/// Whether the rows are positive and never grow from top to bottom.
pub(crate) fn rows_form_partition(shape: &Vec<usize>) -> (b: bool)
    ensures
        b == is_partition(shape@),
{
    let mut i: usize = 0;
    while i < shape.len()
        invariant
            i <= shape.len(),
            forall|q: int| 0 <= q < i ==> #[trigger] shape@[q] > 0,
            forall|p: int, q: int| 0 <= p <= q < i ==> shape@[p] >= shape@[q],
        decreases shape.len() - i,
    {
        if shape[i] == 0 {
            return false;
        }
        if i > 0 && shape[i] > shape[i - 1] {
            return false;
        }
        i = i + 1;
    }
    true
}

/// The decomposition of one sector of a product of two summaries: the
/// product of their first diagrams, each diagram of the product as a list
/// of one diagram, ascending. The product is taken without a bound on the
/// number of rows. First diagrams on both sides must be partitions.
pub fn decompose_sector(left_shapes: &Vec<Vec<usize>>, right_shapes: &Vec<Vec<usize>>) -> (r: Result<
    Vec<Vec<Vec<usize>>>,
    MixedSymmetryError,
>)
    requires
        small_shapes(shapes_view(left_shapes@)),
        small_shapes(shapes_view(right_shapes@)),
    ensures
        r is Ok <==> sector_valid(shapes_view(left_shapes@), shapes_view(right_shapes@)),
        r matches Ok(out) ==> sector_ok(shapes_view(left_shapes@), shapes_view(right_shapes@), sector_view(out@)),
        r matches Err(e) ==> e == MixedSymmetryError::InvalidMixedTensorProduct,
{
    let ghost lv = shapes_view(left_shapes@);
    let ghost rv = shapes_view(right_shapes@);
    if left_shapes.len() == 0 && right_shapes.len() == 0 {
        let mut out: Vec<Vec<Vec<usize>>> = Vec::new();
        let empty: Vec<Vec<usize>> = Vec::new();
        assert(shapes_view(empty@) =~= Seq::<Seq<usize>>::empty());
        out.push(empty);
        assert(sector_view(out@) =~= seq![Seq::<Seq<usize>>::empty()]);
        return Ok(out);
    }
    if left_shapes.len() == 0 || right_shapes.len() == 0 {
        let shape = if left_shapes.len() == 0 {
            copy_rows(&right_shapes[0])
        } else {
            copy_rows(&left_shapes[0])
        };
        let ghost sv = shape@;
        let mut inner: Vec<Vec<usize>> = Vec::new();
        inner.push(shape);
        let mut out: Vec<Vec<Vec<usize>>> = Vec::new();
        out.push(inner);
        assert(shapes_view(inner@) =~= seq![sv]);
        assert(sector_view(out@) =~= seq![seq![sv]]);
        return Ok(out);
    }
    let left = &left_shapes[0];
    let right = &right_shapes[0];
    assert(lv[0] == left@);
    assert(rv[0] == right@);
    if !rows_form_partition(left) || !rows_form_partition(right) {
        return Err(MixedSymmetryError::InvalidMixedTensorProduct);
    }
    let ghost dimv = seq_sum(left@) + seq_sum(right@);
    proof {
        assert(seq_sum(left@) <= 2);
        assert(seq_sum(right@) <= 2);
        lemma_seq_sum_nonneg(left@);
        lemma_seq_sum_nonneg(right@);
        lemma_normal_shape_size(right@);
        lemma_normal_shape_props(right@);
        lemma_lr_outcomes_count(left@, right@, dimv);
        lemma_ipow_mono(dimv, 4, seq_sum(right@) as nat);
        lemma_ipow_mono_exp(seq_sum(right@) as nat);
    }
    let total = sum_small(left) + sum_small(right);
    let table = littlewood_richardson(left, right, total);
    let ghost tv = table_view(table@);
    let ghost outcomes = lr_outcomes(left@, right@, dimv);
    let mut out: Vec<Vec<Vec<usize>>> = Vec::new();
    let mut k: usize = table.len();
    while k > 0
        invariant
            k <= table.len(),
            tv == table_view(table@),
            table_ok(tv),
            sorted_desc(tv),
            forall|t: Seq<usize>| #[trigger] pair_count(tv, t) == seq_count(outcomes, t),
            sector_view(out@).len() == table.len() - k,
            forall|i: int|
                0 <= i < sector_view(out@).len() ==> #[trigger] sector_view(out@)[i] == seq![tv[table.len() - 1 - i].0],
        decreases k,
    {
        k = k - 1;
        let key = copy_rows(&table[k].0);
        let ghost kv = key@;
        let mut inner: Vec<Vec<usize>> = Vec::new();
        inner.push(key);
        let ghost before = sector_view(out@);
        out.push(inner);
        assert(shapes_view(inner@) =~= seq![kv]);
        assert(sector_view(out@) =~= before.push(seq![kv]));
    }
    proof {
        let ov = sector_view(out@);
        let n = table.len() as int;
        assert forall|i: int| 0 <= i < ov.len() implies #[trigger] ov[i].len() == 1 by {}
        assert forall|i: int, j: int| 0 <= i < j < ov.len() implies lex_lt(ov[i][0], ov[j][0]) by {
            assert(ov[i][0] == tv[n - 1 - i].0);
            assert(ov[j][0] == tv[n - 1 - j].0);
        }
        assert forall|i: int| 0 <= i < ov.len() implies seq_count(outcomes, #[trigger] ov[i][0]) > 0 by {
            assert(ov[i][0] == tv[n - 1 - i].0);
            lemma_pair_count_entry(tv, n - 1 - i);
        }
        assert forall|s: Seq<usize>| #[trigger] seq_count(outcomes, s) > 0 implies exists|i: int|
            0 <= i < ov.len() && ov[i][0] == s by {
            assert(pair_count(tv, s) > 0);
            if forall|q: int| 0 <= q < tv.len() ==> tv[q].0 != s {
                crate::lr::lemma_pair_count_absent(tv, s);
            }
            let q = choose|q: int| 0 <= q < tv.len() && tv[q].0 == s;
            assert(ov[n - 1 - q][0] == tv[q].0);
        }
    }
    Ok(out)
}

proof fn lemma_ipow_mono_exp(e: nat)
    requires
        e <= 2,
    ensures
        ipow(4, e) <= 16,
{
    reveal_with_fuel(ipow, 3);
}

/// The number of boxes of a diagram with at most two of them.
fn sum_small(shape: &Vec<usize>) -> (s: usize)
    requires
        seq_sum(shape@) <= 2,
    ensures
        s == seq_sum(shape@),
{
    let mut total: usize = 0;
    let mut i: usize = 0;
    while i < shape.len()
        invariant
            i <= shape.len(),
            total == seq_sum(shape@.take(i as int)),
            seq_sum(shape@) <= 2,
        decreases shape.len() - i,
    {
        assert(shape@.take(i as int + 1).drop_last() =~= shape@.take(i as int));
        proof {
            lemma_sum_prefix_le(shape@, i as int + 1);
        }
        total = total + shape[i];
        i = i + 1;
    }
    assert(shape@.take(shape@.len() as int) =~= shape@);
    total
}


/// The summaries `(x, u[j], d[k])` for the first `m` entries `u[j]` of `u`,
/// `d` varying fastest.
pub open spec fn combos_row(
    x: Seq<Seq<usize>>,
    u: Seq<Seq<Seq<usize>>>,
    d: Seq<Seq<Seq<usize>>>,
    m: int,
) -> Seq<(Seq<Seq<usize>>, Seq<Seq<usize>>, Seq<Seq<usize>>)>
    decreases m,
{
    if m <= 0 {
        Seq::empty()
    } else {
        combos_row(x, u, d, m - 1) + d.map_values(|z: Seq<Seq<usize>>| (x, u[m - 1], z))
    }
}

/// Every combination `(t[i], u[j], d[k])` for the first `n` entries of `t`,
/// in nested order: `t` slowest, `d` fastest.
pub open spec fn combos(
    t: Seq<Seq<Seq<usize>>>,
    u: Seq<Seq<Seq<usize>>>,
    d: Seq<Seq<Seq<usize>>>,
    n: int,
) -> Seq<(Seq<Seq<usize>>, Seq<Seq<usize>>, Seq<Seq<usize>>)>
    decreases n,
{
    if n <= 0 {
        Seq::empty()
    } else {
        combos(t, u, d, n - 1) + combos_row(t[n - 1], u, d, u.len() as int)
    }
}

/// Summaries seen as triples of sectors.
pub open spec fn summaries_view(v: Seq<MixedIrrepSummary>) -> Seq<
    (Seq<Seq<usize>>, Seq<Seq<usize>>, Seq<Seq<usize>>),
> {
    v.map_values(|x: MixedIrrepSummary| summary_view(x))
}

/// The error of a product of two mixed symmetries, if any, in the order the
/// checks are made: validation and conflicts of the left side, then of the
/// right side, then the supported regime, then the diagrams of each sector.
pub open spec fn product_error(
    left: Seq<MixedTableauAttachment>,
    right: Seq<MixedTableauAttachment>,
    left_validated: Result<(), MixedSymmetryError>,
    right_validated: Result<(), MixedSymmetryError>,
) -> Option<MixedSymmetryError> {
    let ls = summary_spec(left);
    let rs = summary_spec(right);
    if left_validated is Err {
        Some(left_validated->Err_0)
    } else if any_conflict(left, left.len() as int) {
        Some(MixedSymmetryError::InvalidMixedTensorProduct)
    } else if right_validated is Err {
        Some(right_validated->Err_0)
    } else if any_conflict(right, right.len() as int) {
        Some(MixedSymmetryError::InvalidMixedTensorProduct)
    } else if !supported_regime(ls) || !supported_regime(rs) {
        Some(MixedSymmetryError::InvalidMixedTensorProduct)
    } else if !sector_valid(ls.0, rs.0) || !sector_valid(ls.1, rs.1) || !sector_valid(ls.2, rs.2) {
        Some(MixedSymmetryError::InvalidMixedTensorProduct)
    } else {
        None
    }
}

/// A product outcome: each sector decomposed as `sector_ok` says, and every
/// combination of one entry per sector, tensor sector slowest.
pub open spec fn product_ok(
    ls: (Seq<Seq<usize>>, Seq<Seq<usize>>, Seq<Seq<usize>>),
    rs: (Seq<Seq<usize>>, Seq<Seq<usize>>, Seq<Seq<usize>>),
    out: Seq<(Seq<Seq<usize>>, Seq<Seq<usize>>, Seq<Seq<usize>>)>,
) -> bool {
    exists|t: Seq<Seq<Seq<usize>>>, u: Seq<Seq<Seq<usize>>>, d: Seq<Seq<Seq<usize>>>|
        sector_ok(ls.0, rs.0, t) && sector_ok(ls.1, rs.1, u) && sector_ok(ls.2, rs.2, d)
            && #[trigger] combos(t, u, d, t.len() as int) == out
}

/// Copies a list of diagrams.
fn copy_shapes(v: &Vec<Vec<usize>>) -> (out: Vec<Vec<usize>>)
    ensures
        shapes_view(out@) == shapes_view(v@),
{
    let mut out: Vec<Vec<usize>> = Vec::new();
    let mut i: usize = 0;
    while i < v.len()
        invariant
            i <= v.len(),
            shapes_view(out@) == shapes_view(v@).take(i as int),
        decreases v.len() - i,
    {
        let row = copy_rows(&v[i]);
        let ghost before = shapes_view(out@);
        assert(row@ == shapes_view(v@)[i as int]);
        out.push(row);
        assert(shapes_view(out@) =~= before.push(shapes_view(v@)[i as int]));
        assert(shapes_view(out@) =~= shapes_view(v@).take(i as int + 1));
        i = i + 1;
    }
    assert(shapes_view(v@).take(v@.len() as int) =~= shapes_view(v@));
    out
}

/// Every combination of one entry per sector, tensor sector slowest and
/// dotted spinor sector fastest.
fn combine_sectors(
    tensor: &Vec<Vec<Vec<usize>>>,
    undotted: &Vec<Vec<Vec<usize>>>,
    dotted: &Vec<Vec<Vec<usize>>>,
) -> (out: Vec<MixedIrrepSummary>)
    ensures
        summaries_view(out@) == combos(
            sector_view(tensor@),
            sector_view(undotted@),
            sector_view(dotted@),
            tensor@.len() as int,
        ),
{
    let ghost tv = sector_view(tensor@);
    let ghost uv = sector_view(undotted@);
    let ghost dv = sector_view(dotted@);
    let mut out: Vec<MixedIrrepSummary> = Vec::new();
    let mut i: usize = 0;
    assert(summaries_view(out@) =~= combos(tv, uv, dv, 0));
    while i < tensor.len()
        invariant
            i <= tensor.len(),
            tv == sector_view(tensor@),
            uv == sector_view(undotted@),
            dv == sector_view(dotted@),
            summaries_view(out@) == combos(tv, uv, dv, i as int),
        decreases tensor.len() - i,
    {
        let ghost x = tv[i as int];
        let mut j: usize = 0;
        assert(combos(tv, uv, dv, i as int) + combos_row(x, uv, dv, 0) =~= combos(tv, uv, dv, i as int));
        while j < undotted.len()
            invariant
                i < tensor.len(),
                j <= undotted.len(),
                tv == sector_view(tensor@),
                uv == sector_view(undotted@),
                dv == sector_view(dotted@),
                x == tv[i as int],
                summaries_view(out@) == combos(tv, uv, dv, i as int) + combos_row(x, uv, dv, j as int),
            decreases undotted.len() - j,
        {
            let ghost y = uv[j as int];
            let ghost base = combos(tv, uv, dv, i as int) + combos_row(x, uv, dv, j as int);
            let mut k: usize = 0;
            assert(base + dv.take(0).map_values(|z: Seq<Seq<usize>>| (x, y, z)) =~= base);
            while k < dotted.len()
                invariant
                    i < tensor.len(),
                    j < undotted.len(),
                    k <= dotted.len(),
                    tv == sector_view(tensor@),
                    uv == sector_view(undotted@),
                    dv == sector_view(dotted@),
                    x == tv[i as int],
                    y == uv[j as int],
                    base == combos(tv, uv, dv, i as int) + combos_row(x, uv, dv, j as int),
                    summaries_view(out@) == base + dv.take(k as int).map_values(
                        |z: Seq<Seq<usize>>| (x, y, z),
                    ),
                decreases dotted.len() - k,
            {
                let ghost before = summaries_view(out@);
                let entry = MixedIrrepSummary {
                    tensor_shapes: copy_shapes(&tensor[i]),
                    undotted_spinor_shapes: copy_shapes(&undotted[j]),
                    dotted_spinor_shapes: copy_shapes(&dotted[k]),
                };
                assert(summary_view(entry) == (x, y, dv[k as int]));
                out.push(entry);
                assert(summaries_view(out@) =~= before.push((x, y, dv[k as int])));
                assert(dv.take(k as int + 1).map_values(|z: Seq<Seq<usize>>| (x, y, z)) =~= dv.take(
                    k as int,
                ).map_values(|z: Seq<Seq<usize>>| (x, y, z)).push((x, y, dv[k as int])));
                k = k + 1;
            }
            assert(dv.take(dv.len() as int) =~= dv);
            assert(combos_row(x, uv, dv, j as int + 1) == combos_row(x, uv, dv, j as int)
                + dv.map_values(|z: Seq<Seq<usize>>| (x, uv[j as int], z)));
            assert(summaries_view(out@) =~= combos(tv, uv, dv, i as int) + combos_row(x, uv, dv, j as int + 1));
            j = j + 1;
        }
        assert(combos(tv, uv, dv, i as int + 1) == combos(tv, uv, dv, i as int) + combos_row(
            tv[i as int],
            uv,
            dv,
            uv.len() as int,
        ));
        i = i + 1;
    }
    out
}

/// The decomposition of the product of two mixed symmetries in the small
/// regime: every combination of one diagram per sector, each sector's
/// product in ascending order, the combinations ordered by tensor sector,
/// then undotted, then dotted. `left_validated` and `right_validated` are
/// the outcomes of validating the two symmetries.
pub fn decompose_small_mixed_product(
    left: &MixedTensorSymmetry,
    right: &MixedTensorSymmetry,
    left_validated: Result<(), MixedSymmetryError>,
    right_validated: Result<(), MixedSymmetryError>,
) -> (r: Result<Vec<MixedIrrepSummary>, MixedSymmetryError>)
    ensures
        r is Err <==> product_error(left.tableaux@, right.tableaux@, left_validated, right_validated) is Some,
        r matches Err(e) ==> product_error(left.tableaux@, right.tableaux@, left_validated, right_validated)
            == Some(e),
        r matches Ok(out) ==> product_ok(summary_spec(left.tableaux@), summary_spec(right.tableaux@), summaries_view(out@)),
{
    let left_summary = match summarize_mixed_tensor_symmetry(left, left_validated) {
        Ok(s) => s,
        Err(e) => { return Err(e); },
    };
    let right_summary = match summarize_mixed_tensor_symmetry(right, right_validated) {
        Ok(s) => s,
        Err(e) => { return Err(e); },
    };
    let ghost ls = summary_view(left_summary);
    let ghost rs = summary_view(right_summary);
    if let Err(e) = ensure_supported_regime(left_validated, &left_summary) {
        return Err(e);
    }
    if let Err(e) = ensure_supported_regime(right_validated, &right_summary) {
        return Err(e);
    }
    let tensor = match decompose_sector(&left_summary.tensor_shapes, &right_summary.tensor_shapes) {
        Ok(v) => v,
        Err(e) => { return Err(e); },
    };
    let undotted = match decompose_sector(
        &left_summary.undotted_spinor_shapes,
        &right_summary.undotted_spinor_shapes,
    ) {
        Ok(v) => v,
        Err(e) => { return Err(e); },
    };
    let dotted = match decompose_sector(
        &left_summary.dotted_spinor_shapes,
        &right_summary.dotted_spinor_shapes,
    ) {
        Ok(v) => v,
        Err(e) => { return Err(e); },
    };
    let out = combine_sectors(&tensor, &undotted, &dotted);
    proof {
        let t = sector_view(tensor@);
        let u = sector_view(undotted@);
        let d = sector_view(dotted@);
        assert(sector_ok(ls.0, rs.0, t) && sector_ok(ls.1, rs.1, u) && sector_ok(ls.2, rs.2, d)
            && combos(t, u, d, t.len() as int) == summaries_view(out@));
    }
    Ok(out)
}

/// Lists of diagrams compared as `Vec<Vec<usize>>` compares: entry by entry
/// lexicographically, a proper prefix first.
pub open spec fn lex2_lt(a: Seq<Seq<usize>>, b: Seq<Seq<usize>>) -> bool
    decreases a.len(),
{
    if a.len() == 0 {
        b.len() > 0
    } else if b.len() == 0 {
        false
    } else if lex_lt(a[0], b[0]) {
        true
    } else if a[0] == b[0] {
        lex2_lt(a.drop_first(), b.drop_first())
    } else {
        false
    }
}

/// Summaries ordered by tensor sector, then undotted, then dotted.
pub open spec fn summary_lt(
    a: (Seq<Seq<usize>>, Seq<Seq<usize>>, Seq<Seq<usize>>),
    b: (Seq<Seq<usize>>, Seq<Seq<usize>>, Seq<Seq<usize>>),
) -> bool {
    ||| lex2_lt(a.0, b.0)
    ||| a.0 == b.0 && lex2_lt(a.1, b.1)
    ||| a.0 == b.0 && a.1 == b.1 && lex2_lt(a.2, b.2)
}

/// The entries strictly increase.
pub open spec fn strictly_sorted2(s: Seq<Seq<Seq<usize>>>) -> bool {
    forall|i: int, j: int| 0 <= i < j < s.len() ==> lex2_lt(s[i], s[j])
}

proof fn lemma_sector_sorted(left: Seq<Seq<usize>>, right: Seq<Seq<usize>>, out: Seq<Seq<Seq<usize>>>)
    requires
        sector_ok(left, right, out),
    ensures
        strictly_sorted2(out),
{
    if left.len() > 0 && right.len() > 0 {
        assert forall|i: int, j: int| 0 <= i < j < out.len() implies lex2_lt(out[i], out[j]) by {
            assert(out[i].len() == 1 && out[j].len() == 1);
            assert(lex_lt(out[i][0], out[j][0]));
        }
    }
}

/// `e` is `(x, u[j], d[k])` for some `j < m` and `k`.
pub open spec fn row_member(
    e: (Seq<Seq<usize>>, Seq<Seq<usize>>, Seq<Seq<usize>>),
    x: Seq<Seq<usize>>,
    u: Seq<Seq<Seq<usize>>>,
    d: Seq<Seq<Seq<usize>>>,
    m: int,
) -> bool {
    exists|j: int, k: int| #![trigger u[j], d[k]] 0 <= j < m && 0 <= k < d.len() && e == (x, u[j], d[k])
}

/// `e` is `(t[a], u[j], d[k])` for some `a < n`, `j` and `k`.
pub open spec fn combo_member(
    e: (Seq<Seq<usize>>, Seq<Seq<usize>>, Seq<Seq<usize>>),
    t: Seq<Seq<Seq<usize>>>,
    u: Seq<Seq<Seq<usize>>>,
    d: Seq<Seq<Seq<usize>>>,
    n: int,
) -> bool {
    exists|a: int| #![trigger t[a]] 0 <= a < n && e.0 == t[a] && row_member(e, t[a], u, d, u.len() as int)
}

/// Every entry of a row of combinations is `(x, u[j], d[k])` for some
/// `j < m`.
proof fn lemma_combos_row_members(
    x: Seq<Seq<usize>>,
    u: Seq<Seq<Seq<usize>>>,
    d: Seq<Seq<Seq<usize>>>,
    m: int,
)
    requires
        0 <= m <= u.len(),
    ensures
        forall|i: int|
            0 <= i < combos_row(x, u, d, m).len() ==> row_member(#[trigger] combos_row(x, u, d, m)[i], x, u, d, m),
    decreases m,
{
    if m > 0 {
        lemma_combos_row_members(x, u, d, m - 1);
        let prev = combos_row(x, u, d, m - 1);
        let blk = d.map_values(|z: Seq<Seq<usize>>| (x, u[m - 1], z));
        let cur = combos_row(x, u, d, m);
        assert(cur == prev + blk);
        assert forall|i: int| 0 <= i < cur.len() implies row_member(#[trigger] cur[i], x, u, d, m) by {
            if i < prev.len() {
                assert(cur[i] == prev[i]);
                assert(row_member(prev[i], x, u, d, m - 1));
                let (j, k) = choose|j: int, k: int| #![trigger u[j], d[k]]
                    0 <= j < m - 1 && 0 <= k < d.len() && prev[i] == (x, u[j], d[k]);
                assert(cur[i] == (x, u[j], d[k]));
            } else {
                let k = i - prev.len();
                assert(cur[i] == blk[k]);
                assert(cur[i] == (x, u[m - 1], d[k]));
            }
        }
    }
}

/// Every entry of the combinations of the first `n` entries of `t` is
/// `(t[a], u[j], d[k])` for some `a < n`.
proof fn lemma_combos_members(
    t: Seq<Seq<Seq<usize>>>,
    u: Seq<Seq<Seq<usize>>>,
    d: Seq<Seq<Seq<usize>>>,
    n: int,
)
    requires
        0 <= n <= t.len(),
    ensures
        forall|i: int|
            0 <= i < combos(t, u, d, n).len() ==> combo_member(#[trigger] combos(t, u, d, n)[i], t, u, d, n),
    decreases n,
{
    if n > 0 {
        lemma_combos_members(t, u, d, n - 1);
        lemma_combos_row_members(t[n - 1], u, d, u.len() as int);
        let prev = combos(t, u, d, n - 1);
        let row = combos_row(t[n - 1], u, d, u.len() as int);
        let cur = combos(t, u, d, n);
        assert(cur == prev + row);
        assert forall|i: int| 0 <= i < cur.len() implies combo_member(#[trigger] cur[i], t, u, d, n) by {
            if i < prev.len() {
                assert(cur[i] == prev[i]);
                assert(combo_member(prev[i], t, u, d, n - 1));
                let a = choose|a: int| #![trigger t[a]]
                    0 <= a < n - 1 && prev[i].0 == t[a] && row_member(prev[i], t[a], u, d, u.len() as int);
                assert(cur[i].0 == t[a]);
            } else {
                let q = i - prev.len();
                assert(cur[i] == row[q]);
                assert(row_member(row[q], t[n - 1], u, d, u.len() as int));
                let (j, k) = choose|j: int, k: int| #![trigger u[j], d[k]]
                    0 <= j < u.len() && 0 <= k < d.len() && row[q] == (t[n - 1], u[j], d[k]);
                assert(cur[i].0 == t[n - 1]);
            }
        }
    }
}

proof fn lemma_combos_row_sorted(
    x: Seq<Seq<usize>>,
    u: Seq<Seq<Seq<usize>>>,
    d: Seq<Seq<Seq<usize>>>,
    m: int,
)
    requires
        0 <= m <= u.len(),
        strictly_sorted2(u),
        strictly_sorted2(d),
    ensures
        forall|i: int, j: int|
            0 <= i < j < combos_row(x, u, d, m).len() ==> summary_lt(
                combos_row(x, u, d, m)[i],
                combos_row(x, u, d, m)[j],
            ),
    decreases m,
{
    if m > 0 {
        lemma_combos_row_sorted(x, u, d, m - 1);
        lemma_combos_row_members(x, u, d, m - 1);
        let prev = combos_row(x, u, d, m - 1);
        let blk = d.map_values(|z: Seq<Seq<usize>>| (x, u[m - 1], z));
        let cur = combos_row(x, u, d, m);
        assert(cur == prev + blk);
        assert forall|i: int, j: int| 0 <= i < j < cur.len() implies summary_lt(cur[i], cur[j]) by {
            if j < prev.len() {
                assert(cur[i] == prev[i] && cur[j] == prev[j]);
            } else if i < prev.len() {
                assert(row_member(prev[i], x, u, d, m - 1));
                let (ji, ki) = choose|ji: int, ki: int| #![trigger u[ji], d[ki]]
                    0 <= ji < m - 1 && 0 <= ki < d.len() && prev[i] == (x, u[ji], d[ki]);
                assert(cur[i] == (x, u[ji], d[ki]));
                assert(cur[j] == blk[j - prev.len()]);
                assert(lex2_lt(u[ji], u[m - 1]));
            } else {
                assert(cur[i] == blk[i - prev.len()]);
                assert(cur[j] == blk[j - prev.len()]);
                assert(lex2_lt(d[i - prev.len()], d[j - prev.len()]));
            }
        }
    }
}

proof fn lemma_combos_sorted(
    t: Seq<Seq<Seq<usize>>>,
    u: Seq<Seq<Seq<usize>>>,
    d: Seq<Seq<Seq<usize>>>,
    n: int,
)
    requires
        0 <= n <= t.len(),
        strictly_sorted2(t),
        strictly_sorted2(u),
        strictly_sorted2(d),
    ensures
        forall|i: int, j: int|
            0 <= i < j < combos(t, u, d, n).len() ==> summary_lt(combos(t, u, d, n)[i], combos(t, u, d, n)[j]),
    decreases n,
{
    if n > 0 {
        lemma_combos_sorted(t, u, d, n - 1);
        lemma_combos_members(t, u, d, n - 1);
        lemma_combos_row_sorted(t[n - 1], u, d, u.len() as int);
        lemma_combos_row_members(t[n - 1], u, d, u.len() as int);
        let prev = combos(t, u, d, n - 1);
        let row = combos_row(t[n - 1], u, d, u.len() as int);
        let cur = combos(t, u, d, n);
        assert(cur == prev + row);
        assert forall|i: int, j: int| 0 <= i < j < cur.len() implies summary_lt(cur[i], cur[j]) by {
            if j < prev.len() {
                assert(cur[i] == prev[i] && cur[j] == prev[j]);
            } else if i < prev.len() {
                assert(combo_member(prev[i], t, u, d, n - 1));
                let a = choose|a: int| #![trigger t[a]]
                    0 <= a < n - 1 && prev[i].0 == t[a] && row_member(prev[i], t[a], u, d, u.len() as int);
                assert(cur[i].0 == t[a]);
                let q = j - prev.len();
                assert(cur[j] == row[q]);
                assert(row_member(row[q], t[n - 1], u, d, u.len() as int));
                let (jj, kj) = choose|jj: int, kj: int| #![trigger u[jj], d[kj]]
                    0 <= jj < u.len() && 0 <= kj < d.len() && row[q] == (t[n - 1], u[jj], d[kj]);
                assert(cur[j].0 == t[n - 1]);
                assert(lex2_lt(t[a], t[n - 1]));
            } else {
                assert(cur[i] == row[i - prev.len()]);
                assert(cur[j] == row[j - prev.len()]);
            }
        }
    }
}

/// The decomposition of a small mixed product comes out in strictly
/// increasing order of tensor sector, then undotted, then dotted sector,
/// each compared as lists of diagrams.
pub proof fn lemma_product_sorted(
    ls: (Seq<Seq<usize>>, Seq<Seq<usize>>, Seq<Seq<usize>>),
    rs: (Seq<Seq<usize>>, Seq<Seq<usize>>, Seq<Seq<usize>>),
    out: Seq<(Seq<Seq<usize>>, Seq<Seq<usize>>, Seq<Seq<usize>>)>,
)
    requires
        product_ok(ls, rs, out),
    ensures
        forall|i: int, j: int| 0 <= i < j < out.len() ==> summary_lt(out[i], out[j]),
{
    let (t, u, d) = choose|t: Seq<Seq<Seq<usize>>>, u: Seq<Seq<Seq<usize>>>, d: Seq<Seq<Seq<usize>>>|
        sector_ok(ls.0, rs.0, t) && sector_ok(ls.1, rs.1, u) && sector_ok(ls.2, rs.2, d)
            && #[trigger] combos(t, u, d, t.len() as int) == out;
    lemma_sector_sorted(ls.0, rs.0, t);
    lemma_sector_sorted(ls.1, rs.1, u);
    lemma_sector_sorted(ls.2, rs.2, d);
    lemma_combos_sorted(t, u, d, t.len() as int);
}

} // verus!
