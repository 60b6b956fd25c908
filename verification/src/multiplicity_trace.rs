//! The decomposition of a tensor product of Young diagrams as a summary of
//! the diagrams reached, ascending, with the diagrams that occur more than
//! once singled out for a basis trace.
use vstd::prelude::*;
use crate::lr::{lex_lt, pair_count, seq_count, sorted_desc, table_ok, table_view, lemma_pair_count_entry, lemma_pair_count_absent};
use crate::product::{lr_product_decomposition, product_list, total_boxes};
use crate::shape::{copy_rows, is_partition, positive_rows, shapes_view};

verus! {

/// The diagrams of a product, ascending, with their multiplicities.
pub struct ProductSummary {
    pub shapes: Vec<Vec<usize>>,
    pub multiplicities: Vec<usize>,
}

/// A diagram of a product that occurs more than once, with its multiplicity.
pub struct MultiplicityTrace {
    pub target: Vec<usize>,
    pub multiplicity: usize,
}

/// Why a product cannot be decomposed.
#[derive(Debug, Clone, Copy, PartialEq, Eq, Structural)]
pub enum MultiplicityTraceError {
    /// A factor is not a Young diagram: no rows, or rows that are not
    /// positive and non-increasing.
    InvalidDiagram,
}

/// The text that describes each error.
pub open spec fn trace_error_text(e: MultiplicityTraceError) -> Seq<char> {
    match e {
        MultiplicityTraceError::InvalidDiagram => "failed to compute tensor-product multiplicity trace"@,
    }
}

impl MultiplicityTraceError {
    /// The text that describes the error.
    pub fn message(&self) -> (m: String)
        ensures
            m@ == trace_error_text(*self),
    {
        match self {
            MultiplicityTraceError::InvalidDiagram => "failed to compute tensor-product multiplicity trace".to_owned(),
        }
    }
}

/// A Young diagram: at least one row, rows positive and non-increasing.
pub open spec fn valid_diagram(shape: Seq<usize>) -> bool {
    shape.len() > 0 && is_partition(shape)
}

/// The summary's diagrams with their multiplicities.
pub open spec fn summary_pairs(s: ProductSummary) -> Seq<(Seq<usize>, usize)> {
    Seq::new(s.shapes@.len(), |i: int| (s.shapes@[i]@, s.multiplicities@[i]))
}

/// The entries among the first `n` with a multiplicity above one, in order.
pub open spec fn repeated_entries(pairs: Seq<(Seq<usize>, usize)>, n: int) -> Seq<(Seq<usize>, usize)>
    decreases n,
{
    if n <= 0 {
        Seq::empty()
    } else if pairs[n - 1].1 > 1 {
        repeated_entries(pairs, n - 1).push(pairs[n - 1])
    } else {
        repeated_entries(pairs, n - 1)
    }
}

/// The traces as pairs of target and multiplicity.
pub open spec fn traces_view(t: Seq<MultiplicityTrace>) -> Seq<(Seq<usize>, usize)> {
    t.map_values(|x: MultiplicityTrace| (x.target@, x.multiplicity))
}

/// A correct summary of the product of `shapes`, taken with as many rows
/// as the product has boxes: every diagram reached once, ascending, with
/// its number of occurrences.
pub open spec fn summary_ok(shapes: Seq<Seq<usize>>, s: ProductSummary) -> bool {
    let prod = product_list(shapes, total_boxes(shapes));
    let p = summary_pairs(s);
    &&& s.multiplicities@.len() == s.shapes@.len()
    &&& forall|i: int, j: int| 0 <= i < j < p.len() ==> lex_lt(p[i].0, p[j].0)
    &&& forall|i: int| 0 <= i < p.len() ==> #[trigger] p[i].1 == seq_count(prod, p[i].0) && p[i].1 > 0
    &&& forall|t: Seq<usize>|
        #[trigger] seq_count(prod, t) > 0 ==> exists|i: int| 0 <= i < p.len() && p[i].0 == t
}

fn all_valid(shapes: &[Vec<usize>]) -> (b: bool)
    ensures
        b == forall|i: int| 0 <= i < shapes@.len() ==> valid_diagram(#[trigger] shapes@[i]@),
{
    let mut i: usize = 0;
    while i < shapes.len()
        invariant
            i <= shapes.len(),
            forall|q: int| 0 <= q < i ==> valid_diagram(#[trigger] shapes@[q]@),
        decreases shapes.len() - i,
    {
        let s = &shapes[i];
        if s.len() == 0 || !crate::mixed::rows_form_partition(s) {
            assert(!valid_diagram(shapes@[i as int]@));
            return false;
        }
        i = i + 1;
    }
    true
}

fn sum_boxes(shapes: &[Vec<usize>]) -> (t: usize)
    requires
        total_boxes(shapes_view(shapes@)) < usize::MAX,
    ensures
        t == total_boxes(shapes_view(shapes@)),
{
    let ghost sv = shapes_view(shapes@);
    let mut t: usize = 0;
    let mut i: usize = 0;
    while i < shapes.len()
        invariant
            i <= shapes.len(),
            sv == shapes_view(shapes@),
            total_boxes(sv) < usize::MAX,
            t == total_boxes(sv.take(i as int)),
        decreases shapes.len() - i,
    {
        proof {
            crate::product::lemma_total_boxes_prefix(sv, i as int + 1);
            assert(sv.take(i as int + 1).drop_last() =~= sv.take(i as int));
        }
        let s = &shapes[i];
        let mut k: usize = 0;
        let ghost row_start = t;
        while k < s.len()
            invariant
                k <= s.len(),
                i < shapes.len(),
                s@ == sv[i as int],
                sv == shapes_view(shapes@),
                row_start == total_boxes(sv.take(i as int)),
                total_boxes(sv.take(i as int + 1)) < usize::MAX,
                total_boxes(sv.take(i as int + 1)) == row_start + crate::shape::seq_sum(s@),
                t == row_start + crate::shape::seq_sum(s@.take(k as int)),
            decreases s.len() - k,
        {
            proof {
                crate::mixed::lemma_sum_prefix_le(s@, k as int + 1);
                assert(s@.take(k as int + 1).drop_last() =~= s@.take(k as int));
            }
            t = t + s[k];
            k = k + 1;
        }
        assert(s@.take(s@.len() as int) =~= s@);
        i = i + 1;
    }
    assert(sv.take(sv.len() as int) =~= sv);
    t
}

/// The decomposition of the tensor product of the diagrams `shapes`, taken
/// with as many rows as the product has boxes: the summary of every diagram
/// reached, ascending, with its multiplicity, and one trace for each
/// diagram reached more than once, in the same order. A factor that is not
/// a Young diagram is an error.
pub fn decompose_product_with_basis_trace(shapes: &[Vec<usize>]) -> (r: Result<
    (ProductSummary, Vec<MultiplicityTrace>),
    MultiplicityTraceError,
>)
    requires
        forall|i: int| 0 <= i < shapes.len() ==> positive_rows(#[trigger] shapes[i]@).len() <= 254,
        total_boxes(shapes_view(shapes@)) < usize::MAX,
        forall|k: int|
            1 <= k <= shapes.len() ==> #[trigger] product_list(
                shapes_view(shapes@).take(k),
                total_boxes(shapes_view(shapes@)),
            ).len() <= usize::MAX,
    ensures
        r is Err <==> exists|i: int| 0 <= i < shapes@.len() && !valid_diagram(#[trigger] shapes@[i]@),
        r matches Ok(p) ==> summary_ok(shapes_view(shapes@), p.0) && traces_view(p.1@)
            == repeated_entries(summary_pairs(p.0), summary_pairs(p.0).len() as int),
{
    if !all_valid(shapes) {
        return Err(MultiplicityTraceError::InvalidDiagram);
    }
    let ghost sv = shapes_view(shapes@);
    let total = sum_boxes(shapes);
    let table = lr_product_decomposition(shapes, total);
    let ghost tv = table_view(table@);
    let ghost prod = product_list(sv, total as int);
    let mut names: Vec<Vec<usize>> = Vec::new();
    let mut counts: Vec<usize> = Vec::new();
    let mut traces: Vec<MultiplicityTrace> = Vec::new();
    let mut k: usize = table.len();
    let ghost n = table.len() as int;
    while k > 0
        invariant
            k <= table.len(),
            n == table.len(),
            tv == table_view(table@),
            table_ok(tv),
            sorted_desc(tv),
            names@.len() == counts@.len(),
            names@.len() == n - k,
            forall|i: int| 0 <= i < names@.len() ==> #[trigger] names@[i]@ == tv[n - 1 - i].0,
            forall|i: int| 0 <= i < counts@.len() ==> #[trigger] counts@[i] == tv[n - 1 - i].1,
            traces_view(traces@) == repeated_entries(
                summary_pairs(ProductSummary { shapes: names, multiplicities: counts }),
                names@.len() as int,
            ),
        decreases k,
    {
        k = k - 1;
        let ghost before = summary_pairs(ProductSummary { shapes: names, multiplicities: counts });
        let ghost tbefore = traces_view(traces@);
        let key = copy_rows(&table[k].0);
        let count = table[k].1;
        names.push(key);
        counts.push(count);
        let ghost after = summary_pairs(ProductSummary { shapes: names, multiplicities: counts });
        assert(after.len() == before.len() + 1);
        assert(after.take(before.len() as int) =~= before);
        proof {
            assert forall|m: int| 0 <= m <= before.len() implies repeated_entries(after, m)
                == repeated_entries(before, m) by {
                lemma_repeated_prefix(after, before, m);
            }
        }
        if count > 1 {
            let t = MultiplicityTrace { target: copy_rows(&table[k].0), multiplicity: count };
            traces.push(t);
            assert(traces_view(traces@) =~= tbefore.push((tv[k as int].0, count)));
        } else {
            assert(traces_view(traces@) =~= tbefore);
        }
        assert(after[before.len() as int] == (tv[k as int].0, count));
    }
    let summary = ProductSummary { shapes: names, multiplicities: counts };
    proof {
        let p = summary_pairs(summary);
        assert forall|i: int, j: int| 0 <= i < j < p.len() implies lex_lt(p[i].0, p[j].0) by {
            assert(p[i].0 == tv[n - 1 - i].0);
            assert(p[j].0 == tv[n - 1 - j].0);
        }
        assert forall|i: int| 0 <= i < p.len() implies #[trigger] p[i].1 == seq_count(prod, p[i].0)
            && p[i].1 > 0 by {
            lemma_pair_count_entry(tv, n - 1 - i);
            assert(pair_count(tv, tv[n - 1 - i].0) == seq_count(prod, tv[n - 1 - i].0));
        }
        assert forall|t: Seq<usize>| #[trigger] seq_count(prod, t) > 0 implies exists|i: int|
            0 <= i < p.len() && p[i].0 == t by {
            assert(pair_count(tv, t) > 0);
            if forall|q: int| 0 <= q < tv.len() ==> tv[q].0 != t {
                lemma_pair_count_absent(tv, t);
            }
            let q = choose|q: int| 0 <= q < tv.len() && tv[q].0 == t;
            assert(p[n - 1 - q].0 == tv[q].0);
        }
    }
    Ok((summary, traces))
}

proof fn lemma_repeated_prefix(a: Seq<(Seq<usize>, usize)>, b: Seq<(Seq<usize>, usize)>, m: int)
    requires
        0 <= m <= b.len(),
        b.len() <= a.len(),
        a.take(b.len() as int) == b,
    ensures
        repeated_entries(a, m) == repeated_entries(b, m),
    decreases m,
{
    if m > 0 {
        assert(a[m - 1] == a.take(b.len() as int)[m - 1]);
        lemma_repeated_prefix(a, b, m - 1);
    }
}

} // verus!
