//! Ordering lists of Young diagrams lexicographically (as `Vec<usize>`
//! compares), ascending.
use vstd::prelude::*;
use vstd::relations::{sorted_by, total_ordering};
use crate::lr::{
    lemma_lex_asymmetric, lemma_lex_irreflexive, lemma_lex_total, lemma_lex_transitive, lex_lt,
    rows_lex_less,
};
use crate::shape::{copy_rows, shapes_view};

verus! {

/// `a` comes no later than `b` lexicographically.
pub open spec fn lex_le(a: Seq<usize>, b: Seq<usize>) -> bool {
    a == b || lex_lt(a, b)
}

/// The diagrams sorted ascending lexicographically.
pub open spec fn sorted_shapes(list: Seq<Seq<usize>>) -> Seq<Seq<usize>> {
    list.sort_by(|a: Seq<usize>, b: Seq<usize>| lex_le(a, b))
}

pub proof fn lemma_lex_le_total()
    ensures
        total_ordering(|a: Seq<usize>, b: Seq<usize>| lex_le(a, b)),
{
    let leq = |a: Seq<usize>, b: Seq<usize>| lex_le(a, b);
    assert forall|a: Seq<usize>, b: Seq<usize>| #[trigger] leq(a, b) && leq(b, a) implies a == b by {
        if a != b {
            lemma_lex_asymmetric(a, b);
        }
    }
    assert forall|a: Seq<usize>, b: Seq<usize>, c: Seq<usize>|
        #[trigger] leq(a, b) && #[trigger] leq(b, c) implies leq(a, c) by {
        if a != b && b != c {
            lemma_lex_transitive(a, b, c);
        }
    }
    assert forall|a: Seq<usize>, b: Seq<usize>| #[trigger] leq(a, b) || leq(b, a) by {
        if a != b {
            lemma_lex_total(a, b);
        }
    }
    assert(vstd::relations::reflexive(leq));
    assert(vstd::relations::antisymmetric(leq));
    assert(vstd::relations::transitive(leq));
    assert(vstd::relations::strongly_connected(leq));
}

/// The list of diagrams sorted ascending lexicographically.
pub fn sort_shapes(list: &Vec<Vec<usize>>) -> (out: Vec<Vec<usize>>)
    ensures
        shapes_view(out@) == sorted_shapes(shapes_view(list@)),
{
    let ghost lv = shapes_view(list@);
    let mut out: Vec<Vec<usize>> = Vec::new();
    let mut i: usize = 0;
    assert(lv.take(0) =~= Seq::<Seq<usize>>::empty());
    assert(shapes_view(out@) =~= Seq::<Seq<usize>>::empty());
    while i < list.len()
        invariant
            lv == shapes_view(list@),
            i <= list.len(),
            shapes_view(out@).to_multiset() == lv.take(i as int).to_multiset(),
            forall|a: int, b: int|
                0 <= a < b < out@.len() ==> lex_le(#[trigger] shapes_view(out@)[a], #[trigger] shapes_view(out@)[b]),
        decreases list.len() - i,
    {
        let key = copy_rows(&list[i]);
        let ghost k = key@;
        let ghost ov = shapes_view(out@);
        let mut pos: usize = 0;
        while pos < out.len() && !rows_lex_less(&key, &out[pos])
            invariant
                pos <= out.len(),
                ov == shapes_view(out@),
                k == key@,
                forall|q: int| 0 <= q < pos ==> !lex_lt(k, #[trigger] ov[q]),
            decreases out.len() - pos,
        {
            pos = pos + 1;
        }
        out.insert(pos, key);
        proof {
            let nv = shapes_view(out@);
            assert(nv =~= ov.insert(pos as int, k));
            vstd::seq_lib::to_multiset_insert(ov, pos as int, k);
            assert(lv.take(i as int + 1) =~= lv.take(i as int).push(lv[i as int]));
            vstd::seq_lib::to_multiset_build(lv.take(i as int), lv[i as int]);
            assert(lv[i as int] == k);
            assert forall|a: int, b: int| 0 <= a < b < nv.len() implies lex_le(#[trigger] nv[a], #[trigger] nv[b]) by {
                if b < pos {
                } else if a < pos && b == pos {
                    if ov[a] != k {
                        lemma_lex_total(ov[a], k);
                    }
                } else if a < pos && b > pos {
                    assert(nv[b] == ov[b - 1]);
                } else if a == pos {
                    assert(nv[b] == ov[b - 1]);
                    assert(lex_lt(k, ov[pos as int]));
                    if b - 1 > pos {
                        assert(lex_le(ov[pos as int], ov[b - 1]));
                        if ov[pos as int] != ov[b - 1] {
                            lemma_lex_transitive(k, ov[pos as int], ov[b - 1]);
                        }
                    }
                } else {
                    assert(nv[b] == ov[b - 1]);
                    assert(nv[a] == ov[a - 1]);
                }
            }
        }
        i = i + 1;
    }
    proof {
        let leq = |a: Seq<usize>, b: Seq<usize>| lex_le(a, b);
        assert(lv.take(lv.len() as int) =~= lv);
        lemma_lex_le_total();
        lv.lemma_sort_by_ensures(leq);
        assert(sorted_by(shapes_view(out@), leq));
        vstd::seq_lib::lemma_sorted_unique(shapes_view(out@), sorted_shapes(lv), leq);
    }
    out
}

} // verus!
