//! The lattice-word (Yamanouchi) condition on labelled boxes, read row by row
//! from the top, right to left within a row.
use vstd::prelude::*;

verus! {

/// A labelled box: row, column, label.
pub type Cell = (usize, usize, u8);

/// Box `a` is read strictly before box `b`: an earlier row, or the same row
/// further right.
pub open spec fn reads_before(a: Cell, b: Cell) -> bool {
    a.0 < b.0 || (a.0 == b.0 && a.1 > b.1)
}

/// Where a stable sort puts `x` among the already sorted `s`: before the
/// first box that `x` is read strictly before.
pub open spec fn insert_pos(s: Seq<Cell>, x: Cell) -> int
    decreases s.len(),
{
    if s.len() == 0 {
        0
    } else if reads_before(x, s[0]) {
        0
    } else {
        1 + insert_pos(s.drop_first(), x)
    }
}

/// The boxes in reading order, boxes read at the same time keeping their
/// given order (a stable sort by row, then by column from the right).
pub open spec fn reading_word(cells: Seq<Cell>) -> Seq<Cell>
    decreases cells.len(),
{
    if cells.len() == 0 {
        Seq::empty()
    } else {
        let w = reading_word(cells.drop_last());
        w.insert(insert_pos(w, cells.last()), cells.last())
    }
}

/// The largest label among the boxes, zero when there is none.
pub open spec fn max_label(cells: Seq<Cell>) -> int
    decreases cells.len(),
{
    if cells.len() == 0 {
        0
    } else {
        let m = max_label(cells.drop_last());
        if cells.last().2 as int > m {
            cells.last().2 as int
        } else {
            m
        }
    }
}

/// The number of boxes labelled `l`.
pub open spec fn label_count(w: Seq<Cell>, l: int) -> nat
    decreases w.len(),
{
    if w.len() == 0 {
        0
    } else {
        label_count(w.drop_last(), l) + if w.last().2 as int == l {
            1nat
        } else {
            0nat
        }
    }
}

/// After each box of the reading word, for every label `i` with
/// `1 <= i < max_label`, at least as many `i` as `i + 1` have been read.
pub open spec fn lattice_ok(cells: Seq<Cell>) -> bool {
    let w = reading_word(cells);
    let m = max_label(cells);
    forall|p: int, i: int|
        1 <= p <= w.len() && 1 <= i < m ==> #[trigger] label_count(w.take(p), i) >= label_count(
            w.take(p),
            i + 1,
        )
}

proof fn lemma_insert_pos_bounds(s: Seq<Cell>, x: Cell)
    ensures
        0 <= insert_pos(s, x) <= s.len(),
    decreases s.len(),
{
    if s.len() > 0 && !reads_before(x, s[0]) {
        lemma_insert_pos_bounds(s.drop_first(), x);
    }
}

proof fn lemma_insert_pos_is_first(s: Seq<Cell>, x: Cell, j: int)
    requires
        0 <= j <= s.len(),
        forall|k: int| 0 <= k < j ==> !reads_before(x, #[trigger] s[k]),
        j < s.len() ==> reads_before(x, s[j]),
    ensures
        insert_pos(s, x) == j,
    decreases s.len(),
{
    if s.len() > 0 && j > 0 {
        assert(!reads_before(x, s[0]));
        assert forall|k: int| 0 <= k < j - 1 implies !reads_before(x, #[trigger] s.drop_first()[k]) by {
            assert(s.drop_first()[k] == s[k + 1]);
        }
        lemma_insert_pos_is_first(s.drop_first(), x, j - 1);
    }
}

proof fn lemma_reading_word_len(cells: Seq<Cell>)
    ensures
        reading_word(cells).len() == cells.len(),
        forall|i: int|
            0 <= i < reading_word(cells).len() ==> #[trigger] reading_word(cells)[i].2 as int
                <= max_label(cells),
    decreases cells.len(),
{
    if cells.len() > 0 {
        lemma_reading_word_len(cells.drop_last());
        let w = reading_word(cells.drop_last());
        lemma_insert_pos_bounds(w, cells.last());
        let p = insert_pos(w, cells.last());
        let w2 = w.insert(p, cells.last());
        assert forall|i: int| 0 <= i < w2.len() implies #[trigger] w2[i].2 as int <= max_label(
            cells,
        ) by {
            if i < p {
                assert(w2[i] == w[i]);
            } else if i > p {
                assert(w2[i] == w[i - 1]);
            }
        }
    }
}

proof fn lemma_max_label_bound(cells: Seq<Cell>)
    ensures
        0 <= max_label(cells) <= 255,
    decreases cells.len(),
{
    if cells.len() > 0 {
        lemma_max_label_bound(cells.drop_last());
    }
}

proof fn lemma_label_count_bound(w: Seq<Cell>, l: int)
    ensures
        label_count(w, l) <= w.len(),
    decreases w.len(),
{
    if w.len() > 0 {
        lemma_label_count_bound(w.drop_last(), l);
    }
}

/// The boxes sorted into reading order.
fn reading_order(cells: &[Cell]) -> (word: Vec<Cell>)
    ensures
        word@ == reading_word(cells@),
{
    let mut word: Vec<Cell> = Vec::new();
    let mut i: usize = 0;
    while i < cells.len()
        invariant
            i <= cells.len(),
            word@ == reading_word(cells@.take(i as int)),
        decreases cells.len() - i,
    {
        let x = cells[i];
        let mut j: usize = 0;
        while j < word.len() && !(x.0 < word[j].0 || (x.0 == word[j].0 && x.1 > word[j].1))
            invariant
                j <= word.len(),
                forall|k: int| 0 <= k < j ==> !reads_before(x, #[trigger] word@[k]),
            decreases word.len() - j,
        {
            j = j + 1;
        }
        proof {
            lemma_insert_pos_is_first(word@, x, j as int);
            assert(cells@.take(i as int + 1).drop_last() =~= cells@.take(i as int));
            assert(cells@.take(i as int + 1).last() == x);
        }
        word.insert(j, x);
        i = i + 1;
    }
    assert(cells@.take(cells@.len() as int) =~= cells@);
    word
}

/// The largest label among the boxes (zero for none).
fn largest_label(cells: &[Cell]) -> (m: u8)
    ensures
        m as int == max_label(cells@),
{
    let mut m: u8 = 0;
    let mut i: usize = 0;
    while i < cells.len()
        invariant
            i <= cells.len(),
            m as int == max_label(cells@.take(i as int)),
        decreases cells.len() - i,
    {
        assert(cells@.take(i as int + 1).drop_last() =~= cells@.take(i as int));
        if cells[i].2 > m {
            m = cells[i].2;
        }
        i = i + 1;
    }
    assert(cells@.take(cells@.len() as int) =~= cells@);
    m
}

/// Whether the labels of the boxes, read in reading order, form a lattice word.
pub fn lr_lattice_word_ok(cells: &[Cell]) -> (b: bool)
    ensures
        b == lattice_ok(cells@),
{
    let word = reading_order(cells);
    let max_l = largest_label(cells);
    let ghost w = word@;
    let ghost m = max_label(cells@);
    proof {
        lemma_reading_word_len(cells@);
        lemma_max_label_bound(cells@);
    }
    let n_counts: usize = max_l as usize + 2;
    let mut counts: Vec<usize> = Vec::new();
    while counts.len() < n_counts
        invariant
            counts.len() <= n_counts,
            forall|l: int| 0 <= l < counts.len() ==> counts[l] == 0,
        decreases n_counts - counts.len(),
    {
        counts.push(0);
    }
    let mut k: usize = 0;
    while k < word.len()
        invariant
            w == word@,
            w == reading_word(cells@),
            m == max_label(cells@),
            m == max_l as int,
            0 <= m <= 255,
            w.len() == cells@.len(),
            forall|q: int| 0 <= q < w.len() ==> #[trigger] w[q].2 as int <= m,
            k <= word.len(),
            counts.len() == n_counts,
            n_counts == m + 2,
            forall|l: int| 0 <= l < n_counts ==> #[trigger] counts[l] == label_count(w.take(k as int), l),
            forall|p: int, i: int|
                1 <= p <= k && 1 <= i < m ==> #[trigger] label_count(w.take(p), i) >= label_count(
                    w.take(p),
                    i + 1,
                ),
        decreases word.len() - k,
    {
        let label = word[k].2 as usize;
        proof {
            assert(w.take(k as int + 1).drop_last() =~= w.take(k as int));
            lemma_label_count_bound(w.take(k as int), label as int);
        }
        counts.set(label, counts[label] + 1);
        assert forall|l: int| 0 <= l < n_counts implies #[trigger] counts[l] == label_count(
            w.take(k as int + 1),
            l,
        ) by {
            assert(w.take(k as int + 1).last() == w[k as int]);
        }
        let mut i: usize = 1;
        while i < max_l as usize
            invariant
                1 <= i,
                i <= max_l || max_l == 0,
                w == reading_word(cells@),
                m == max_label(cells@),
                k < w.len(),
                counts.len() == n_counts,
                n_counts == m + 2,
                m == max_l as int,
                forall|l: int| 0 <= l < n_counts ==> #[trigger] counts[l] == label_count(
                    w.take(k as int + 1),
                    l,
                ),
                forall|j: int|
                    1 <= j < i ==> #[trigger] label_count(w.take(k as int + 1), j) >= label_count(
                        w.take(k as int + 1),
                        j + 1,
                    ),
            decreases max_l - i,
        {
            if counts[i] < counts[i + 1] {
                assert(label_count(w.take(k as int + 1), i as int) < label_count(
                    w.take(k as int + 1),
                    i + 1,
                ));
                return false;
            }
            i = i + 1;
        }
        k = k + 1;
    }
    proof {
        assert(w.take(w.len() as int) =~= w);
    }
    true
}

} // verus!
