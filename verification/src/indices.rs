//! Tensor indices as symbol keys with a variance: contractions, dense
//! relabelling of slots, permutation parity and lexicographic permutation
//! stepping.
use vstd::prelude::*;
use crate::lr::lex_lt;

verus! {

/// Position of an index: upper (contravariant) or lower (covariant).
#[derive(PartialEq, Eq, Structural, Clone, Copy, Debug)]
pub enum Variance {
    Up,
    Down,
}

/// An abstract index: its name and optional index family as symbol keys,
/// and its variance.
#[derive(Clone, Copy, Debug)]
pub struct Index {
    pub name: usize,
    pub variance: Variance,
    pub index_type: Option<usize>,
}

/// Two slots contract: the same name, opposite variance, and the same index
/// family (or no family on either side).
pub open spec fn contracts(a: Index, b: Index) -> bool {
    &&& a.name == b.name
    &&& a.variance != b.variance
    &&& (a.index_type == b.index_type || a.index_type is None || b.index_type is None)
}

/// Slot `k` already belongs to one of the pairs.
pub open spec fn paired(pairs: Seq<(usize, usize)>, k: int) -> bool {
    exists|p: int| 0 <= p < pairs.len() && (#[trigger] pairs[p].0 == k || pairs[p].1 == k)
}

/// The first slot `j` with `from <= j < idx.len()` that is not yet paired and
/// contracts with slot `i`, or `-1`.
pub open spec fn first_partner(idx: Seq<Index>, pairs: Seq<(usize, usize)>, i: int, from: int) -> int
    decreases idx.len() - from,
{
    if from >= idx.len() || from < 0 {
        -1
    } else if !paired(pairs, from) && contracts(idx[i], idx[from]) {
        from
    } else {
        first_partner(idx, pairs, i, from + 1)
    }
}

/// The contracted pairs found by scanning the slots `0 .. i` in order, each
/// unpaired slot taking the first later unpaired slot it contracts with.
pub open spec fn contractions_upto(idx: Seq<Index>, i: int) -> Seq<(usize, usize)>
    decreases i,
{
    if i <= 0 {
        Seq::empty()
    } else {
        let prev = contractions_upto(idx, i - 1);
        let k = i - 1;
        if paired(prev, k) {
            prev
        } else {
            let j = first_partner(idx, prev, k, k + 1);
            if j < 0 {
                prev
            } else {
                prev.push((k as usize, j as usize))
            }
        }
    }
}

fn index_eq(a: &Index, b: &Index) -> (r: bool)
    ensures
        r == (a.name == b.name && a.variance == b.variance && a.index_type == b.index_type),
{
    let types_equal = match (a.index_type, b.index_type) {
        (Some(x), Some(y)) => x == y,
        (None, None) => true,
        _ => false,
    };
    a.name == b.name && a.variance == b.variance && types_equal
}

fn index_contracts(a: &Index, b: &Index) -> (r: bool)
    ensures
        r == contracts(*a, *b),
{
    let types_ok = match (a.index_type, b.index_type) {
        (Some(x), Some(y)) => x == y,
        _ => true,
    };
    a.name == b.name && a.variance != b.variance && types_ok
}

proof fn lemma_first_partner_range(idx: Seq<Index>, pairs: Seq<(usize, usize)>, i: int, from: int)
    ensures
        first_partner(idx, pairs, i, from) == -1 || from <= first_partner(idx, pairs, i, from) < idx.len(),
    decreases idx.len() - from,
{
    if from < idx.len() && from >= 0 && !(!paired(pairs, from) && contracts(idx[i], idx[from])) {
        lemma_first_partner_range(idx, pairs, i, from + 1);
    }
}

/// The contracted slot pairs of an index list: scanning left to right, each
/// slot not yet paired is paired with the first later unpaired slot of the
/// same name, opposite variance and compatible family.
pub fn detect_contractions(indices: &[Index]) -> (pairs: Vec<(usize, usize)>)
    ensures
        pairs@ == contractions_upto(indices@, indices@.len() as int),
{
    let n = indices.len();
    let mut used: Vec<bool> = Vec::new();
    while used.len() < n
        invariant
            used.len() <= n,
            forall|k: int| 0 <= k < used.len() ==> !used[k],
        decreases n - used.len(),
    {
        used.push(false);
    }
    let mut pairs: Vec<(usize, usize)> = Vec::new();
    proof {
        assert forall|k: int| 0 <= k < n implies used[k] == paired(pairs@, k) by {}
    }
    let mut i: usize = 0;
    while i < n
        invariant
            n == indices.len(),
            used.len() == n,
            i <= n,
            pairs@ == contractions_upto(indices@, i as int),
            forall|k: int| 0 <= k < n ==> #[trigger] used[k] == paired(pairs@, k),
        decreases n - i,
    {
        let ghost prev = pairs@;
        if !used[i] {
            let mut j: usize = i + 1;
            while j < n && !(!used[j] && index_contracts(&indices[i], &indices[j]))
                invariant
                    n == indices.len(),
                    used.len() == n,
                    i < n,
                    i + 1 <= j <= n,
                    prev == pairs@,
                    forall|k: int| 0 <= k < n ==> #[trigger] used[k] == paired(prev, k),
                    first_partner(indices@, prev, i as int, i as int + 1) == first_partner(
                        indices@,
                        prev,
                        i as int,
                        j as int,
                    ),
                decreases n - j,
            {
                j = j + 1;
            }
            if j < n {
                pairs.push((i, j));
                used.set(i, true);
                used.set(j, true);
                proof {
                    assert forall|k: int| 0 <= k < n implies #[trigger] used[k] == paired(pairs@, k) by {
                        lemma_paired_push(prev, (i, j), k);
                    }
                }
            }
        }
        i = i + 1;
    }
    pairs
}

proof fn lemma_paired_push(prev: Seq<(usize, usize)>, p: (usize, usize), k: int)
    ensures
        paired(prev.push(p), k) == (paired(prev, k) || p.0 == k || p.1 == k),
{
    let s = prev.push(p);
    if paired(prev, k) {
        let q = choose|q: int| 0 <= q < prev.len() && (#[trigger] prev[q].0 == k || prev[q].1 == k);
        assert(s[q] == prev[q]);
        assert(s[q].0 == k || s[q].1 == k);
        assert(paired(s, k));
    }
    if p.0 == k || p.1 == k {
        let q = prev.len() as int;
        assert(s[q] == p);
        assert(s[q].0 == k || s[q].1 == k);
        assert(paired(s, k));
    }
    if paired(s, k) {
        let q = choose|q: int| 0 <= q < s.len() && (#[trigger] s[q].0 == k || s[q].1 == k);
        if q < prev.len() {
            assert(s[q] == prev[q]);
            assert(prev[q].0 == k || prev[q].1 == k);
            assert(paired(prev, k));
        } else {
            assert(s[q] == p);
        }
    }
}

// ---------------------------------------------------------------------------
// Dense relabelling
// ---------------------------------------------------------------------------

/// Number of entries among the first `m` of `s` strictly smaller than `v`.
pub open spec fn count_less(s: Seq<usize>, v: usize, m: int) -> nat
    decreases m,
{
    if m <= 0 {
        0
    } else {
        count_less(s, v, m - 1) + if s[m - 1] < v {
            1nat
        } else {
            0nat
        }
    }
}

/// The label of each slot: its position among the slots in increasing order
/// (equal slots sharing the position of the first of them), that is, how
/// many slots are smaller.
pub open spec fn dense_labels(slot_map: Seq<usize>) -> Seq<usize> {
    Seq::new(slot_map.len(), |k: int| count_less(slot_map, slot_map[k], slot_map.len() as int) as usize)
}

proof fn lemma_count_less_le(s: Seq<usize>, v: usize, m: int)
    requires
        0 <= m <= s.len(),
    ensures
        count_less(s, v, m) <= m,
    decreases m,
{
    if m > 0 {
        lemma_count_less_le(s, v, m - 1);
    }
}

/// For each slot of `slot_map`, its position in the sorted list of slots
/// (the first position where its value occurs).
pub fn dense_projector_labels(slot_map: &[usize]) -> (labels: Vec<usize>)
    ensures
        labels@ == dense_labels(slot_map@),
{
    let n = slot_map.len();
    let mut labels: Vec<usize> = Vec::new();
    let mut k: usize = 0;
    while k < n
        invariant
            n == slot_map.len(),
            k <= n,
            labels@.len() == k,
            forall|q: int| 0 <= q < k ==> #[trigger] labels@[q] == dense_labels(slot_map@)[q],
        decreases n - k,
    {
        let v = slot_map[k];
        let mut c: usize = 0;
        let mut m: usize = 0;
        while m < n
            invariant
                n == slot_map.len(),
                m <= n,
                c == count_less(slot_map@, v, m as int),
                c <= m,
            decreases n - m,
        {
            if slot_map[m] < v {
                c = c + 1;
            }
            m = m + 1;
        }
        labels.push(c);
        k = k + 1;
    }
    assert(labels@ =~= dense_labels(slot_map@));
    labels
}

proof fn lemma_count_less_mono(s: Seq<usize>, v1: usize, v2: usize, m: int)
    requires
        v1 <= v2,
        0 <= m <= s.len(),
    ensures
        count_less(s, v1, m) <= count_less(s, v2, m),
    decreases m,
{
    if m > 0 {
        lemma_count_less_mono(s, v1, v2, m - 1);
    }
}

proof fn lemma_count_less_strict(s: Seq<usize>, v1: usize, v2: usize, m: int, w: int)
    requires
        v1 < v2,
        0 <= w < m <= s.len(),
        s[w] == v1,
    ensures
        count_less(s, v1, m) < count_less(s, v2, m),
    decreases m,
{
    if w < m - 1 {
        lemma_count_less_strict(s, v1, v2, m - 1, w);
    } else {
        lemma_count_less_mono(s, v1, v2, m - 1);
    }
}

/// Law: dense relabelling keeps the order of the slots (smaller slots get
/// smaller labels, equal slots equal labels) and every label is below the
/// number of slots.
pub proof fn lemma_dense_labels_order(slot_map: Seq<usize>, a: int, b: int)
    requires
        0 <= a < slot_map.len(),
        0 <= b < slot_map.len(),
        slot_map.len() <= usize::MAX,
    ensures
        slot_map[a] < slot_map[b] ==> dense_labels(slot_map)[a] < dense_labels(slot_map)[b],
        slot_map[a] == slot_map[b] ==> dense_labels(slot_map)[a] == dense_labels(slot_map)[b],
        dense_labels(slot_map)[a] < slot_map.len(),
{
    let n = slot_map.len() as int;
    lemma_count_less_le(slot_map, slot_map[a], n);
    lemma_count_less_le(slot_map, slot_map[b], n);
    if slot_map[a] < slot_map[b] {
        lemma_count_less_strict(slot_map, slot_map[a], slot_map[b], n, a);
    }
    lemma_count_less_strict_self(slot_map, slot_map[a], n, a);
}

proof fn lemma_count_less_strict_self(s: Seq<usize>, v: usize, m: int, w: int)
    requires
        0 <= w < m <= s.len(),
        s[w] == v,
    ensures
        count_less(s, v, m) < m,
    decreases m,
{
    if w < m - 1 {
        lemma_count_less_strict_self(s, v, m - 1, w);
    } else {
        lemma_count_less_le(s, v, m - 1);
    }
}

// ---------------------------------------------------------------------------
// Parity of the rearrangement between two index lists
// ---------------------------------------------------------------------------

/// The first position `q >= from` of `sorted` not yet used that holds `item`, or `-1`.
pub open spec fn first_unused_match(sorted: Seq<Index>, used: Seq<bool>, item: Index, from: int) -> int
    decreases sorted.len() - from,
{
    if from < 0 || from >= sorted.len() {
        -1
    } else if !used[from] && sorted[from] == item {
        from
    } else {
        first_unused_match(sorted, used, item, from + 1)
    }
}

/// The positions in `sorted` assigned to the first `m` items of `original`
/// (each the first unused equal entry, 0 when there is none), with the
/// positions used so far.
pub open spec fn matched_positions(original: Seq<Index>, sorted: Seq<Index>, m: int) -> (Seq<usize>, Seq<bool>)
    decreases m,
{
    if m <= 0 {
        (Seq::empty(), Seq::new(sorted.len(), |q: int| false))
    } else {
        let prev = matched_positions(original, sorted, m - 1);
        let f = first_unused_match(sorted, prev.1, original[m - 1], 0);
        let pos = if f < 0 {
            0
        } else {
            f
        };
        (prev.0.push(pos as usize), prev.1.update(pos, true))
    }
}

/// Number of `j` in `i + 1 .. m` with `p[i] > p[j]`.
pub open spec fn inversions_from(p: Seq<usize>, i: int, m: int) -> nat
    decreases m - i,
{
    if m <= i + 1 {
        0
    } else {
        inversions_from(p, i, m - 1) + if p[i] > p[m - 1] {
            1nat
        } else {
            0nat
        }
    }
}

/// Number of pairs `i < j` with `i < m` and `p[i] > p[j]`.
pub open spec fn inversions_upto(p: Seq<usize>, m: int) -> nat
    decreases m,
{
    if m <= 0 {
        0
    } else {
        inversions_upto(p, m - 1) + inversions_from(p, m - 1, p.len() as int)
    }
}

/// Whether matching `original` into `sorted` is an odd rearrangement.
pub open spec fn odd_parity(original: Seq<Index>, sorted: Seq<Index>) -> bool {
    let p = matched_positions(original, sorted, original.len() as int).0;
    inversions_upto(p, p.len() as int) % 2 == 1
}

proof fn lemma_first_unused_range(sorted: Seq<Index>, used: Seq<bool>, item: Index, from: int)
    requires
        0 <= from,
    ensures
        first_unused_match(sorted, used, item, from) == -1 || from <= first_unused_match(
            sorted,
            used,
            item,
            from,
        ) < sorted.len(),
    decreases sorted.len() - from,
{
    if from < sorted.len() && !(!used[from] && sorted[from] == item) {
        lemma_first_unused_range(sorted, used, item, from + 1);
    }
}

proof fn lemma_matched_shape(original: Seq<Index>, sorted: Seq<Index>, m: int)
    requires
        0 <= m <= original.len(),
        original.len() == 0 || sorted.len() > 0,
    ensures
        matched_positions(original, sorted, m).0.len() == m,
        matched_positions(original, sorted, m).1.len() == sorted.len(),
        forall|q: int|
            0 <= q < m ==> #[trigger] matched_positions(original, sorted, m).0[q] < sorted.len(),
    decreases m,
{
    if m > 0 {
        lemma_matched_shape(original, sorted, m - 1);
        let prev = matched_positions(original, sorted, m - 1);
        lemma_first_unused_range(sorted, prev.1, original[m - 1], 0);
        let cur = matched_positions(original, sorted, m);
        assert forall|q: int| 0 <= q < m implies #[trigger] cur.0[q] < sorted.len() by {
            if q < m - 1 {
                assert(cur.0[q] == prev.0[q]);
            }
        }
    }
}

/// Whether the rearrangement taking `original` to `sorted` is odd: each
/// entry of `original` is matched to the first unused equal entry of
/// `sorted` (position 0 when there is none), and the inversions of the
/// resulting positions are counted.
pub fn permutation_parity(original: &[Index], sorted: &[Index]) -> (odd: bool)
    requires
        original.len() == 0 || sorted.len() > 0,
    ensures
        odd == odd_parity(original@, sorted@),
{
    let mut used: Vec<bool> = Vec::new();
    while used.len() < sorted.len()
        invariant
            used.len() <= sorted.len(),
            forall|q: int| 0 <= q < used.len() ==> !used[q],
        decreases sorted.len() - used.len(),
    {
        used.push(false);
    }
    let mut permutation: Vec<usize> = Vec::new();
    assert(used@ =~= matched_positions(original@, sorted@, 0).1);
    let mut m: usize = 0;
    while m < original.len()
        invariant
            original.len() == 0 || sorted.len() > 0,
            m <= original.len(),
            permutation@ == matched_positions(original@, sorted@, m as int).0,
            used@ == matched_positions(original@, sorted@, m as int).1,
        decreases original.len() - m,
    {
        proof {
            lemma_matched_shape(original@, sorted@, m as int);
        }
        let item = original[m];
        let mut q: usize = 0;
        while q < sorted.len() && !(!used[q] && index_eq(&sorted[q], &item))
            invariant
                q <= sorted.len(),
                used@.len() == sorted.len(),
                first_unused_match(sorted@, used@, item, 0) == first_unused_match(
                    sorted@,
                    used@,
                    item,
                    q as int,
                ),
            decreases sorted.len() - q,
        {
            q = q + 1;
        }
        let pos = if q < sorted.len() {
            q
        } else {
            0
        };
        used.set(pos, true);
        permutation.push(pos);
        m = m + 1;
    }
    proof {
        lemma_matched_shape(original@, sorted@, original@.len() as int);
    }
    let ghost p = permutation@;
    let n = permutation.len();
    let mut odd = false;
    let mut i: usize = 0;
    while i < n
        invariant
            p == permutation@,
            n == p.len(),
            i <= n,
            odd == (inversions_upto(p, i as int) % 2 == 1),
        decreases n - i,
    {
        let ghost before = inversions_upto(p, i as int);
        let mut j: usize = i + 1;
        while j < n
            invariant
                p == permutation@,
                n == p.len(),
                i < n,
                i + 1 <= j <= n,
                odd == ((before + inversions_from(p, i as int, j as int)) % 2 == 1),
            decreases n - j,
        {
            if permutation[i] > permutation[j] {
                odd = !odd;
            }
            j = j + 1;
        }
        i = i + 1;
    }
    odd
}

// ---------------------------------------------------------------------------
// Lexicographic successor
// ---------------------------------------------------------------------------

/// The largest `i < k` with `s[i] < s[i + 1]`, or `-1`.
pub open spec fn last_ascent(s: Seq<usize>, k: int) -> int
    decreases k,
{
    if k <= 0 {
        -1
    } else if s[k - 1] < s[k] {
        k - 1
    } else {
        last_ascent(s, k - 1)
    }
}

/// The largest `j` with `i < j < k` and `s[j] > s[i]`, or `-1`.
pub open spec fn last_greater(s: Seq<usize>, i: int, k: int) -> int
    decreases k - i,
{
    if k <= i + 1 {
        -1
    } else if s[k - 1] > s[i] {
        k - 1
    } else {
        last_greater(s, i, k - 1)
    }
}

/// `s` with the entries at `a` and `b` exchanged.
pub open spec fn swap_at(s: Seq<usize>, a: int, b: int) -> Seq<usize> {
    s.update(a, s[b]).update(b, s[a])
}

/// The next arrangement of `s` in lexicographic order, when there is one:
/// at the last ascent `i`, exchange `s[i]` with the last larger entry after
/// it, then reverse everything after position `i`.
pub open spec fn next_arrangement(s: Seq<usize>) -> Option<Seq<usize>> {
    if s.len() <= 1 {
        None
    } else {
        let i = last_ascent(s, s.len() - 1);
        if i < 0 {
            None
        } else {
            let j = last_greater(s, i, s.len() as int);
            let t = swap_at(s, i, j);
            Some(t.take(i + 1) + t.skip(i + 1).reverse())
        }
    }
}

proof fn lemma_last_ascent_props(s: Seq<usize>, k: int)
    requires
        k < s.len(),
    ensures
        last_ascent(s, k) == -1 || (0 <= last_ascent(s, k) < k && s[last_ascent(s, k)] < s[last_ascent(s, k) + 1]),
    decreases k,
{
    if k > 0 && !(s[k - 1] < s[k]) {
        lemma_last_ascent_props(s, k - 1);
    }
}

proof fn lemma_last_greater_props(s: Seq<usize>, i: int, k: int)
    requires
        0 <= i,
        k <= s.len(),
    ensures
        last_greater(s, i, k) == -1 || (i < last_greater(s, i, k) < k && s[last_greater(s, i, k)] > s[i]),
    decreases k - i,
{
    if k > i + 1 && !(s[k - 1] > s[i]) {
        lemma_last_greater_props(s, i, k - 1);
    }
}

/// Rearranges `arr` into the next arrangement in lexicographic order and
/// returns `true`; when `arr` is already the last one (no ascent), leaves it
/// unchanged and returns `false`.
pub fn next_permutation_usize(arr: &mut Vec<usize>) -> (advanced: bool)
    ensures
        match next_arrangement(old(arr)@) {
            None => !advanced && final(arr)@ == old(arr)@,
            Some(t) => advanced && final(arr)@ == t,
        },
{
    let n = arr.len();
    if n <= 1 {
        return false;
    }
    let ghost s = arr@;
    let mut i: usize = n - 2;
    while !(arr[i] < arr[i + 1])
        invariant
            s == arr@,
            n == arr.len(),
            n >= 2,
            i <= n - 2,
            last_ascent(s, n - 1) == last_ascent(s, i + 1),
        decreases i,
    {
        if i == 0 {
            assert(last_ascent(s, 0) == -1);
            return false;
        }
        i = i - 1;
    }
    assert(last_ascent(s, n - 1) == i);
    let mut j: usize = n - 1;
    proof {
        lemma_last_greater_props(s, i as int, n as int);
        assert(s[i as int + 1] > s[i as int]);
    }
    while arr[j] <= arr[i]
        invariant
            s == arr@,
            n == arr.len(),
            i + 1 <= j < n,
            s[i as int + 1] > s[i as int],
            last_greater(s, i as int, n as int) == last_greater(s, i as int, j as int + 1),
        decreases j,
    {
        j = j - 1;
    }
    assert(last_greater(s, i as int, n as int) == j);
    let x = arr[i];
    let y = arr[j];
    arr.set(i, y);
    arr.set(j, x);
    let ghost t = arr@;
    assert(t == swap_at(s, i as int, j as int));
    let mut lo: usize = i + 1;
    let mut hi: usize = n - 1;
    while lo < hi
        invariant
            arr@.len() == n,
            i + 1 <= lo,
            hi < n,
            lo + hi == n + i,
            t.len() == n,
            forall|k: int| 0 <= k <= i ==> #[trigger] arr@[k] == t[k],
            forall|k: int| lo <= k <= hi ==> #[trigger] arr@[k] == t[k],
            forall|k: int|
                (i + 1 <= k < lo || hi < k < n) ==> #[trigger] arr@[k] == t[(n + i) - k],
        decreases hi + 1 - lo,
    {
        let a = arr[lo];
        let b = arr[hi];
        arr.set(lo, b);
        arr.set(hi, a);
        lo = lo + 1;
        hi = hi - 1;
    }
    assert(arr@ =~= t.take(i as int + 1) + t.skip(i as int + 1).reverse());
    true
}

proof fn lemma_swap_multiset(s: Seq<usize>, a: int, b: int)
    requires
        0 <= a < s.len(),
        0 <= b < s.len(),
    ensures
        swap_at(s, a, b).to_multiset() == s.to_multiset(),
{
    broadcast use vstd::multiset::group_multiset_axioms;

    let u = s.update(a, s[b]);
    vstd::seq_lib::to_multiset_update(s, a, s[b]);
    vstd::seq_lib::to_multiset_update(u, b, s[a]);
    if a == b {
        assert(swap_at(s, a, b) =~= s);
    } else {
        assert(u[b] == s[b]);
        assert(s.to_multiset().count(s[b]) > 0) by {
            vstd::seq_lib::to_multiset_contains(s, s[b]);
        }
        assert(s.to_multiset().count(s[a]) > 0) by {
            vstd::seq_lib::to_multiset_contains(s, s[a]);
        }
        assert(swap_at(s, a, b).to_multiset() =~= s.to_multiset());
    }
}

proof fn lemma_lex_lt_at(s: Seq<usize>, t: Seq<usize>, i: int)
    requires
        s.len() == t.len(),
        0 <= i < s.len(),
        forall|k: int| 0 <= k < i ==> s[k] == t[k],
        s[i] < t[i],
    ensures
        lex_lt(s, t),
    decreases i,
{
    if i > 0 {
        lemma_lex_lt_at(s.drop_first(), t.drop_first(), i - 1);
    }
}

/// Law: when there is a next arrangement, it holds the same entries and is
/// lexicographically greater; there is one exactly when some entry is
/// smaller than the one after it.
pub proof fn lemma_next_arrangement_greater(s: Seq<usize>)
    ensures
        next_arrangement(s) is Some <==> exists|i: int| 0 <= i < s.len() - 1 && #[trigger] s[i] < s[i + 1],
        next_arrangement(s) matches Some(t) ==> t.to_multiset() == s.to_multiset() && lex_lt(s, t),
{
    if s.len() > 1 {
        lemma_last_ascent_props(s, s.len() - 1);
        lemma_last_ascent_none(s, s.len() - 1);
        let i = last_ascent(s, s.len() - 1);
        if i >= 0 {
            lemma_last_greater_props(s, i, s.len() as int);
            lemma_last_greater_exists(s, i, s.len() as int);
            let j = last_greater(s, i, s.len() as int);
            let t = swap_at(s, i, j);
            lemma_swap_multiset(s, i, j);
            let r = t.take(i + 1) + t.skip(i + 1).reverse();
            t.skip(i + 1).lemma_reverse_to_multiset();
            vstd::seq_lib::lemma_multiset_commutative(t.take(i + 1), t.skip(i + 1).reverse());
            vstd::seq_lib::lemma_multiset_commutative(t.take(i + 1), t.skip(i + 1));
            assert(t.take(i + 1) + t.skip(i + 1) =~= t);
            assert forall|k: int| 0 <= k < i implies s[k] == r[k] by {}
            assert(r[i] == s[j]);
            lemma_lex_lt_at(s, r, i);
        }
    }
}

proof fn lemma_last_ascent_none(s: Seq<usize>, k: int)
    requires
        k < s.len(),
    ensures
        last_ascent(s, k) == -1 <==> forall|i: int| 0 <= i < k ==> !(#[trigger] s[i] < s[i + 1]),
    decreases k,
{
    if k > 0 {
        lemma_last_ascent_none(s, k - 1);
        if s[k - 1] < s[k] {
            assert(!(forall|i: int| 0 <= i < k ==> !(#[trigger] s[i] < s[i + 1])) ) by {
                assert(s[k - 1] < s[(k - 1) + 1]);
            }
        }
    }
}

proof fn lemma_last_greater_exists(s: Seq<usize>, i: int, k: int)
    requires
        0 <= i,
        i + 1 < k <= s.len(),
        s[i + 1] > s[i],
    ensures
        last_greater(s, i, k) != -1,
    decreases k - i,
{
    if !(s[k - 1] > s[i]) {
        lemma_last_greater_exists(s, i, k - 1);
    }
}

// ---------------------------------------------------------------------------
// Sign of the rearrangement between two name lists
// ---------------------------------------------------------------------------

/// Where each entry of `permuted` sits in `original`.
pub open spec fn relative_perm(original: Seq<usize>, permuted: Seq<usize>) -> Seq<usize> {
    Seq::new(permuted.len(), |k: int| first_index(original, permuted[k], 0) as usize)
}

/// The first position `q >= from` with `s[q] == x`, or 0 when there is none.
pub open spec fn first_index(s: Seq<usize>, x: usize, from: int) -> int
    decreases s.len() - from,
{
    if from < 0 || from >= s.len() {
        0
    } else if s[from] == x {
        from
    } else {
        first_index(s, x, from + 1)
    }
}

/// Number of marked points.
pub open spec fn count_true(v: Seq<bool>) -> nat
    decreases v.len(),
{
    if v.len() == 0 {
        0
    } else {
        count_true(v.drop_last()) + if v.last() {
            1nat
        } else {
            0nat
        }
    }
}

pub proof fn lemma_count_true_update(v: Seq<bool>, j: int)
    requires
        0 <= j < v.len(),
        !v[j],
    ensures
        count_true(v.update(j, true)) == count_true(v) + 1,
        count_true(v) < v.len(),
    decreases v.len(),
{
    if j == v.len() - 1 {
        assert(v.update(j, true).drop_last() =~= v.drop_last());
        lemma_count_true_le(v.drop_last());
    } else {
        assert(v.update(j, true).drop_last() =~= v.drop_last().update(j, true));
        lemma_count_true_update(v.drop_last(), j);
    }
}

pub proof fn lemma_count_true_le(v: Seq<bool>)
    ensures
        count_true(v) <= v.len(),
    decreases v.len(),
{
    if v.len() > 0 {
        lemma_count_true_le(v.drop_last());
    }
}

/// Following `perm` from `j`, marking points, until a marked point (or one
/// outside the marks) is reached: the marks afterwards and the number of
/// points marked on the way.
pub open spec fn walk(perm: Seq<usize>, visited: Seq<bool>, j: int) -> (Seq<bool>, nat)
    decreases visited.len() - count_true(visited),
{
    if j < 0 || j >= visited.len() || visited[j] {
        (visited, 0)
    } else {
        proof {
            lemma_count_true_update(visited, j);
        }
        let next = if 0 <= j < perm.len() {
            perm[j] as int
        } else {
            -1
        };
        let r = walk(perm, visited.update(j, true), next);
        (r.0, r.1 + 1)
    }
}

/// The marks and the sign after walking from each of the points `0 .. i`
/// in turn: each walk of even length at least 2 flips the sign.
pub open spec fn cycle_sign_upto(perm: Seq<usize>, n: nat, i: int) -> (Seq<bool>, int)
    decreases i,
{
    if i <= 0 {
        (Seq::new(n, |q: int| false), 1)
    } else {
        let prev = cycle_sign_upto(perm, n, i - 1);
        if prev.0[i - 1] {
            prev
        } else {
            let w = walk(perm, prev.0, i - 1);
            (w.0, if w.1 > 1 && w.1 % 2 == 0 {
                -prev.1
            } else {
                prev.1
            })
        }
    }
}

/// The sign of the rearrangement of `original` into `permuted`, counted by
/// the even cycles of where each entry of `permuted` sits in `original`.
pub open spec fn sign_between(original: Seq<usize>, permuted: Seq<usize>) -> int {
    cycle_sign_upto(relative_perm(original, permuted), original.len(), original.len() as int).1
}

proof fn lemma_walk_len(perm: Seq<usize>, visited: Seq<bool>, j: int)
    ensures
        walk(perm, visited, j).0.len() == visited.len(),
        count_true(walk(perm, visited, j).0) == count_true(visited) + walk(perm, visited, j).1,
        forall|q: int| 0 <= q < visited.len() && visited[q] ==> #[trigger] walk(perm, visited, j).0[q],
    decreases visited.len() - count_true(visited),
{
    if !(j < 0 || j >= visited.len() || visited[j]) {
        lemma_count_true_update(visited, j);
        let next = if 0 <= j < perm.len() {
            perm[j] as int
        } else {
            -1
        };
        lemma_walk_len(perm, visited.update(j, true), next);
    }
}

proof fn lemma_cycle_sign_shape(perm: Seq<usize>, n: nat, i: int)
    requires
        i <= n,
    ensures
        cycle_sign_upto(perm, n, i).0.len() == n,
        cycle_sign_upto(perm, n, i).1 == 1 || cycle_sign_upto(perm, n, i).1 == -1,
        count_true(cycle_sign_upto(perm, n, i).0) <= n,
    decreases i,
{
    if i <= 0 {
        lemma_count_true_le(Seq::new(n, |q: int| false));
    } else {
        lemma_cycle_sign_shape(perm, n, i - 1);
        let prev = cycle_sign_upto(perm, n, i - 1);
        lemma_walk_len(perm, prev.0, i - 1);
        lemma_count_true_le(walk(perm, prev.0, i - 1).0);
    }
}

/// The first position of `x` in `s` (0 when absent).
fn find_position(s: &[usize], x: usize) -> (p: usize)
    ensures
        p as int == first_index(s@, x, 0),
{
    let mut q: usize = 0;
    while q < s.len() && s[q] != x
        invariant
            q <= s.len(),
            first_index(s@, x, 0) == first_index(s@, x, q as int),
        decreases s.len() - q,
    {
        q = q + 1;
    }
    if q < s.len() {
        q
    } else {
        0
    }
}

proof fn lemma_first_index_range(s: Seq<usize>, x: usize, from: int)
    requires
        0 <= from,
    ensures
        0 <= first_index(s, x, from) && (s.len() == 0 || first_index(s, x, from) < s.len()),
    decreases s.len() - from,
{
    if from < s.len() && s[from] != x {
        lemma_first_index_range(s, x, from + 1);
    }
}

/// The sign (+1 or -1) of the rearrangement of the names `original` into
/// `permuted`: each name of `permuted` is located in `original` (position 0
/// when absent), and each cycle of even length of the resulting map
/// contributes a factor -1.
pub fn permutation_sign_between(original: &[usize], permuted: &[usize]) -> (sign: i32)
    requires
        permuted.len() >= original.len(),
    ensures
        sign as int == sign_between(original@, permuted@),
{
    let n = original.len();
    let ghost rp = relative_perm(original@, permuted@);
    let mut perm: Vec<usize> = Vec::new();
    let mut k: usize = 0;
    while k < permuted.len()
        invariant
            k <= permuted.len(),
            rp == relative_perm(original@, permuted@),
            perm@ == rp.take(k as int),
        decreases permuted.len() - k,
    {
        let p = find_position(original, permuted[k]);
        perm.push(p);
        assert(perm@ =~= rp.take(k as int + 1));
        k = k + 1;
    }
    assert(perm@ =~= rp);
    proof {
        assert forall|q: int| 0 <= q < rp.len() implies (n == 0 || #[trigger] rp[q] < n) by {
            lemma_first_index_range(original@, permuted@[q], 0);
        }
    }
    let mut visited: Vec<bool> = Vec::new();
    while visited.len() < n
        invariant
            visited.len() <= n,
            forall|q: int| 0 <= q < visited.len() ==> !visited[q],
        decreases n - visited.len(),
    {
        visited.push(false);
    }
    assert(visited@ =~= cycle_sign_upto(rp, n as nat, 0).0);
    let mut sign: i32 = 1;
    let mut i: usize = 0;
    while i < n
        invariant
            n == original.len(),
            perm@ == rp,
            perm.len() >= n,
            forall|q: int| 0 <= q < rp.len() ==> (n == 0 || #[trigger] rp[q] < n),
            i <= n,
            visited@ == cycle_sign_upto(rp, n as nat, i as int).0,
            sign as int == cycle_sign_upto(rp, n as nat, i as int).1,
        decreases n - i,
    {
        proof {
            lemma_cycle_sign_shape(rp, n as nat, i as int);
        }
        if !visited[i] {
            let ghost start = visited@;
            let mut cycle_len: usize = 0;
            let mut j: usize = i;
            proof {
                lemma_walk_len(rp, start, i as int);
            }
            while !visited[j]
                invariant
                    n == original.len(),
                    perm@ == rp,
                    perm.len() >= n,
                    forall|q: int| 0 <= q < rp.len() ==> (n == 0 || #[trigger] rp[q] < n),
                    visited@.len() == n,
                    j < n,
                    walk(rp, start, i as int).0 == walk(rp, visited@, j as int).0,
                    walk(rp, start, i as int).1 == cycle_len + walk(rp, visited@, j as int).1,
                    count_true(visited@) <= n,
                    cycle_len <= count_true(visited@),
                decreases n - count_true(visited@),
            {
                proof {
                    lemma_count_true_update(visited@, j as int);
                }
                visited.set(j, true);
                j = perm[j];
                cycle_len = cycle_len + 1;
            }
            if cycle_len > 1 && cycle_len % 2 == 0 {
                sign = -sign;
            }
        }
        i = i + 1;
    }
    sign
}

/// The first `m` of `k` points marked.
pub open spec fn marked_below(k: nat, m: int) -> Seq<bool> {
    Seq::new(k, |q: int| q < m)
}

proof fn lemma_first_index_distinct(s: Seq<usize>, p: int, from: int)
    requires
        0 <= from <= p < s.len(),
        forall|a: int, b: int| 0 <= a < b < s.len() ==> s[a] != s[b],
    ensures
        first_index(s, s[p], from) == p,
    decreases p - from,
{
    if from < p {
        assert(s[from] != s[p]);
        lemma_first_index_distinct(s, p, from + 1);
    }
}

/// Walking the cycle `m -> m + 1 -> ... -> k - 1 -> 0` with the points below
/// `m` marked marks every point and takes `k - m` steps.
proof fn lemma_walk_rotation(perm: Seq<usize>, k: nat, m: int)
    requires
        1 <= m < k,
        perm.len() == k,
        forall|i: int| 0 <= i < k ==> #[trigger] perm[i] == (i + 1) % (k as int),
    ensures
        walk(perm, marked_below(k, m), m) == (marked_below(k, k as int), (k - m) as nat),
    decreases k - m,
{
    let v = marked_below(k, m);
    assert(v.update(m, true) =~= marked_below(k, m + 1));
    assert(perm[m] == (m + 1) % (k as int));
    if m + 1 < k {
        vstd::arithmetic::div_mod::lemma_small_mod((m + 1) as nat, k);
        lemma_walk_rotation(perm, k, m + 1);
        assert(perm[m] as int == m + 1);
        assert(walk(perm, marked_below(k, m + 1), perm[m] as int) == (marked_below(k, k as int), (k - m
            - 1) as nat));
    } else {
        assert((m + 1) % (k as int) == 0) by (nonlinear_arith)
            requires
                m + 1 == k,
                k > 0,
        ;
        assert(marked_below(k, m + 1) =~= marked_below(k, k as int));
        assert(marked_below(k, k as int)[0]);
        assert(perm[m] as int == 0);
        assert(walk(perm, marked_below(k, m + 1), perm[m] as int) == (marked_below(k, k as int), 0nat));
    }
}

proof fn lemma_cycle_sign_rotation(perm: Seq<usize>, k: nat, i: int)
    requires
        1 <= i <= k,
        perm.len() == k,
        forall|q: int| 0 <= q < k ==> #[trigger] perm[q] == (q + 1) % (k as int),
    ensures
        cycle_sign_upto(perm, k, i) == (marked_below(k, k as int), if k >= 2 && k % 2 == 0 {
            -1int
        } else {
            1int
        }),
    decreases i,
{
    if i == 1 {
        let start = cycle_sign_upto(perm, k, 0).0;
        assert(start =~= marked_below(k, 0));
        assert(marked_below(k, 0).update(0, true) =~= marked_below(k, 1));
        assert(perm[0] == 1int % (k as int));
        if k == 1 {
            assert(1int % (k as int) == 0);
            assert(marked_below(k, 1) =~= marked_below(k, k as int));
            assert(marked_below(k, 1)[0]);
            assert(walk(perm, marked_below(k, 1), 0) == (marked_below(k, 1), 0nat));
            assert(walk(perm, marked_below(k, 0), 0) == (marked_below(k, k as int), 1nat));
        } else {
            vstd::arithmetic::div_mod::lemma_small_mod(1, k);
            lemma_walk_rotation(perm, k, 1);
            assert(walk(perm, marked_below(k, 0), 0) == (marked_below(k, k as int), k));
        }
    } else {
        lemma_cycle_sign_rotation(perm, k, i - 1);
        assert(marked_below(k, k as int)[i - 1]);
    }
}

/// Law: moving the first of `k` distinct names to the end is one cycle of
/// length `k`, whose sign is `(-1)^(k - 1)`: -1 exactly when `k` is even
/// (a transposition for two names, a 4-cycle for four, ...).
pub proof fn lemma_cyclic_shift_sign(original: Seq<usize>, permuted: Seq<usize>)
    requires
        original.len() <= usize::MAX,
        forall|a: int, b: int| 0 <= a < b < original.len() ==> original[a] != original[b],
        permuted.len() == original.len(),
        forall|i: int|
            0 <= i < permuted.len() ==> #[trigger] permuted[i] == original[(i + 1) % (
            original.len() as int)],
    ensures
        sign_between(original, permuted) == if original.len() >= 2 && original.len() % 2 == 0 {
            -1int
        } else {
            1int
        },
{
    let k = original.len();
    let rp = relative_perm(original, permuted);
    if k > 0 {
        assert forall|q: int| 0 <= q < k implies #[trigger] rp[q] == (q + 1) % (k as int) by {
            let p = (q + 1) % (k as int);
            assert(permuted[q] == original[p]);
            lemma_first_index_distinct(original, p, 0);
        }
        lemma_cycle_sign_rotation(rp, k, k as int);
    }
}

proof fn lemma_cycle_sign_identity(perm: Seq<usize>, k: nat, i: int)
    requires
        0 <= i <= k,
        perm.len() == k,
        forall|q: int| 0 <= q < k ==> #[trigger] perm[q] == q,
    ensures
        cycle_sign_upto(perm, k, i) == (marked_below(k, i), 1int),
    decreases i,
{
    if i == 0 {
        assert(cycle_sign_upto(perm, k, 0).0 =~= marked_below(k, 0));
    } else {
        lemma_cycle_sign_identity(perm, k, i - 1);
        let v = marked_below(k, i - 1);
        assert(v.update(i - 1, true) =~= marked_below(k, i));
        assert(perm[i - 1] as int == i - 1);
        assert(marked_below(k, i)[i - 1]);
        assert(walk(perm, marked_below(k, i), i - 1) == (marked_below(k, i), 0nat));
        assert(walk(perm, v, i - 1) == (marked_below(k, i), 1nat));
    }
}

/// Law: leaving distinct names where they are is the identity rearrangement,
/// whose sign is +1.
pub proof fn lemma_identity_sign(original: Seq<usize>)
    requires
        original.len() <= usize::MAX,
        forall|a: int, b: int| 0 <= a < b < original.len() ==> original[a] != original[b],
    ensures
        sign_between(original, original) == 1,
{
    let k = original.len();
    let rp = relative_perm(original, original);
    assert forall|q: int| 0 <= q < k implies #[trigger] rp[q] == q by {
        lemma_first_index_distinct(original, q, 0);
    }
    lemma_cycle_sign_identity(rp, k, k as int);
}

/// The variance of slot `slot` of a chain factor of rank `rank`: a vector
/// and the first slot of any other factor are upper, the others lower.
pub open spec fn chain_variance_spec(slot: usize, rank: usize) -> Variance {
    if rank == 1 || slot == 0 {
        Variance::Up
    } else {
        Variance::Down
    }
}

/// The variance of slot `slot` of a chain factor of rank `rank`.
pub fn chain_variance(slot: usize, rank: usize) -> (v: Variance)
    ensures
        v == chain_variance_spec(slot, rank),
{
    if rank == 1 {
        Variance::Up
    } else if slot == 0 {
        Variance::Up
    } else {
        Variance::Down
    }
}

/// The other variance.
pub fn opposite_variance(variance: Variance) -> (v: Variance)
    ensures
        v != variance,
{
    match variance {
        Variance::Up => Variance::Down,
        Variance::Down => Variance::Up,
    }
}

} // verus!
