//! Ranking the slots of an indexed factor by their indices, as a sparse
//! projector application orders them before looking up a canonical form.
use vstd::prelude::*;
use crate::indices::{Index, Variance};

verus! {

/// 0 for an upper index, 1 for a lower one.
pub open spec fn variance_rank_of(v: Variance) -> usize {
    match v {
        Variance::Up => 0,
        Variance::Down => 1,
    }
}

/// 0 for an upper index, 1 for a lower one.
pub fn variance_rank(variance: &Variance) -> (r: usize)
    ensures
        r == variance_rank_of(*variance),
{
    match variance {
        Variance::Up => 0,
        Variance::Down => 1,
    }
}

/// The key by which a slot is ranked: the name of its index, the rank of
/// its variance, its family (`usize::MAX` for none), and the slot itself.
pub open spec fn rank_key(indices: Seq<Index>, slot: usize) -> (usize, usize, usize, usize) {
    let ix = indices[slot as int];
    (
        ix.name,
        variance_rank_of(ix.variance),
        match ix.index_type {
            Some(f) => f,
            None => usize::MAX,
        },
        slot,
    )
}

/// Lexicographic order of keys.
pub open spec fn key_lt(a: (usize, usize, usize, usize), b: (usize, usize, usize, usize)) -> bool {
    ||| a.0 < b.0
    ||| a.0 == b.0 && a.1 < b.1
    ||| a.0 == b.0 && a.1 == b.1 && a.2 < b.2
    ||| a.0 == b.0 && a.1 == b.1 && a.2 == b.2 && a.3 < b.3
}

/// The keys of the slots of `slot_map`, in order.
pub open spec fn keys_of(indices: Seq<Index>, slot_map: Seq<usize>) -> Seq<(usize, usize, usize, usize)> {
    Seq::new(slot_map.len(), |o: int| rank_key(indices, slot_map[o]))
}

/// Entry `j` comes before entry `i` in a stable sort of the keys: a smaller
/// key, or an equal key earlier in the list.
pub open spec fn stably_before(keys: Seq<(usize, usize, usize, usize)>, j: int, i: int) -> bool {
    key_lt(keys[j], keys[i]) || (keys[j] == keys[i] && j < i)
}

/// How many of the first `m` entries come before entry `i`.
pub open spec fn count_before(keys: Seq<(usize, usize, usize, usize)>, i: int, m: int) -> nat
    decreases m,
{
    if m <= 0 {
        0
    } else {
        count_before(keys, i, m - 1) + if stably_before(keys, m - 1, i) {
            1nat
        } else {
            0nat
        }
    }
}

/// The position of each entry in a stable sort of the keys.
pub open spec fn stable_ranking(keys: Seq<(usize, usize, usize, usize)>) -> Seq<usize> {
    Seq::new(keys.len(), |i: int| count_before(keys, i, keys.len() as int) as usize)
}

fn key_precedes(a: (usize, usize, usize, usize), b: (usize, usize, usize, usize)) -> (r: bool)
    ensures
        r == key_lt(a, b),
{
    if a.0 != b.0 {
        return a.0 < b.0;
    }
    if a.1 != b.1 {
        return a.1 < b.1;
    }
    if a.2 != b.2 {
        return a.2 < b.2;
    }
    a.3 < b.3
}

fn slot_key(indices: &[Index], slot: usize) -> (k: (usize, usize, usize, usize))
    requires
        slot < indices@.len(),
    ensures
        k == rank_key(indices@, slot),
{
    let ix = &indices[slot];
    let family: usize = match ix.index_type {
        Some(f) => f,
        None => usize::MAX,
    };
    (ix.name, variance_rank(&ix.variance), family, slot)
}

proof fn lemma_count_before_le(keys: Seq<(usize, usize, usize, usize)>, i: int, m: int)
    requires
        0 <= m,
    ensures
        count_before(keys, i, m) <= m,
    decreases m,
{
    if m > 0 {
        lemma_count_before_le(keys, i, m - 1);
    }
}

/// The rank of each slot of `slot_map`: its position when the slots are
/// sorted stably by index name, variance, family and slot number.
pub fn slot_ranking(indices: &[Index], slot_map: &[usize]) -> (ranking: Vec<usize>)
    requires
        forall|o: int| 0 <= o < slot_map@.len() ==> #[trigger] slot_map@[o] < indices@.len(),
    ensures
        ranking@ == stable_ranking(keys_of(indices@, slot_map@)),
{
    let n = slot_map.len();
    let ghost keys = keys_of(indices@, slot_map@);
    let mut keys_vec: Vec<(usize, usize, usize, usize)> = Vec::new();
    let mut o: usize = 0;
    while o < n
        invariant
            n == slot_map.len(),
            o <= n,
            keys == keys_of(indices@, slot_map@),
            forall|q: int| 0 <= q < slot_map@.len() ==> #[trigger] slot_map@[q] < indices@.len(),
            keys_vec@ == keys.take(o as int),
        decreases n - o,
    {
        keys_vec.push(slot_key(indices, slot_map[o]));
        assert(keys_vec@ =~= keys.take(o as int + 1));
        o = o + 1;
    }
    assert(keys_vec@ =~= keys);
    let mut ranking: Vec<usize> = Vec::new();
    let mut i: usize = 0;
    while i < n
        invariant
            n == slot_map.len(),
            i <= n,
            keys_vec@ == keys,
            keys.len() == n,
            ranking@.len() == i,
            forall|q: int| 0 <= q < i ==> #[trigger] ranking@[q] == stable_ranking(keys)[q],
        decreases n - i,
    {
        let ki = keys_vec[i];
        let mut c: usize = 0;
        let mut j: usize = 0;
        while j < n
            invariant
                n == keys.len(),
                keys_vec@ == keys,
                i < n,
                j <= n,
                ki == keys[i as int],
                c == count_before(keys, i as int, j as int),
            decreases n - j,
        {
            proof {
                lemma_count_before_le(keys, i as int, j as int);
            }
            let kj = keys_vec[j];
            let before = key_precedes(kj, ki) || (kj.0 == ki.0 && kj.1 == ki.1 && kj.2 == ki.2 && kj.3 == ki.3
                && j < i);
            if before {
                c = c + 1;
            }
            j = j + 1;
        }
        ranking.push(c);
        i = i + 1;
    }
    assert(ranking@ =~= stable_ranking(keys));
    ranking
}

proof fn lemma_count_before_mono(keys: Seq<(usize, usize, usize, usize)>, a: int, b: int, m: int)
    requires
        0 <= m <= keys.len(),
        0 <= a < keys.len(),
        0 <= b < keys.len(),
        stably_before(keys, a, b),
    ensures
        count_before(keys, a, m) <= count_before(keys, b, m),
        m > a ==> count_before(keys, a, m) < count_before(keys, b, m),
    decreases m,
{
    if m > 0 {
        lemma_count_before_mono(keys, a, b, m - 1);
        let j = m - 1;
        if stably_before(keys, j, a) {
            assert(stably_before(keys, j, b));
        }
        if j == a {
            assert(!stably_before(keys, a, a));
        }
    }
}

/// The ranking puts the slots in the stable order of their keys: a slot
/// with a smaller key, or an equal key and an earlier position, gets a
/// smaller rank; every rank is below the number of slots, and no two slots
/// share a rank.
pub proof fn lemma_slot_ranking_order(keys: Seq<(usize, usize, usize, usize)>, a: int, b: int)
    requires
        0 <= a < keys.len(),
        0 <= b < keys.len(),
        keys.len() <= usize::MAX,
    ensures
        stably_before(keys, a, b) ==> stable_ranking(keys)[a] < stable_ranking(keys)[b],
        stable_ranking(keys)[a] < keys.len(),
        a != b ==> stable_ranking(keys)[a] != stable_ranking(keys)[b],
{
    let n = keys.len() as int;
    lemma_count_before_le(keys, a, n);
    lemma_count_before_le(keys, b, n);
    // entry a itself is not before a, so at most n - 1 entries are
    assert(count_before(keys, a, n) < n) by {
        lemma_count_before_self(keys, a, n);
    }
    if stably_before(keys, a, b) {
        lemma_count_before_mono(keys, a, b, n);
    }
    if a != b {
        if stably_before(keys, a, b) {
            lemma_count_before_mono(keys, a, b, n);
        } else {
            assert(stably_before(keys, b, a));
            lemma_count_before_mono(keys, b, a, n);
        }
    }
}

proof fn lemma_count_before_self(keys: Seq<(usize, usize, usize, usize)>, a: int, m: int)
    requires
        0 <= a < m <= keys.len(),
    ensures
        count_before(keys, a, m) < m,
    decreases m,
{
    if m - 1 > a {
        lemma_count_before_self(keys, a, m - 1);
    } else {
        lemma_count_before_le(keys, a, m - 1);
        assert(!stably_before(keys, a, a));
    }
}

} // verus!
