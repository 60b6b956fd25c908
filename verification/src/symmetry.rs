//! Slot symmetries of the tensor factors of a product, written as
//! generators of a permutation group on the index slots plus two sign points.
use vstd::prelude::*;
use crate::shape::seq_sum;

verus! {

/// The properties of a tensor that bear on its slot symmetries and on
/// exchanging it with another factor of a product.
pub enum TensorProperty {
    /// Symmetric under exchange of the listed slots.
    Symmetric(Vec<usize>),
    /// Antisymmetric under exchange of the listed slots.
    AntiSymmetric(Vec<usize>),
    /// The pair symmetries of the Riemann tensor on the first four slots.
    RiemannSymmetry,
    /// The pair symmetries of the Weyl tensor on the first four slots.
    WeylTensor,
    Metric,
    InverseMetric,
    KroneckerDelta,
    /// Totally antisymmetric.
    EpsilonTensor,
    /// A gamma matrix (antisymmetric in its slots, not exchangeable).
    GammaMatrixProp,
    /// Young symmetry: a diagram and the slots filling it row by row.
    TableauSymmetry { shape: Vec<usize>, indices: Vec<usize> },
    AntiCommuting,
    NonCommuting,
    Derivative,
    PartialDerivative,
    CovariantDerivative,
    DiracBar,
    Spinor,
    Traceless,
    /// Commutes with the listed symbols.
    CommutingWith(Vec<usize>),
    /// Anticommutes with the listed symbols.
    AntiCommutingWith(Vec<usize>),
    /// Does not commute with the listed symbols.
    NonCommutingWith(Vec<usize>),
    Trace,
    /// Any other property; it plays no part in slot symmetries.
    Other,
}

/// One indexed tensor of a product: its name (as a symbol key), how many
/// slots it has, where its slots start in the product, and its properties.
pub struct TensorFactorInfo {
    pub name: usize,
    pub n_indices: usize,
    pub start_position: usize,
    pub properties: Vec<TensorProperty>,
}

/// The identity permutation of `0 .. d`.
pub open spec fn identity_perm(d: nat) -> Seq<usize> {
    Seq::new(d, |k: int| k as usize)
}

/// `p` with the entries at `a` and `b` exchanged.
pub open spec fn swap_spec(p: Seq<usize>, a: int, b: int) -> Seq<usize> {
    p.update(a, p[b]).update(b, p[a])
}

/// The transposition of slots `l` and `r`, composed with the exchange of the
/// sign points when `signed`.
pub open spec fn slot_swap_perm(d: nat, sp: int, sn: int, l: int, r: int, signed: bool) -> Seq<usize> {
    let g = swap_spec(identity_perm(d), l, r);
    if signed {
        swap_spec(g, sp, sn)
    } else {
        g
    }
}

/// The generators for the first `w` adjacent pairs of `positions` (slots
/// relative to `start`), skipping pairs that reach past `n` slots.
pub open spec fn adjacent_gens_upto(
    d: nat,
    sp: int,
    sn: int,
    start: int,
    positions: Seq<usize>,
    signed: bool,
    n: int,
    w: int,
) -> Seq<Seq<usize>>
    decreases w,
{
    if w <= 0 {
        Seq::empty()
    } else {
        let prev = adjacent_gens_upto(d, sp, sn, start, positions, signed, n, w - 1);
        let a = positions[w - 1] as int;
        let b = positions[w] as int;
        if a >= n || b >= n {
            prev
        } else {
            prev.push(slot_swap_perm(d, sp, sn, start + a, start + b, signed))
        }
    }
}

/// The generators for all adjacent pairs of `positions`.
pub open spec fn adjacent_gens(
    d: nat,
    sp: int,
    sn: int,
    start: int,
    positions: Seq<usize>,
    signed: bool,
    n: int,
) -> Seq<Seq<usize>> {
    if positions.len() < 2 {
        Seq::empty()
    } else {
        adjacent_gens_upto(d, sp, sn, start, positions, signed, n, positions.len() - 1)
    }
}

/// Row `r` of a Young tableau: the slots `indices[c]` for the cells `c` of
/// that row (numbered row by row), those past the end of `indices` dropped.
pub open spec fn tableau_row(shape: Seq<usize>, indices: Seq<usize>, r: int) -> Seq<usize> {
    let start = seq_sum(shape.take(r));
    let end = start + shape[r];
    let lo = if start < indices.len() {
        start
    } else {
        indices.len() as int
    };
    let hi = if end < indices.len() {
        end
    } else {
        indices.len() as int
    };
    indices.subrange(lo, hi)
}

/// The nonempty rows of the tableau among the first `r` rows of `shape`.
pub open spec fn tableau_rows_upto(shape: Seq<usize>, indices: Seq<usize>, r: int) -> Seq<
    Seq<usize>,
>
    decreases r,
{
    if r <= 0 {
        Seq::empty()
    } else {
        let prev = tableau_rows_upto(shape, indices, r - 1);
        let row = tableau_row(shape, indices, r - 1);
        if shape[r - 1] == 0 || row.len() == 0 {
            prev
        } else {
            prev.push(row)
        }
    }
}

/// The longest row length of `shape` (0 for none).
pub open spec fn max_row(shape: Seq<usize>) -> int
    decreases shape.len(),
{
    if shape.len() == 0 {
        0
    } else {
        let m = max_row(shape.drop_last());
        if shape.last() as int > m {
            shape.last() as int
        } else {
            m
        }
    }
}

/// Column `col` of the tableau: the entry at `col` of each row long enough.
pub open spec fn tableau_column(rows: Seq<Seq<usize>>, col: int) -> Seq<usize>
    decreases rows.len(),
{
    if rows.len() == 0 {
        Seq::empty()
    } else {
        let prev = tableau_column(rows.drop_last(), col);
        if col < rows.last().len() {
            prev.push(rows.last()[col])
        } else {
            prev
        }
    }
}

/// The nonempty columns among the first `c` columns.
pub open spec fn tableau_columns_upto(rows: Seq<Seq<usize>>, c: int) -> Seq<Seq<usize>>
    decreases c,
{
    if c <= 0 {
        Seq::empty()
    } else {
        let prev = tableau_columns_upto(rows, c - 1);
        let column = tableau_column(rows, c - 1);
        if column.len() == 0 {
            prev
        } else {
            prev.push(column)
        }
    }
}

/// Concatenation of the generators of each group in `groups`.
pub open spec fn groups_gens(
    d: nat,
    sp: int,
    sn: int,
    start: int,
    groups: Seq<Seq<usize>>,
    signed: bool,
    n: int,
) -> Seq<Seq<usize>>
    decreases groups.len(),
{
    if groups.len() == 0 {
        Seq::empty()
    } else {
        groups_gens(d, sp, sn, start, groups.drop_last(), signed, n) + adjacent_gens(
            d,
            sp,
            sn,
            start,
            groups.last(),
            signed,
            n,
        )
    }
}

/// The three generators of the pair symmetries on the four slots from `s`.
pub open spec fn pair_symmetry_gens(d: nat, sp: int, sn: int, s: int) -> Seq<Seq<usize>> {
    seq![
        swap_spec(swap_spec(identity_perm(d), s, s + 1), sp, sn),
        swap_spec(swap_spec(identity_perm(d), s + 2, s + 3), sp, sn),
        swap_spec(swap_spec(identity_perm(d), s, s + 2), s + 1, s + 3),
    ]
}

/// The generators that one property of a factor contributes.
pub open spec fn prop_gens(d: nat, sp: int, sn: int, start: int, n: int, prop: TensorProperty) -> Seq<
    Seq<usize>,
> {
    match prop {
        TensorProperty::Symmetric(positions) => adjacent_gens(
            d,
            sp,
            sn,
            start,
            positions@,
            false,
            n,
        ),
        TensorProperty::AntiSymmetric(positions) => adjacent_gens(
            d,
            sp,
            sn,
            start,
            positions@,
            true,
            n,
        ),
        TensorProperty::RiemannSymmetry | TensorProperty::WeylTensor => if n >= 4 {
            pair_symmetry_gens(d, sp, sn, start)
        } else {
            Seq::empty()
        },
        TensorProperty::Metric | TensorProperty::InverseMetric | TensorProperty::KroneckerDelta => {
            if n >= 2 {
                seq![slot_swap_perm(d, sp, sn, start, start + 1, false)]
            } else {
                Seq::empty()
            }
        },
        TensorProperty::EpsilonTensor | TensorProperty::GammaMatrixProp => adjacent_gens(
            d,
            sp,
            sn,
            start,
            Seq::new(n as nat, |k: int| k as usize),
            true,
            n,
        ),
        TensorProperty::TableauSymmetry { shape, indices } => {
            let rows = tableau_rows_upto(shape@, indices@, shape@.len() as int);
            let columns = tableau_columns_upto(rows, max_row(shape@));
            groups_gens(d, sp, sn, start, rows, false, n) + groups_gens(
                d,
                sp,
                sn,
                start,
                columns,
                true,
                n,
            )
        },
        _ => Seq::empty(),
    }
}

/// The generators of the first `k` properties of a factor, in order.
pub open spec fn props_gens(
    d: nat,
    sp: int,
    sn: int,
    start: int,
    n: int,
    props: Seq<TensorProperty>,
    k: int,
) -> Seq<Seq<usize>>
    decreases k,
{
    if k <= 0 {
        Seq::empty()
    } else {
        props_gens(d, sp, sn, start, n, props, k - 1) + prop_gens(d, sp, sn, start, n, props[k - 1])
    }
}

/// The generators of all properties of the first `k` factors, in order.
pub open spec fn factors_gens(d: nat, sp: int, sn: int, factors: Seq<TensorFactorInfo>, k: int) -> Seq<
    Seq<usize>,
>
    decreases k,
{
    if k <= 0 {
        Seq::empty()
    } else {
        let f = factors[k - 1];
        factors_gens(d, sp, sn, factors, k - 1) + props_gens(
            d,
            sp,
            sn,
            f.start_position as int,
            f.n_indices as int,
            f.properties@,
            f.properties@.len() as int,
        )
    }
}

/// The property marks a factor as odd (anticommuting).
pub open spec fn is_anticommuting(p: TensorProperty) -> bool {
    p is AntiCommuting
}

/// The property forbids moving the factor past another one.
pub open spec fn is_noncommuting(p: TensorProperty) -> bool {
    ||| p is NonCommuting
    ||| p is Derivative
    ||| p is PartialDerivative
    ||| p is CovariantDerivative
    ||| p is DiracBar
    ||| p is GammaMatrixProp
}

/// Exchanging two factors flips the sign: both are anticommuting.
pub open spec fn exchange_sign(a: TensorFactorInfo, b: TensorFactorInfo) -> bool {
    (exists|i: int| 0 <= i < a.properties@.len() && is_anticommuting(#[trigger] a.properties@[i]))
        && (exists|i: int|
        0 <= i < b.properties@.len() && is_anticommuting(#[trigger] b.properties@[i]))
}

/// Two factors may be exchanged: neither is noncommuting.
pub open spec fn exchange_allowed(a: TensorFactorInfo, b: TensorFactorInfo) -> bool {
    (forall|i: int| 0 <= i < a.properties@.len() ==> !is_noncommuting(#[trigger] a.properties@[i]))
        && (forall|i: int|
        0 <= i < b.properties@.len() ==> !is_noncommuting(#[trigger] b.properties@[i]))
}

/// `p` with slot `sa + k` exchanged with slot `sb + k` for each `k < m`, in turn.
pub open spec fn block_swaps(p: Seq<usize>, sa: int, sb: int, m: int) -> Seq<usize>
    decreases m,
{
    if m <= 0 {
        p
    } else {
        swap_spec(block_swaps(p, sa, sb, m - 1), sa + (m - 1), sb + (m - 1))
    }
}

/// The generator exchanging two equal factors slot by slot, with the sign
/// points exchanged when both are anticommuting.
pub open spec fn exchange_perm(d: nat, sp: int, sn: int, a: TensorFactorInfo, b: TensorFactorInfo) -> Seq<
    usize,
> {
    let g = block_swaps(
        identity_perm(d),
        a.start_position as int,
        b.start_position as int,
        a.n_indices as int,
    );
    if exchange_sign(a, b) {
        swap_spec(g, sp, sn)
    } else {
        g
    }
}

/// Factors `i` and `j` have the same name and slot count and may be exchanged.
pub open spec fn exchangeable(factors: Seq<TensorFactorInfo>, i: int, j: int) -> bool {
    &&& factors[i].name == factors[j].name
    &&& factors[i].n_indices == factors[j].n_indices
    &&& exchange_allowed(factors[i], factors[j])
}

/// Exchange generators of factor `i` with the factors `i + 1 .. j`.
pub open spec fn exchange_row(d: nat, sp: int, sn: int, factors: Seq<TensorFactorInfo>, i: int, j: int) -> Seq<
    Seq<usize>,
>
    decreases j - i,
{
    if j <= i + 1 {
        Seq::empty()
    } else {
        let prev = exchange_row(d, sp, sn, factors, i, j - 1);
        if exchangeable(factors, i, j - 1) {
            prev.push(exchange_perm(d, sp, sn, factors[i], factors[j - 1]))
        } else {
            prev
        }
    }
}

/// Exchange generators for the factors `0 .. i` each with all later factors.
pub open spec fn exchange_gens(d: nat, sp: int, sn: int, factors: Seq<TensorFactorInfo>, i: int) -> Seq<
    Seq<usize>,
>
    decreases i,
{
    if i <= 0 {
        Seq::empty()
    } else {
        exchange_gens(d, sp, sn, factors, i - 1) + exchange_row(
            d,
            sp,
            sn,
            factors,
            i - 1,
            factors.len() as int,
        )
    }
}

/// Total slot count of the first `k` factors.
pub open spec fn total_slots(factors: Seq<TensorFactorInfo>, k: int) -> int
    decreases k,
{
    if k <= 0 {
        0
    } else {
        total_slots(factors, k - 1) + factors[k - 1].n_indices
    }
}

/// The generating set of the slot symmetries of a product: on `total + 2`
/// points, the last two standing for the sign; first the generators of each
/// factor's properties, then the exchanges of equal factors.
pub open spec fn generating_set(factors: Seq<TensorFactorInfo>) -> Seq<Seq<usize>> {
    let total = total_slots(factors, factors.len() as int);
    let d = (total + 2) as nat;
    factors_gens(d, total, total + 1, factors, factors.len() as int) + exchange_gens(
        d,
        total,
        total + 1,
        factors,
        factors.len() as int,
    )
}

/// The factors' slots lie within the product, and no tableau is too large
/// to number its cells.
pub open spec fn factors_well_formed(factors: Seq<TensorFactorInfo>) -> bool {
    let total = total_slots(factors, factors.len() as int);
    &&& total + 2 <= usize::MAX
    &&& forall|i: int|
        0 <= i < factors.len() ==> #[trigger] factors[i].start_position + factors[i].n_indices
            <= total
    &&& forall|i: int, k: int|
        0 <= i < factors.len() && 0 <= k < factors[i].properties@.len() ==> match #[trigger] factors[i].properties@[k] {
            TensorProperty::TableauSymmetry { shape, indices } => seq_sum(shape@) < usize::MAX,
            _ => true,
        }
}

/// The executable generators seen as sequences.
pub open spec fn perms_view(gens: Seq<Vec<usize>>) -> Seq<Seq<usize>> {
    gens.map_values(|g: Vec<usize>| g@)
}

/// The identity permutation of `0 .. degree`.
pub fn identity_permutation(degree: usize) -> (p: Vec<usize>)
    ensures
        p@ == identity_perm(degree as nat),
{
    let mut p: Vec<usize> = Vec::new();
    let mut k: usize = 0;
    while k < degree
        invariant
            k <= degree,
            p@ =~= Seq::new(k as nat, |q: int| q as usize),
        decreases degree - k,
    {
        p.push(k);
        k = k + 1;
    }
    p
}

/// Exchanges the entries at `a` and `b`.
fn swap_entries(p: &mut Vec<usize>, a: usize, b: usize)
    requires
        a < old(p).len(),
        b < old(p).len(),
    ensures
        final(p)@ == swap_spec(old(p)@, a as int, b as int),
{
    let x = p[a];
    let y = p[b];
    p.set(a, y);
    p.set(b, x);
}

/// Appends the transposition of slots `lhs` and `rhs` (with the sign points
/// exchanged when `signed`) to the generators.
pub fn push_slot_swap_generator(
    generators: &mut Vec<Vec<usize>>,
    degree: usize,
    sign_pos: usize,
    sign_neg: usize,
    lhs: usize,
    rhs: usize,
    signed: bool,
)
    requires
        lhs < degree,
        rhs < degree,
        sign_pos < degree,
        sign_neg < degree,
    ensures
        perms_view(final(generators)@) == perms_view(old(generators)@).push(
            slot_swap_perm(degree as nat, sign_pos as int, sign_neg as int, lhs as int, rhs as int, signed),
        ),
{
    let mut generator = identity_permutation(degree);
    swap_entries(&mut generator, lhs, rhs);
    if signed {
        swap_entries(&mut generator, sign_pos, sign_neg);
    }
    let ghost before = generators@;
    generators.push(generator);
    assert(perms_view(generators@) =~= perms_view(before).push(generator@));
}

/// Appends the generators for each adjacent pair of `positions` (relative to
/// `start_position`), skipping pairs that reach past `n_indices` slots.
pub fn push_adjacent_slot_generators(
    generators: &mut Vec<Vec<usize>>,
    degree: usize,
    sign_pos: usize,
    sign_neg: usize,
    start_position: usize,
    positions: &Vec<usize>,
    signed: bool,
    n_indices: usize,
)
    requires
        start_position + n_indices <= degree,
        sign_pos < degree,
        sign_neg < degree,
    ensures
        perms_view(final(generators)@) == perms_view(old(generators)@) + adjacent_gens(
            degree as nat,
            sign_pos as int,
            sign_neg as int,
            start_position as int,
            positions@,
            signed,
            n_indices as int,
        ),
{
    let ghost g0 = perms_view(generators@);
    if positions.len() < 2 {
        assert(perms_view(generators@) =~= g0 + Seq::<Seq<usize>>::empty());
        return;
    }
    let mut w: usize = 0;
    assert(perms_view(generators@) =~= g0 + adjacent_gens_upto(
        degree as nat,
        sign_pos as int,
        sign_neg as int,
        start_position as int,
        positions@,
        signed,
        n_indices as int,
        0,
    ));
    while w + 1 < positions.len()
        invariant
            positions.len() >= 2,
            w + 1 <= positions.len(),
            start_position + n_indices <= degree,
            sign_pos < degree,
            sign_neg < degree,
            perms_view(generators@) == g0 + adjacent_gens_upto(
                degree as nat,
                sign_pos as int,
                sign_neg as int,
                start_position as int,
                positions@,
                signed,
                n_indices as int,
                w as int,
            ),
        decreases positions.len() - w,
    {
        let a = positions[w];
        let b = positions[w + 1];
        if a < n_indices && b < n_indices {
            push_slot_swap_generator(
                generators,
                degree,
                sign_pos,
                sign_neg,
                start_position + a,
                start_position + b,
                signed,
            );
        }
        w = w + 1;
        assert(perms_view(generators@) =~= g0 + adjacent_gens_upto(
            degree as nat,
            sign_pos as int,
            sign_neg as int,
            start_position as int,
            positions@,
            signed,
            n_indices as int,
            w as int,
        ));
    }
}

proof fn lemma_seq_sum_take_le(shape: Seq<usize>, r: int)
    requires
        0 <= r <= shape.len(),
    ensures
        0 <= seq_sum(shape.take(r)) <= seq_sum(shape),
    decreases shape.len(),
{
    if r < shape.len() {
        assert(shape.drop_last().take(r) =~= shape.take(r));
        lemma_seq_sum_take_le(shape.drop_last(), r);
    } else {
        assert(shape.take(r) =~= shape);
        lemma_seq_sum_nonneg_sym(shape);
    }
}

proof fn lemma_seq_sum_nonneg_sym(s: Seq<usize>)
    ensures
        seq_sum(s) >= 0,
    decreases s.len(),
{
    if s.len() > 0 {
        lemma_seq_sum_nonneg_sym(s.drop_last());
    }
}

/// The rows and columns of the Young tableau whose cells, numbered row by
/// row, hold `indices`; empty rows and columns are left out.
pub fn tableau_groups_from_shape(shape: &Vec<usize>, indices: &Vec<usize>) -> (res: (
    Vec<Vec<usize>>,
    Vec<Vec<usize>>,
))
    requires
        seq_sum(shape@) < usize::MAX,
    ensures
        perms_view(res.0@) == tableau_rows_upto(shape@, indices@, shape@.len() as int),
        perms_view(res.1@) == tableau_columns_upto(
            tableau_rows_upto(shape@, indices@, shape@.len() as int),
            max_row(shape@),
        ),
{
    let mut rows: Vec<Vec<usize>> = Vec::new();
    let mut cursor: usize = 0;
    let mut r: usize = 0;
    let ghost il = indices@.len() as int;
    while r < shape.len()
        invariant
            r <= shape.len(),
            seq_sum(shape@) < usize::MAX,
            il == indices@.len(),
            cursor == seq_sum(shape@.take(r as int)),
            perms_view(rows@) == tableau_rows_upto(shape@, indices@, r as int),
        decreases shape.len() - r,
    {
        let row_len = shape[r];
        proof {
            assert(shape@.take(r as int + 1).drop_last() =~= shape@.take(r as int));
            lemma_seq_sum_take_le(shape@, r as int + 1);
        }
        let ghost start = cursor as int;
        let mut row: Vec<usize> = Vec::new();
        let mut t: usize = 0;
        let ghost lo = if start < il { start } else { il };
        assert(indices@.subrange(lo, lo) =~= Seq::<usize>::empty());
        while t < row_len
            invariant
                t <= row_len,
                r < shape.len(),
                0 <= start,
                row_len == shape@[r as int],
                cursor == start + t,
                start + row_len < usize::MAX,
                il == indices@.len(),
                lo == (if start < il { start } else { il }),
                row@ == indices@.subrange(lo, if cursor < il { cursor as int } else { il }),
            decreases row_len - t,
        {
            if cursor < indices.len() {
                let ghost c = cursor as int;
                assert(0 <= lo <= c < il);
                let ghost old_row = row@;
                row.push(indices[cursor]);
                assert(old_row == indices@.subrange(lo, c));
                assert(row@ =~= indices@.subrange(lo, c + 1));
            }
            cursor = cursor + 1;
            t = t + 1;
        }
        assert(row@ == tableau_row(shape@, indices@, r as int));
        if row_len > 0 && row.len() > 0 {
            let ghost before = rows@;
            rows.push(row);
            assert(perms_view(rows@) =~= perms_view(before).push(tableau_row(shape@, indices@, r as int)));
        }
        r = r + 1;
    }
    assert(shape@.take(shape@.len() as int) =~= shape@);
    let ghost rv = perms_view(rows@);
    let mut max_cols: usize = 0;
    let mut m: usize = 0;
    while m < shape.len()
        invariant
            m <= shape.len(),
            max_cols == max_row(shape@.take(m as int)),
        decreases shape.len() - m,
    {
        assert(shape@.take(m as int + 1).drop_last() =~= shape@.take(m as int));
        if shape[m] > max_cols {
            max_cols = shape[m];
        }
        m = m + 1;
    }
    let mut columns: Vec<Vec<usize>> = Vec::new();
    let mut col: usize = 0;
    while col < max_cols
        invariant
            col <= max_cols,
            max_cols == max_row(shape@),
            rv == perms_view(rows@),
            perms_view(columns@) == tableau_columns_upto(rv, col as int),
        decreases max_cols - col,
    {
        let mut column: Vec<usize> = Vec::new();
        let mut q: usize = 0;
        while q < rows.len()
            invariant
                q <= rows.len(),
                rv == perms_view(rows@),
                column@ == tableau_column(rv.take(q as int), col as int),
            decreases rows.len() - q,
        {
            assert(rv.take(q as int + 1).drop_last() =~= rv.take(q as int));
            assert(rv.take(q as int + 1).last() == rows@[q as int]@);
            if col < rows[q].len() {
                column.push(rows[q][col]);
            }
            q = q + 1;
        }
        assert(rv.take(rv.len() as int) =~= rv);
        if column.len() > 0 {
            let ghost before = columns@;
            columns.push(column);
            assert(perms_view(columns@) =~= perms_view(before).push(tableau_column(rv, col as int)));
        }
        col = col + 1;
    }
    (rows, columns)
}

/// Whether both factors are anticommuting, so that exchanging them flips the sign.
pub fn factor_exchange_sign(lhs: &TensorFactorInfo, rhs: &TensorFactorInfo) -> (b: bool)
    ensures
        b == exchange_sign(*lhs, *rhs),
{
    let l = has_anticommuting(&lhs.properties);
    let r = has_anticommuting(&rhs.properties);
    l && r
}

fn has_anticommuting(props: &Vec<TensorProperty>) -> (b: bool)
    ensures
        b == exists|i: int| 0 <= i < props@.len() && is_anticommuting(#[trigger] props@[i]),
{
    let mut i: usize = 0;
    while i < props.len()
        invariant
            i <= props.len(),
            forall|k: int| 0 <= k < i ==> !is_anticommuting(#[trigger] props@[k]),
        decreases props.len() - i,
    {
        match &props[i] {
            TensorProperty::AntiCommuting => {
                assert(is_anticommuting(props@[i as int]));
                return true;
            },
            _ => {},
        }
        i = i + 1;
    }
    false
}

fn has_noncommuting(props: &Vec<TensorProperty>) -> (b: bool)
    ensures
        b == exists|i: int| 0 <= i < props@.len() && is_noncommuting(#[trigger] props@[i]),
{
    let mut i: usize = 0;
    while i < props.len()
        invariant
            i <= props.len(),
            forall|k: int| 0 <= k < i ==> !is_noncommuting(#[trigger] props@[k]),
        decreases props.len() - i,
    {
        let hit = match &props[i] {
            TensorProperty::NonCommuting => true,
            TensorProperty::Derivative => true,
            TensorProperty::PartialDerivative => true,
            TensorProperty::CovariantDerivative => true,
            TensorProperty::DiracBar => true,
            TensorProperty::GammaMatrixProp => true,
            _ => false,
        };
        if hit {
            assert(is_noncommuting(props@[i as int]));
            return true;
        }
        i = i + 1;
    }
    false
}

/// Whether neither factor is noncommuting, so that they may trade places.
pub fn factor_exchange_allowed(lhs: &TensorFactorInfo, rhs: &TensorFactorInfo) -> (b: bool)
    ensures
        b == exchange_allowed(*lhs, *rhs),
{
    !has_noncommuting(&lhs.properties) && !has_noncommuting(&rhs.properties)
}

proof fn lemma_total_slots_prefix(factors: Seq<TensorFactorInfo>, k: int, m: int)
    requires
        0 <= k <= m,
    ensures
        total_slots(factors, k) <= total_slots(factors, m),
    decreases m - k,
{
    if k < m {
        lemma_total_slots_prefix(factors, k, m - 1);
    }
}

/// The generators contributed by the first `k` properties of one factor.
fn push_property_generators(
    generators: &mut Vec<Vec<usize>>,
    degree: usize,
    sign_pos: usize,
    sign_neg: usize,
    factor: &TensorFactorInfo,
)
    requires
        factor.start_position + factor.n_indices <= sign_pos,
        sign_pos < degree,
        sign_neg < degree,
        forall|k: int|
            0 <= k < factor.properties@.len() ==> match #[trigger] factor.properties@[k] {
                TensorProperty::TableauSymmetry { shape, indices } => seq_sum(shape@) < usize::MAX,
                _ => true,
            },
    ensures
        perms_view(final(generators)@) == perms_view(old(generators)@) + props_gens(
            degree as nat,
            sign_pos as int,
            sign_neg as int,
            factor.start_position as int,
            factor.n_indices as int,
            factor.properties@,
            factor.properties@.len() as int,
        ),
{
    let ghost g0 = perms_view(generators@);
    let ghost d = degree as nat;
    let ghost sp = sign_pos as int;
    let ghost sn = sign_neg as int;
    let start = factor.start_position;
    let n = factor.n_indices;
    let ghost props = factor.properties@;
    let mut k: usize = 0;
    assert(perms_view(generators@) =~= g0 + props_gens(d, sp, sn, start as int, n as int, props, 0));
    while k < factor.properties.len()
        invariant
            props == factor.properties@,
            start == factor.start_position,
            n == factor.n_indices,
            start + n <= sign_pos,
            sign_pos < degree,
            sign_neg < degree,
            d == degree as nat,
            sp == sign_pos as int,
            sn == sign_neg as int,
            forall|q: int|
                0 <= q < props.len() ==> match #[trigger] props[q] {
                    TensorProperty::TableauSymmetry { shape, indices } => seq_sum(shape@) < usize::MAX,
                    _ => true,
                },
            k <= props.len(),
            perms_view(generators@) == g0 + props_gens(d, sp, sn, start as int, n as int, props, k as int),
        decreases props.len() - k,
    {
        let ghost before = perms_view(generators@);
        let ghost pg = prop_gens(d, sp, sn, start as int, n as int, props[k as int]);
        match &factor.properties[k] {
            TensorProperty::Symmetric(positions) => {
                push_adjacent_slot_generators(generators, degree, sign_pos, sign_neg, start, positions, false, n);
            },
            TensorProperty::AntiSymmetric(positions) => {
                push_adjacent_slot_generators(generators, degree, sign_pos, sign_neg, start, positions, true, n);
            },
            TensorProperty::RiemannSymmetry | TensorProperty::WeylTensor => {
                if n >= 4 {
                    let mut g1 = identity_permutation(degree);
                    swap_entries(&mut g1, start, start + 1);
                    swap_entries(&mut g1, sign_pos, sign_neg);
                    generators.push(g1);
                    let mut g2 = identity_permutation(degree);
                    swap_entries(&mut g2, start + 2, start + 3);
                    swap_entries(&mut g2, sign_pos, sign_neg);
                    generators.push(g2);
                    let mut g3 = identity_permutation(degree);
                    swap_entries(&mut g3, start, start + 2);
                    swap_entries(&mut g3, start + 1, start + 3);
                    generators.push(g3);
                    assert(perms_view(generators@) =~= before + pair_symmetry_gens(d, sp, sn, start as int));
                } else {
                    assert(perms_view(generators@) =~= before + Seq::<Seq<usize>>::empty());
                }
            },
            TensorProperty::Metric | TensorProperty::InverseMetric | TensorProperty::KroneckerDelta => {
                if n >= 2 {
                    push_slot_swap_generator(generators, degree, sign_pos, sign_neg, start, start + 1, false);
                    assert(perms_view(generators@) =~= before + seq![slot_swap_perm(d, sp, sn, start as int, start + 1, false)]);
                } else {
                    assert(perms_view(generators@) =~= before + Seq::<Seq<usize>>::empty());
                }
            },
            TensorProperty::EpsilonTensor | TensorProperty::GammaMatrixProp => {
                let positions = identity_permutation(n);
                push_adjacent_slot_generators(generators, degree, sign_pos, sign_neg, start, &positions, true, n);
            },
            TensorProperty::TableauSymmetry { shape, indices } => {
                assert(seq_sum(shape@) < usize::MAX);
                let (rows, columns) = tableau_groups_from_shape(shape, indices);
                let ghost rv = perms_view(rows@);
                let ghost cv = perms_view(columns@);
                let mut q: usize = 0;
                assert(rv.take(0) =~= Seq::<Seq<usize>>::empty());
                assert(perms_view(generators@) =~= before + groups_gens(d, sp, sn, start as int, rv.take(0), false, n as int));
                while q < rows.len()
                    invariant
                        q <= rows.len(),
                        rv == perms_view(rows@),
                        start + n <= sign_pos,
                        sign_pos < degree,
                        sign_neg < degree,
                        d == degree as nat,
                        sp == sign_pos as int,
                        sn == sign_neg as int,
                        perms_view(generators@) == before + groups_gens(d, sp, sn, start as int, rv.take(q as int), false, n as int),
                    decreases rows.len() - q,
                {
                    assert(rv.take(q as int + 1).drop_last() =~= rv.take(q as int));
                    assert(rv.take(q as int + 1).last() == rows@[q as int]@);
                    push_adjacent_slot_generators(generators, degree, sign_pos, sign_neg, start, &rows[q], false, n);
                    q = q + 1;
                }
                assert(rv.take(rv.len() as int) =~= rv);
                let ghost mid = perms_view(generators@);
                let mut c: usize = 0;
                assert(cv.take(0) =~= Seq::<Seq<usize>>::empty());
                assert(perms_view(generators@) =~= mid + groups_gens(d, sp, sn, start as int, cv.take(0), true, n as int));
                while c < columns.len()
                    invariant
                        c <= columns.len(),
                        cv == perms_view(columns@),
                        start + n <= sign_pos,
                        sign_pos < degree,
                        sign_neg < degree,
                        d == degree as nat,
                        sp == sign_pos as int,
                        sn == sign_neg as int,
                        perms_view(generators@) == mid + groups_gens(d, sp, sn, start as int, cv.take(c as int), true, n as int),
                    decreases columns.len() - c,
                {
                    assert(cv.take(c as int + 1).drop_last() =~= cv.take(c as int));
                    assert(cv.take(c as int + 1).last() == columns@[c as int]@);
                    push_adjacent_slot_generators(generators, degree, sign_pos, sign_neg, start, &columns[c], true, n);
                    c = c + 1;
                }
                assert(cv.take(cv.len() as int) =~= cv);
                assert(perms_view(generators@) =~= before + pg);
            },
            _ => {
                assert(perms_view(generators@) =~= before + Seq::<Seq<usize>>::empty());
            },
        }
        assert(perms_view(generators@) =~= before + pg);
        k = k + 1;
    }
}

/// The generator exchanging factor `a` with factor `b` slot by slot, with the
/// sign points exchanged when both are anticommuting.
fn exchange_generator(
    degree: usize,
    sign_pos: usize,
    sign_neg: usize,
    a: &TensorFactorInfo,
    b: &TensorFactorInfo,
) -> (g: Vec<usize>)
    requires
        a.start_position + a.n_indices <= sign_pos,
        b.start_position + a.n_indices <= sign_pos,
        sign_pos < degree,
        sign_neg < degree,
    ensures
        g@ == exchange_perm(degree as nat, sign_pos as int, sign_neg as int, *a, *b),
{
    let mut generator = identity_permutation(degree);
    let mut k: usize = 0;
    while k < a.n_indices
        invariant
            k <= a.n_indices,
            a.start_position + a.n_indices <= sign_pos,
            b.start_position + a.n_indices <= sign_pos,
            sign_pos < degree,
            generator@.len() == degree,
            generator@ == block_swaps(
                identity_perm(degree as nat),
                a.start_position as int,
                b.start_position as int,
                k as int,
            ),
        decreases a.n_indices - k,
    {
        swap_entries(&mut generator, a.start_position + k, b.start_position + k);
        k = k + 1;
    }
    if factor_exchange_sign(a, b) {
        swap_entries(&mut generator, sign_pos, sign_neg);
    }
    generator
}

/// The generating set of the slot symmetries of the product whose factors
/// are `factors`, acting on the slots and two sign points after them: the
/// generators of each factor's symmetry properties, then one generator for
/// each exchangeable pair of equal factors.
pub fn build_generating_set(factors: &[TensorFactorInfo]) -> (gens: Vec<Vec<usize>>)
    requires
        factors_well_formed(factors@),
    ensures
        perms_view(gens@) == generating_set(factors@),
{
    let ghost fs = factors@;
    let ghost total_spec = total_slots(fs, fs.len() as int);
    let mut total: usize = 0;
    let mut i: usize = 0;
    while i < factors.len()
        invariant
            fs == factors@,
            i <= factors.len(),
            total_spec == total_slots(fs, fs.len() as int),
            total_spec + 2 <= usize::MAX,
            total == total_slots(fs, i as int),
        decreases factors.len() - i,
    {
        proof {
            lemma_total_slots_prefix(fs, i as int + 1, fs.len() as int);
        }
        total = total + factors[i].n_indices;
        i = i + 1;
    }
    let degree = total + 2;
    let sign_pos = total;
    let sign_neg = total + 1;
    let ghost d = degree as nat;
    let ghost sp = sign_pos as int;
    let ghost sn = sign_neg as int;
    let mut generators: Vec<Vec<usize>> = Vec::new();
    assert(perms_view(generators@) =~= factors_gens(d, sp, sn, fs, 0));
    let mut i: usize = 0;
    while i < factors.len()
        invariant
            fs == factors@,
            factors_well_formed(fs),
            total == total_slots(fs, fs.len() as int),
            degree == total + 2,
            sign_pos == total,
            sign_neg == total + 1,
            d == degree as nat,
            sp == sign_pos as int,
            sn == sign_neg as int,
            i <= factors.len(),
            perms_view(generators@) == factors_gens(d, sp, sn, fs, i as int),
        decreases factors.len() - i,
    {
        assert(fs[i as int].start_position + fs[i as int].n_indices <= total);
        assert forall|k: int|
            0 <= k < fs[i as int].properties@.len() implies match #[trigger] fs[i as int].properties@[k] {
                TensorProperty::TableauSymmetry { shape, indices } => seq_sum(shape@) < usize::MAX,
                _ => true,
            } by {
            assert(match fs[i as int].properties@[k] {
                TensorProperty::TableauSymmetry { shape, indices } => seq_sum(shape@) < usize::MAX,
                _ => true,
            });
        }
        push_property_generators(&mut generators, degree, sign_pos, sign_neg, &factors[i]);
        i = i + 1;
    }
    let ghost fg = perms_view(generators@);
    assert(perms_view(generators@) =~= fg + exchange_gens(d, sp, sn, fs, 0));
    let mut i: usize = 0;
    while i < factors.len()
        invariant
            fs == factors@,
            factors_well_formed(fs),
            total == total_slots(fs, fs.len() as int),
            degree == total + 2,
            sign_pos == total,
            sign_neg == total + 1,
            d == degree as nat,
            sp == sign_pos as int,
            sn == sign_neg as int,
            i <= factors.len(),
            perms_view(generators@) == fg + exchange_gens(d, sp, sn, fs, i as int),
        decreases factors.len() - i,
    {
        let ghost before = perms_view(generators@);
        let mut j: usize = i + 1;
        assert(perms_view(generators@) =~= before + exchange_row(d, sp, sn, fs, i as int, j as int));
        while j < factors.len()
            invariant
                fs == factors@,
                factors_well_formed(fs),
                total == total_slots(fs, fs.len() as int),
                degree == total + 2,
                sign_pos == total,
                sign_neg == total + 1,
                d == degree as nat,
                sp == sign_pos as int,
                sn == sign_neg as int,
                i < factors.len(),
                i + 1 <= j <= factors.len(),
                perms_view(generators@) == before + exchange_row(d, sp, sn, fs, i as int, j as int),
            decreases factors.len() - j,
        {
            let ghost b2 = perms_view(generators@);
            if factors[i].name == factors[j].name && factors[i].n_indices == factors[j].n_indices
                && factor_exchange_allowed(&factors[i], &factors[j]) {
                assert(fs[i as int].start_position + fs[i as int].n_indices <= total);
                assert(fs[j as int].start_position + fs[j as int].n_indices <= total);
                let g = exchange_generator(degree, sign_pos, sign_neg, &factors[i], &factors[j]);
                generators.push(g);
                assert(perms_view(generators@) =~= b2.push(g@));
            }
            assert(perms_view(generators@) =~= before + exchange_row(d, sp, sn, fs, i as int, j + 1));
            j = j + 1;
        }
        assert(perms_view(generators@) =~= fg + exchange_gens(d, sp, sn, fs, i + 1));
        i = i + 1;
    }
    generators
}

// ---------------------------------------------------------------------------
// Every generator is a permutation that keeps the slots among themselves.
// ---------------------------------------------------------------------------

/// `g` is a permutation of `0 .. d` that maps the slots `0 .. total` onto
/// slots (so the points `total ..` are permuted among themselves).
pub open spec fn slot_permutation(g: Seq<usize>, d: int, total: int) -> bool {
    &&& g.len() == d
    &&& forall|k: int| 0 <= k < d ==> #[trigger] g[k] < d
    &&& forall|a: int, b: int| 0 <= a < d && 0 <= b < d && a != b ==> g[a] != g[b]
    &&& forall|k: int| 0 <= k < total ==> #[trigger] g[k] < total
    &&& forall|k: int| total <= k < d ==> #[trigger] g[k] >= total
}

pub open spec fn all_slot_permutations(gs: Seq<Seq<usize>>, d: int, total: int) -> bool {
    forall|i: int| 0 <= i < gs.len() ==> slot_permutation(#[trigger] gs[i], d, total)
}

proof fn lemma_identity_slot_perm(d: nat, total: int)
    requires
        0 <= total <= d,
        d <= usize::MAX,
    ensures
        slot_permutation(identity_perm(d), d as int, total),
{
    let g = identity_perm(d);
    assert forall|k: int| 0 <= k < d implies #[trigger] g[k] == k by {}
}

proof fn lemma_swap_slot_perm(g: Seq<usize>, d: int, total: int, a: int, b: int)
    requires
        slot_permutation(g, d, total),
        0 <= total <= d,
        0 <= a < d,
        0 <= b < d,
        (a < total) == (b < total),
    ensures
        slot_permutation(swap_spec(g, a, b), d, total),
{
    let h = swap_spec(g, a, b);
    assert forall|k: int| 0 <= k < d implies #[trigger] h[k] == (if k == b {
        g[a]
    } else if k == a {
        g[b]
    } else {
        g[k]
    }) by {}
    assert forall|x: int, y: int| 0 <= x < d && 0 <= y < d && x != y implies h[x] != h[y] by {
        let x0 = if x == b { a } else if x == a { b } else { x };
        let y0 = if y == b { a } else if y == a { b } else { y };
        assert(h[x] == g[x0]);
        assert(h[y] == g[y0]);
    }
    assert forall|k: int| 0 <= k < d implies #[trigger] h[k] < d by {
        assert(h[k] == (if k == b { g[a] } else if k == a { g[b] } else { g[k] }));
    }
    assert forall|k: int| 0 <= k < total implies #[trigger] h[k] < total by {
        assert(h[k] == (if k == b { g[a] } else if k == a { g[b] } else { g[k] }));
    }
    assert forall|k: int| total <= k < d implies #[trigger] h[k] >= total by {
        assert(h[k] == (if k == b { g[a] } else if k == a { g[b] } else { g[k] }));
    }
    assert(h.len() == d);
}

proof fn lemma_slot_swap_good(d: nat, total: int, l: int, r: int, signed: bool)
    requires
        0 <= l < total,
        0 <= r < total,
        total + 2 == d,
        d <= usize::MAX,
        0 <= total,
    ensures
        slot_permutation(slot_swap_perm(d, total, total + 1, l, r, signed), d as int, total),
{
    lemma_identity_slot_perm(d, total);
    lemma_swap_slot_perm(identity_perm(d), d as int, total, l, r);
    if signed {
        lemma_swap_slot_perm(swap_spec(identity_perm(d), l, r), d as int, total, total, total + 1);
    }
}

proof fn lemma_adjacent_good(
    d: nat,
    total: int,
    start: int,
    positions: Seq<usize>,
    signed: bool,
    n: int,
    w: int,
)
    requires
        total + 2 == d,
        d <= usize::MAX,
        0 <= total,
        0 <= start,
        start + n <= total,
        w < positions.len(),
    ensures
        all_slot_permutations(
            adjacent_gens_upto(d, total, total + 1, start, positions, signed, n, w),
            d as int,
            total,
        ),
    decreases w,
{
    if w > 0 {
        lemma_adjacent_good(d, total, start, positions, signed, n, w - 1);
        let a = positions[w - 1] as int;
        let b = positions[w] as int;
        if a < n && b < n {
            lemma_slot_swap_good(d, total, start + a, start + b, signed);
        }
    }
}

proof fn lemma_adjacent_all_good(
    d: nat,
    total: int,
    start: int,
    positions: Seq<usize>,
    signed: bool,
    n: int,
)
    requires
        total + 2 == d,
        d <= usize::MAX,
        0 <= total,
        0 <= start,
        start + n <= total,
    ensures
        all_slot_permutations(
            adjacent_gens(d, total, total + 1, start, positions, signed, n),
            d as int,
            total,
        ),
{
    if positions.len() >= 2 {
        lemma_adjacent_good(d, total, start, positions, signed, n, positions.len() - 1);
    }
}

proof fn lemma_concat_good(a: Seq<Seq<usize>>, b: Seq<Seq<usize>>, d: int, total: int)
    requires
        all_slot_permutations(a, d, total),
        all_slot_permutations(b, d, total),
    ensures
        all_slot_permutations(a + b, d, total),
{
    assert forall|i: int| 0 <= i < (a + b).len() implies slot_permutation(#[trigger] (a + b)[i], d, total) by {
        if i < a.len() {
            assert((a + b)[i] == a[i]);
        } else {
            assert((a + b)[i] == b[i - a.len()]);
        }
    }
}

proof fn lemma_groups_good(
    d: nat,
    total: int,
    start: int,
    groups: Seq<Seq<usize>>,
    signed: bool,
    n: int,
)
    requires
        total + 2 == d,
        d <= usize::MAX,
        0 <= total,
        0 <= start,
        start + n <= total,
    ensures
        all_slot_permutations(groups_gens(d, total, total + 1, start, groups, signed, n), d as int, total),
    decreases groups.len(),
{
    if groups.len() > 0 {
        lemma_groups_good(d, total, start, groups.drop_last(), signed, n);
        lemma_adjacent_all_good(d, total, start, groups.last(), signed, n);
        lemma_concat_good(
            groups_gens(d, total, total + 1, start, groups.drop_last(), signed, n),
            adjacent_gens(d, total, total + 1, start, groups.last(), signed, n),
            d as int,
            total,
        );
    }
}

proof fn lemma_prop_good(d: nat, total: int, start: int, n: int, prop: TensorProperty)
    requires
        total + 2 == d,
        d <= usize::MAX,
        0 <= total,
        0 <= start,
        0 <= n,
        start + n <= total,
    ensures
        all_slot_permutations(prop_gens(d, total, total + 1, start, n, prop), d as int, total),
{
    let sp = total;
    let sn = total + 1;
    match prop {
        TensorProperty::Symmetric(positions) => {
            lemma_adjacent_all_good(d, total, start, positions@, false, n);
        },
        TensorProperty::AntiSymmetric(positions) => {
            lemma_adjacent_all_good(d, total, start, positions@, true, n);
        },
        TensorProperty::RiemannSymmetry | TensorProperty::WeylTensor => {
            if n >= 4 {
                let id = identity_perm(d);
                lemma_identity_slot_perm(d, total);
                lemma_swap_slot_perm(id, d as int, total, start, start + 1);
                lemma_swap_slot_perm(swap_spec(id, start, start + 1), d as int, total, sp, sn);
                lemma_swap_slot_perm(id, d as int, total, start + 2, start + 3);
                lemma_swap_slot_perm(swap_spec(id, start + 2, start + 3), d as int, total, sp, sn);
                lemma_swap_slot_perm(id, d as int, total, start, start + 2);
                lemma_swap_slot_perm(swap_spec(id, start, start + 2), d as int, total, start + 1, start + 3);
            }
        },
        TensorProperty::Metric | TensorProperty::InverseMetric | TensorProperty::KroneckerDelta => {
            if n >= 2 {
                lemma_slot_swap_good(d, total, start, start + 1, false);
            }
        },
        TensorProperty::EpsilonTensor | TensorProperty::GammaMatrixProp => {
            lemma_adjacent_all_good(d, total, start, Seq::new(n as nat, |k: int| k as usize), true, n);
        },
        TensorProperty::TableauSymmetry { shape, indices } => {
            let rows = tableau_rows_upto(shape@, indices@, shape@.len() as int);
            let columns = tableau_columns_upto(rows, max_row(shape@));
            lemma_groups_good(d, total, start, rows, false, n);
            lemma_groups_good(d, total, start, columns, true, n);
            lemma_concat_good(
                groups_gens(d, sp, sn, start, rows, false, n),
                groups_gens(d, sp, sn, start, columns, true, n),
                d as int,
                total,
            );
        },
        _ => {},
    }
}

proof fn lemma_props_good(d: nat, total: int, start: int, n: int, props: Seq<TensorProperty>, k: int)
    requires
        total + 2 == d,
        d <= usize::MAX,
        0 <= total,
        0 <= start,
        0 <= n,
        start + n <= total,
        k <= props.len(),
    ensures
        all_slot_permutations(props_gens(d, total, total + 1, start, n, props, k), d as int, total),
    decreases k,
{
    if k > 0 {
        lemma_props_good(d, total, start, n, props, k - 1);
        lemma_prop_good(d, total, start, n, props[k - 1]);
        lemma_concat_good(
            props_gens(d, total, total + 1, start, n, props, k - 1),
            prop_gens(d, total, total + 1, start, n, props[k - 1]),
            d as int,
            total,
        );
    }
}

proof fn lemma_factors_good(d: nat, total: int, factors: Seq<TensorFactorInfo>, k: int)
    requires
        total + 2 == d,
        d <= usize::MAX,
        0 <= total,
        k <= factors.len(),
        forall|i: int|
            0 <= i < factors.len() ==> #[trigger] factors[i].start_position + factors[i].n_indices
                <= total,
    ensures
        all_slot_permutations(factors_gens(d, total, total + 1, factors, k), d as int, total),
    decreases k,
{
    if k > 0 {
        let f = factors[k - 1];
        assert(f.start_position + f.n_indices <= total);
        lemma_factors_good(d, total, factors, k - 1);
        lemma_props_good(
            d,
            total,
            f.start_position as int,
            f.n_indices as int,
            f.properties@,
            f.properties@.len() as int,
        );
        lemma_concat_good(
            factors_gens(d, total, total + 1, factors, k - 1),
            props_gens(
                d,
                total,
                total + 1,
                f.start_position as int,
                f.n_indices as int,
                f.properties@,
                f.properties@.len() as int,
            ),
            d as int,
            total,
        );
    }
}

proof fn lemma_block_swaps_good(d: nat, total: int, sa: int, sb: int, m: int)
    requires
        total + 2 == d,
        d <= usize::MAX,
        0 <= total,
        0 <= sa,
        0 <= sb,
        sa + m <= total,
        sb + m <= total,
    ensures
        slot_permutation(block_swaps(identity_perm(d), sa, sb, m), d as int, total),
    decreases m,
{
    if m <= 0 {
        lemma_identity_slot_perm(d, total);
    } else {
        lemma_block_swaps_good(d, total, sa, sb, m - 1);
        lemma_swap_slot_perm(
            block_swaps(identity_perm(d), sa, sb, m - 1),
            d as int,
            total,
            sa + (m - 1),
            sb + (m - 1),
        );
    }
}

proof fn lemma_exchange_row_good(d: nat, total: int, factors: Seq<TensorFactorInfo>, i: int, j: int)
    requires
        total + 2 == d,
        d <= usize::MAX,
        0 <= total,
        0 <= i < factors.len(),
        j <= factors.len(),
        forall|q: int|
            0 <= q < factors.len() ==> #[trigger] factors[q].start_position + factors[q].n_indices
                <= total,
    ensures
        all_slot_permutations(exchange_row(d, total, total + 1, factors, i, j), d as int, total),
    decreases j - i,
{
    if j > i + 1 {
        lemma_exchange_row_good(d, total, factors, i, j - 1);
        if exchangeable(factors, i, j - 1) {
            let a = factors[i];
            let b = factors[j - 1];
            assert(a.start_position + a.n_indices <= total);
            assert(b.start_position + b.n_indices <= total);
            lemma_block_swaps_good(
                d,
                total,
                a.start_position as int,
                b.start_position as int,
                a.n_indices as int,
            );
            if exchange_sign(a, b) {
                lemma_swap_slot_perm(
                    block_swaps(
                        identity_perm(d),
                        a.start_position as int,
                        b.start_position as int,
                        a.n_indices as int,
                    ),
                    d as int,
                    total,
                    total,
                    total + 1,
                );
            }
            let prev = exchange_row(d, total, total + 1, factors, i, j - 1);
            let g = exchange_perm(d, total, total + 1, a, b);
            assert forall|q: int| 0 <= q < prev.push(g).len() implies slot_permutation(#[trigger] prev.push(g)[q], d as int, total) by {
                if q < prev.len() {
                    assert(prev.push(g)[q] == prev[q]);
                }
            }
        }
    }
}

proof fn lemma_exchange_good(d: nat, total: int, factors: Seq<TensorFactorInfo>, i: int)
    requires
        total + 2 == d,
        d <= usize::MAX,
        0 <= total,
        i <= factors.len(),
        forall|q: int|
            0 <= q < factors.len() ==> #[trigger] factors[q].start_position + factors[q].n_indices
                <= total,
    ensures
        all_slot_permutations(exchange_gens(d, total, total + 1, factors, i), d as int, total),
    decreases i,
{
    if i > 0 {
        lemma_exchange_good(d, total, factors, i - 1);
        lemma_exchange_row_good(d, total, factors, i - 1, factors.len() as int);
        lemma_concat_good(
            exchange_gens(d, total, total + 1, factors, i - 1),
            exchange_row(d, total, total + 1, factors, i - 1, factors.len() as int),
            d as int,
            total,
        );
    }
}

/// Law: every generator in the generating set of a well-formed product is a
/// permutation of its slots and two sign points that maps slots to slots,
/// so the sign points are only ever fixed or exchanged with each other.
pub proof fn lemma_generators_permute_slots(factors: Seq<TensorFactorInfo>)
    requires
        factors_well_formed(factors),
    ensures
        all_slot_permutations(
            generating_set(factors),
            total_slots(factors, factors.len() as int) + 2,
            total_slots(factors, factors.len() as int),
        ),
{
    let total = total_slots(factors, factors.len() as int);
    let d = (total + 2) as nat;
    assert(total >= 0) by {
        lemma_total_slots_prefix(factors, 0, factors.len() as int);
    }
    lemma_factors_good(d, total, factors, factors.len() as int);
    lemma_exchange_good(d, total, factors, factors.len() as int);
    lemma_concat_good(
        factors_gens(d, total, total + 1, factors, factors.len() as int),
        exchange_gens(d, total, total + 1, factors, factors.len() as int),
        d as int,
        total,
    );
}


// ---------------------------------------------------------------------------
// Antisymmetries are odd, symmetries even: what generators do to the signs.
// ---------------------------------------------------------------------------

/// `g` exchanges the two sign points `total` and `total + 1`.
pub open spec fn exchanges_signs(g: Seq<usize>, total: int) -> bool {
    g[total] == total + 1 && g[total + 1] == total
}

/// `g` fixes each of the two sign points `total` and `total + 1`.
pub open spec fn fixes_signs(g: Seq<usize>, total: int) -> bool {
    g[total] == total && g[total + 1] == total + 1
}

/// `g` exchanges the sign points when `odd`, and fixes them otherwise.
pub open spec fn sign_action(g: Seq<usize>, total: int, odd: bool) -> bool {
    if odd {
        exchanges_signs(g, total)
    } else {
        fixes_signs(g, total)
    }
}

pub open spec fn all_sign_action(gs: Seq<Seq<usize>>, total: int, odd: bool) -> bool {
    forall|i: int| 0 <= i < gs.len() ==> sign_action(#[trigger] gs[i], total, odd)
}

pub open spec fn all_exchange_signs(gs: Seq<Seq<usize>>, total: int) -> bool {
    forall|i: int| 0 <= i < gs.len() ==> exchanges_signs(#[trigger] gs[i], total)
}

pub open spec fn all_fix_signs(gs: Seq<Seq<usize>>, total: int) -> bool {
    forall|i: int| 0 <= i < gs.len() ==> fixes_signs(#[trigger] gs[i], total)
}

/// The property is an antisymmetry: antisymmetric slots, an epsilon tensor
/// or a gamma matrix.
pub open spec fn is_antisymmetry(p: TensorProperty) -> bool {
    ||| p is AntiSymmetric
    ||| p is EpsilonTensor
    ||| p is GammaMatrixProp
}

/// The property is a plain symmetry: symmetric slots, a metric, an inverse
/// metric or a Kronecker delta.
pub open spec fn is_plain_symmetry(p: TensorProperty) -> bool {
    ||| p is Symmetric
    ||| p is Metric
    ||| p is InverseMetric
    ||| p is KroneckerDelta
}

/// The property is an antisymmetry when `odd`, a plain symmetry otherwise.
pub open spec fn has_parity(p: TensorProperty, odd: bool) -> bool {
    if odd {
        is_antisymmetry(p)
    } else {
        is_plain_symmetry(p)
    }
}

proof fn lemma_slot_swap_sign_action(d: nat, total: int, l: int, r: int, odd: bool)
    requires
        0 <= l < total,
        0 <= r < total,
        total + 2 == d,
        d <= usize::MAX,
    ensures
        sign_action(slot_swap_perm(d, total, total + 1, l, r, odd), total, odd),
{
    let id = identity_perm(d);
    let g = swap_spec(id, l, r);
    assert(id[total] == total);
    assert(id[total + 1] == total + 1);
    assert(g[total] == total);
    assert(g[total + 1] == total + 1);
}

proof fn lemma_concat_sign_action(a: Seq<Seq<usize>>, b: Seq<Seq<usize>>, total: int, odd: bool)
    requires
        all_sign_action(a, total, odd),
        all_sign_action(b, total, odd),
    ensures
        all_sign_action(a + b, total, odd),
{
    assert forall|i: int| 0 <= i < (a + b).len() implies sign_action(#[trigger] (a + b)[i], total, odd) by {
        if i < a.len() {
            assert((a + b)[i] == a[i]);
        } else {
            assert((a + b)[i] == b[i - a.len()]);
        }
    }
}

proof fn lemma_adjacent_sign_action(
    d: nat,
    total: int,
    start: int,
    positions: Seq<usize>,
    odd: bool,
    n: int,
    w: int,
)
    requires
        total + 2 == d,
        d <= usize::MAX,
        0 <= start,
        start + n <= total,
        w < positions.len(),
    ensures
        all_sign_action(
            adjacent_gens_upto(d, total, total + 1, start, positions, odd, n, w),
            total,
            odd,
        ),
    decreases w,
{
    if w > 0 {
        lemma_adjacent_sign_action(d, total, start, positions, odd, n, w - 1);
        let prev = adjacent_gens_upto(d, total, total + 1, start, positions, odd, n, w - 1);
        let a = positions[w - 1] as int;
        let b = positions[w] as int;
        if a < n && b < n {
            let g = slot_swap_perm(d, total, total + 1, start + a, start + b, odd);
            lemma_slot_swap_sign_action(d, total, start + a, start + b, odd);
            assert forall|q: int| 0 <= q < prev.push(g).len() implies sign_action(#[trigger] prev.push(g)[q], total, odd) by {
                if q < prev.len() {
                    assert(prev.push(g)[q] == prev[q]);
                }
            }
        }
    }
}

proof fn lemma_prop_sign_action(d: nat, total: int, start: int, n: int, prop: TensorProperty, odd: bool)
    requires
        total + 2 == d,
        d <= usize::MAX,
        0 <= start,
        0 <= n,
        start + n <= total,
        has_parity(prop, odd),
    ensures
        all_sign_action(prop_gens(d, total, total + 1, start, n, prop), total, odd),
{
    match prop {
        TensorProperty::Symmetric(p) => {
            if p@.len() >= 2 {
                lemma_adjacent_sign_action(d, total, start, p@, false, n, p@.len() - 1);
            }
        },
        TensorProperty::AntiSymmetric(p) => {
            if p@.len() >= 2 {
                lemma_adjacent_sign_action(d, total, start, p@, true, n, p@.len() - 1);
            }
        },
        TensorProperty::Metric | TensorProperty::InverseMetric | TensorProperty::KroneckerDelta => {
            if n >= 2 {
                lemma_slot_swap_sign_action(d, total, start, start + 1, false);
            }
        },
        _ => {
            let positions = Seq::new(n as nat, |k: int| k as usize);
            if positions.len() >= 2 {
                lemma_adjacent_sign_action(d, total, start, positions, true, n, positions.len() - 1);
            }
        },
    }
}

proof fn lemma_props_sign_action(
    d: nat,
    total: int,
    start: int,
    n: int,
    props: Seq<TensorProperty>,
    k: int,
    odd: bool,
)
    requires
        total + 2 == d,
        d <= usize::MAX,
        0 <= start,
        0 <= n,
        start + n <= total,
        k <= props.len(),
        forall|q: int| 0 <= q < props.len() ==> has_parity(#[trigger] props[q], odd),
    ensures
        all_sign_action(props_gens(d, total, total + 1, start, n, props, k), total, odd),
    decreases k,
{
    if k > 0 {
        lemma_props_sign_action(d, total, start, n, props, k - 1, odd);
        lemma_prop_sign_action(d, total, start, n, props[k - 1], odd);
        lemma_concat_sign_action(
            props_gens(d, total, total + 1, start, n, props, k - 1),
            prop_gens(d, total, total + 1, start, n, props[k - 1]),
            total,
            odd,
        );
    }
}

proof fn lemma_factors_sign_action(
    d: nat,
    total: int,
    factors: Seq<TensorFactorInfo>,
    k: int,
    odd: bool,
)
    requires
        total + 2 == d,
        d <= usize::MAX,
        k <= factors.len(),
        forall|i: int|
            0 <= i < factors.len() ==> #[trigger] factors[i].start_position + factors[i].n_indices
                <= total,
        forall|i: int, q: int|
            0 <= i < factors.len() && 0 <= q < factors[i].properties@.len() ==> has_parity(
                #[trigger] factors[i].properties@[q],
                odd,
            ),
    ensures
        all_sign_action(factors_gens(d, total, total + 1, factors, k), total, odd),
    decreases k,
{
    if k > 0 {
        let f = factors[k - 1];
        assert(f.start_position + f.n_indices <= total);
        assert forall|q: int| 0 <= q < f.properties@.len() implies has_parity(#[trigger] f.properties@[q], odd) by {
            assert(has_parity(factors[k - 1].properties@[q], odd));
        }
        lemma_factors_sign_action(d, total, factors, k - 1, odd);
        lemma_props_sign_action(
            d,
            total,
            f.start_position as int,
            f.n_indices as int,
            f.properties@,
            f.properties@.len() as int,
            odd,
        );
        lemma_concat_sign_action(
            factors_gens(d, total, total + 1, factors, k - 1),
            props_gens(
                d,
                total,
                total + 1,
                f.start_position as int,
                f.n_indices as int,
                f.properties@,
                f.properties@.len() as int,
            ),
            total,
            odd,
        );
    }
}

proof fn lemma_exchange_row_empty(d: nat, sp: int, sn: int, factors: Seq<TensorFactorInfo>, i: int, j: int)
    requires
        0 <= i < factors.len(),
        j <= factors.len(),
        forall|a: int, b: int| 0 <= a < b < factors.len() ==> #[trigger] factors[a].name != #[trigger] factors[b].name,
    ensures
        exchange_row(d, sp, sn, factors, i, j).len() == 0,
    decreases j - i,
{
    if j > i + 1 {
        lemma_exchange_row_empty(d, sp, sn, factors, i, j - 1);
        assert(factors[i].name != factors[j - 1].name);
    }
}

proof fn lemma_exchange_gens_empty(d: nat, sp: int, sn: int, factors: Seq<TensorFactorInfo>, i: int)
    requires
        i <= factors.len(),
        forall|a: int, b: int| 0 <= a < b < factors.len() ==> #[trigger] factors[a].name != #[trigger] factors[b].name,
    ensures
        exchange_gens(d, sp, sn, factors, i).len() == 0,
    decreases i,
{
    if i > 0 {
        lemma_exchange_gens_empty(d, sp, sn, factors, i - 1);
        lemma_exchange_row_empty(d, sp, sn, factors, i - 1, factors.len() as int);
    }
}

/// Differently named factors, each of whose properties is an antisymmetry
/// (when `odd`) or a plain symmetry: every generator acts on the signs as
/// `odd` says.
proof fn lemma_generating_set_sign_action(factors: Seq<TensorFactorInfo>, odd: bool)
    requires
        factors_well_formed(factors),
        forall|a: int, b: int| 0 <= a < b < factors.len() ==> #[trigger] factors[a].name != #[trigger] factors[b].name,
        forall|i: int, q: int|
            0 <= i < factors.len() && 0 <= q < factors[i].properties@.len() ==> has_parity(
                #[trigger] factors[i].properties@[q],
                odd,
            ),
    ensures
        all_sign_action(generating_set(factors), total_slots(factors, factors.len() as int), odd),
{
    let total = total_slots(factors, factors.len() as int);
    let d = (total + 2) as nat;
    assert(total >= 0) by {
        lemma_total_slots_prefix(factors, 0, factors.len() as int);
    }
    lemma_factors_sign_action(d, total, factors, factors.len() as int, odd);
    lemma_exchange_gens_empty(d, total, total + 1, factors, factors.len() as int);
    let fg = factors_gens(d, total, total + 1, factors, factors.len() as int);
    let eg = exchange_gens(d, total, total + 1, factors, factors.len() as int);
    assert(fg + eg =~= fg);
}

/// Law: in a product of differently named factors whose properties are all
/// antisymmetries (antisymmetric slots, epsilon tensors, gamma matrices),
/// every generator is odd: it exchanges the two sign points
/// (`g[total] == total + 1` and `g[total + 1] == total`).
pub proof fn lemma_antisymmetries_exchange_signs(factors: Seq<TensorFactorInfo>)
    requires
        factors_well_formed(factors),
        forall|a: int, b: int| 0 <= a < b < factors.len() ==> #[trigger] factors[a].name != #[trigger] factors[b].name,
        forall|i: int, q: int|
            0 <= i < factors.len() && 0 <= q < factors[i].properties@.len() ==> is_antisymmetry(
                #[trigger] factors[i].properties@[q],
            ),
    ensures
        all_exchange_signs(generating_set(factors), total_slots(factors, factors.len() as int)),
{
    assert forall|i: int, q: int|
        0 <= i < factors.len() && 0 <= q < factors[i].properties@.len() implies has_parity(
        #[trigger] factors[i].properties@[q],
        true,
    ) by {
        assert(is_antisymmetry(factors[i].properties@[q]));
    }
    lemma_generating_set_sign_action(factors, true);
    let gs = generating_set(factors);
    let total = total_slots(factors, factors.len() as int);
    assert forall|i: int| 0 <= i < gs.len() implies exchanges_signs(#[trigger] gs[i], total) by {
        assert(sign_action(gs[i], total, true));
    }
}

/// Law: in a product of differently named factors whose properties are all
/// plain symmetries (symmetric slots, metrics, inverse metrics, Kronecker
/// deltas), every generator is even: it fixes both sign points.
pub proof fn lemma_symmetries_fix_signs(factors: Seq<TensorFactorInfo>)
    requires
        factors_well_formed(factors),
        forall|a: int, b: int| 0 <= a < b < factors.len() ==> #[trigger] factors[a].name != #[trigger] factors[b].name,
        forall|i: int, q: int|
            0 <= i < factors.len() && 0 <= q < factors[i].properties@.len() ==> is_plain_symmetry(
                #[trigger] factors[i].properties@[q],
            ),
    ensures
        all_fix_signs(generating_set(factors), total_slots(factors, factors.len() as int)),
{
    assert forall|i: int, q: int|
        0 <= i < factors.len() && 0 <= q < factors[i].properties@.len() implies has_parity(
        #[trigger] factors[i].properties@[q],
        false,
    ) by {
        assert(is_plain_symmetry(factors[i].properties@[q]));
    }
    lemma_generating_set_sign_action(factors, false);
    let gs = generating_set(factors);
    let total = total_slots(factors, factors.len() as int);
    assert forall|i: int| 0 <= i < gs.len() implies fixes_signs(#[trigger] gs[i], total) by {
        assert(sign_action(gs[i], total, false));
    }
}


/// Anticommuting or spinor: a property that makes an exchange of slots odd.
pub open spec fn is_odd_kind(p: TensorProperty) -> bool {
    p matches TensorProperty::AntiCommuting || p matches TensorProperty::Spinor
}

/// Some property of the factor is anticommuting or spinor.
pub open spec fn odd_factor(f: TensorFactorInfo) -> bool {
    exists|k: int| 0 <= k < f.properties@.len() && is_odd_kind(#[trigger] f.properties@[k])
}

/// The factor's slots cover position `pos`.
pub open spec fn covers(f: TensorFactorInfo, pos: int) -> bool {
    f.start_position <= pos < f.start_position + f.n_indices
}

/// The first of the factors whose slots cover `pos`, if any.
#[verifier::opaque]
pub open spec fn first_cover(factors: Seq<TensorFactorInfo>, pos: int) -> Option<int> {
    if exists|i: int| 0 <= i < factors.len() && covers(#[trigger] factors[i], pos) {
        Some(
            choose|i: int|
                0 <= i < factors.len() && covers(factors[i], pos) && forall|j: int|
                    0 <= j < i ==> !covers(#[trigger] factors[j], pos),
        )
    } else {
        None
    }
}

/// The first factor covering `pos` is anticommuting or a spinor.
pub open spec fn odd_at(factors: Seq<TensorFactorInfo>, pos: int) -> bool {
    match first_cover(factors, pos) {
        Some(i) => odd_factor(factors[i]),
        None => false,
    }
}

/// The sign of a metric contraction on `positions`: -1 when the first factor
/// covering one of them is anticommuting or a spinor, 1 otherwise.
pub open spec fn metric_symmetry_spec(positions: Seq<usize>, factors: Seq<TensorFactorInfo>) -> int {
    if exists|p: int| 0 <= p < positions.len() && #[trigger] odd_at(factors, positions[p] as int) {
        -1
    } else {
        1
    }
}

proof fn lemma_first_cover(factors: Seq<TensorFactorInfo>, pos: int, i: int)
    requires
        0 <= i < factors.len(),
        covers(factors[i], pos),
        forall|j: int| 0 <= j < i ==> !covers(#[trigger] factors[j], pos),
    ensures
        first_cover(factors, pos) == Some(i),
{
    reveal(first_cover);
    let c = choose|c: int|
        0 <= c < factors.len() && covers(factors[c], pos) && forall|j: int|
            0 <= j < c ==> !covers(#[trigger] factors[j], pos);
    assert(0 <= c < factors.len() && covers(factors[c], pos) && forall|j: int|
        0 <= j < c ==> !covers(#[trigger] factors[j], pos)) by {
        assert(covers(factors[i], pos));
    }
    if c < i {
        assert(!covers(factors[c], pos));
    }
    if i < c {
        assert(!covers(factors[i], pos));
    }
}

proof fn lemma_no_cover(factors: Seq<TensorFactorInfo>, pos: int)
    requires
        forall|j: int| 0 <= j < factors.len() ==> !covers(#[trigger] factors[j], pos),
    ensures
        first_cover(factors, pos) is None,
{
    reveal(first_cover);
}

fn has_odd_kind(props: &Vec<TensorProperty>) -> (b: bool)
    ensures
        b == exists|k: int| 0 <= k < props@.len() && is_odd_kind(#[trigger] props@[k]),
{
    let mut i: usize = 0;
    while i < props.len()
        invariant
            i <= props.len(),
            forall|k: int| 0 <= k < i ==> !is_odd_kind(#[trigger] props@[k]),
        decreases props.len() - i,
    {
        let hit = match &props[i] {
            TensorProperty::AntiCommuting => true,
            TensorProperty::Spinor => true,
            _ => false,
        };
        if hit {
            assert(is_odd_kind(props@[i as int]));
            return true;
        }
        i = i + 1;
    }
    false
}

/// The first factor whose slots cover `pos`, if any.
fn first_covering_factor(pos: usize, factor_info: &[TensorFactorInfo]) -> (r: Option<usize>)
    requires
        forall|i: int|
            0 <= i < factor_info@.len() ==> #[trigger] factor_info@[i].start_position
                + factor_info@[i].n_indices <= usize::MAX,
    ensures
        r matches Some(i) ==> i < factor_info@.len() && first_cover(factor_info@, pos as int) == Some(
            i as int,
        ),
        r is None ==> first_cover(factor_info@, pos as int) is None,
{
    let ghost fs = factor_info@;
    let mut f: usize = 0;
    while f < factor_info.len()
        invariant
            f <= factor_info.len(),
            fs == factor_info@,
            forall|i: int|
                0 <= i < fs.len() ==> #[trigger] fs[i].start_position + fs[i].n_indices <= usize::MAX,
            forall|j: int| 0 <= j < f ==> !covers(#[trigger] fs[j], pos as int),
        decreases factor_info.len() - f,
    {
        let factor = &factor_info[f];
        assert(factor.start_position + factor.n_indices <= usize::MAX);
        if pos >= factor.start_position && pos < factor.start_position + factor.n_indices {
            proof {
                lemma_first_cover(fs, pos as int, f as int);
            }
            return Some(f);
        }
        f = f + 1;
    }
    proof {
        lemma_no_cover(fs, pos as int);
    }
    None
}

/// The sign that a metric contraction on the given slot positions picks up:
/// -1 as soon as one of the positions lies in an anticommuting or spinor
/// factor (the first factor covering it), 1 otherwise.
pub fn metric_symmetry_for_slots(positions: &[usize], factor_info: &[TensorFactorInfo]) -> (sym: i32)
    requires
        forall|i: int|
            0 <= i < factor_info@.len() ==> #[trigger] factor_info@[i].start_position
                + factor_info@[i].n_indices <= usize::MAX,
    ensures
        sym == metric_symmetry_spec(positions@, factor_info@),
{
    let ghost fs = factor_info@;
    let mut p: usize = 0;
    while p < positions.len()
        invariant
            p <= positions.len(),
            fs == factor_info@,
            forall|i: int|
                0 <= i < fs.len() ==> #[trigger] fs[i].start_position + fs[i].n_indices <= usize::MAX,
            forall|q: int| 0 <= q < p ==> !#[trigger] odd_at(fs, positions@[q] as int),
        decreases positions.len() - p,
    {
        let pos = positions[p];
        match first_covering_factor(pos, factor_info) {
            Some(f) => {
                if has_odd_kind(&factor_info[f].properties) {
                    assert(odd_factor(fs[f as int]));
                    assert(odd_at(fs, positions@[p as int] as int));
                    return -1;
                }
                assert(!odd_factor(fs[f as int]));
            },
            None => {},
        }
        assert(!odd_at(fs, positions@[p as int] as int));
        p = p + 1;
    }
    1
}

/// The commuting behaviour that a property declares towards `target`: 1
/// for commuting, -1 for anticommuting, 0 for noncommuting, if it names
/// `target`.
pub open spec fn declared_behaviour(p: TensorProperty, target: usize) -> Option<i32> {
    match p {
        TensorProperty::CommutingWith(syms) => if syms@.contains(target) {
            Some(1i32)
        } else {
            None
        },
        TensorProperty::AntiCommutingWith(syms) => if syms@.contains(target) {
            Some(-1i32)
        } else {
            None
        },
        TensorProperty::NonCommutingWith(syms) => if syms@.contains(target) {
            Some(0i32)
        } else {
            None
        },
        _ => None,
    }
}

/// The behaviour declared towards `target` by the first property from
/// position `i` on that declares one.
pub open spec fn explicit_behaviour(props: Seq<TensorProperty>, target: usize, i: int) -> Option<i32>
    decreases props.len() - i,
{
    if i < 0 || i >= props.len() {
        None
    } else if declared_behaviour(props[i], target) is Some {
        declared_behaviour(props[i], target)
    } else {
        explicit_behaviour(props, target, i + 1)
    }
}

fn contains_symbol(syms: &Vec<usize>, target: usize) -> (b: bool)
    ensures
        b == syms@.contains(target),
{
    let mut i: usize = 0;
    while i < syms.len()
        invariant
            i <= syms.len(),
            forall|q: int| 0 <= q < i ==> syms@[q] != target,
        decreases syms.len() - i,
    {
        if syms[i] == target {
            assert(syms@[i as int] == target);
            return true;
        }
        i = i + 1;
    }
    false
}

fn declared_behaviour_of(p: &TensorProperty, target: usize) -> (r: Option<i32>)
    ensures
        r == declared_behaviour(*p, target),
{
    match p {
        TensorProperty::CommutingWith(syms) => if contains_symbol(syms, target) {
            Some(1)
        } else {
            None
        },
        TensorProperty::AntiCommutingWith(syms) => if contains_symbol(syms, target) {
            Some(-1)
        } else {
            None
        },
        TensorProperty::NonCommutingWith(syms) => if contains_symbol(syms, target) {
            Some(0)
        } else {
            None
        },
        _ => None,
    }
}

fn explicit_behaviour_of(props: &[TensorProperty], target: usize) -> (r: Option<i32>)
    ensures
        r == explicit_behaviour(props@, target, 0),
{
    let mut i: usize = props.len();
    let mut found: Option<i32> = None;
    while i > 0
        invariant
            i <= props.len(),
            found == explicit_behaviour(props@, target, i as int),
        decreases i,
    {
        i = i - 1;
        let d = declared_behaviour_of(&props[i], target);
        if d.is_some() {
            found = d;
        }
    }
    found
}

/// How two symbols commute as their properties declare it: the first
/// declaration about `b` among the properties of `a`, else the first
/// declaration about `a` among the properties of `b`; 1 commuting, -1
/// anticommuting, 0 noncommuting.
pub fn pair_commuting_behaviour(
    props_a: &[TensorProperty],
    props_b: &[TensorProperty],
    a: usize,
    b: usize,
) -> (r: Option<i32>)
    ensures
        r == (match explicit_behaviour(props_a@, b, 0) {
            Some(v) => Some(v),
            None => explicit_behaviour(props_b@, a, 0),
        }),
{
    match explicit_behaviour_of(props_a, b) {
        Some(v) => Some(v),
        None => explicit_behaviour_of(props_b, a),
    }
}

} // verus!
