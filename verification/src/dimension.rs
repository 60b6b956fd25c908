//! Dimension of the representation of GL(dim) that a Young diagram labels,
//! by the hook-content formula in exact arithmetic.
use vstd::prelude::*;
use crate::exact::{big_from_i64, big_to_usize, ratio_is_integer, ratio_mul, ratio_new, ratio_one, ratio_to_integer};
use crate::shape::{column_height, fits_dim, is_partition, lemma_normal_shape_of_partition, lemma_normal_shape_props, lemma_normal_shape_size, positive_rows, normal_shape, normalize_shape, seq_sum, shape_fits_dim};

verus! {

/// Boxes below box `(i, j)` in its column: rows after `i` longer than `j`.
pub open spec fn leg(s: Seq<usize>, i: int, j: int) -> int {
    column_height(s.subrange(i + 1, s.len() as int), j) as int
}

/// The hook length of box `(i, j)`: boxes to its right, below it, and itself.
pub open spec fn hook(s: Seq<usize>, i: int, j: int) -> int {
    (s[i] - j - 1) + leg(s, i, j) + 1
}

/// Product of `dim + j - i` over the first `len` boxes of row `i`.
pub open spec fn row_content_product(dim: int, i: int, len: int) -> int
    decreases len,
{
    if len <= 0 {
        1
    } else {
        row_content_product(dim, i, len - 1) * (dim + (len - 1) - i)
    }
}

/// Product of the hook lengths of the first `len` boxes of row `i`.
pub open spec fn row_hook_product(s: Seq<usize>, i: int, len: int) -> int
    decreases len,
{
    if len <= 0 {
        1
    } else {
        row_hook_product(s, i, len - 1) * hook(s, i, len - 1)
    }
}

/// Product of `dim + j - i` over the boxes of the first `n` rows.
pub open spec fn content_product(s: Seq<usize>, dim: int, n: int) -> int
    decreases n,
{
    if n <= 0 {
        1
    } else {
        content_product(s, dim, n - 1) * row_content_product(dim, n - 1, s[n - 1] as int)
    }
}

/// Product of the hook lengths of the boxes of the first `n` rows.
pub open spec fn hook_product(s: Seq<usize>, n: int) -> int
    decreases n,
{
    if n <= 0 {
        1
    } else {
        hook_product(s, n - 1) * row_hook_product(s, n - 1, s[n - 1] as int)
    }
}

/// The content of box `(i, j)` shifted by `dim`: `dim + j - i`.
pub open spec fn content(dim: int, i: int, j: int) -> int {
    dim + j - i
}

/// Some box `(i, j)` has `dim + j - i <= 0`.
pub open spec fn has_nonpositive_content(s: Seq<usize>, dim: int) -> bool {
    exists|i: int, j: int| 0 <= i < s.len() && 0 <= j < s[i] && #[trigger] content(dim, i, j) <= 0
}

/// The value `tab_dimension` gives: 1 for the empty diagram, 0 when the
/// normalised diagram does not fit `dim` or has a box of nonpositive content,
/// else the product of `(dim + j - i) / hook(i, j)` over its boxes when that
/// is a whole number that fits a `usize`, and 0 otherwise.
pub open spec fn tab_dimension_spec(shape: Seq<usize>, dim: int) -> int {
    let s = normal_shape(shape);
    if s.len() == 0 {
        1
    } else if !fits_dim(s, dim) {
        0
    } else if has_nonpositive_content(s, dim) {
        0
    } else {
        let num = content_product(s, dim, s.len() as int);
        let den = hook_product(s, s.len() as int);
        if num % den == 0 && num / den <= usize::MAX {
            num / den
        } else {
            0
        }
    }
}

proof fn lemma_pos_mul(a: int, b: int)
    requires
        a > 0,
        b > 0,
    ensures
        a * b > 0,
{
    assert(a * b > 0) by (nonlinear_arith)
        requires
            a > 0,
            b > 0,
    ;
}

proof fn lemma_column_height_le_len(s: Seq<usize>, j: int)
    ensures
        column_height(s, j) <= s.len(),
    decreases s.len(),
{
    if s.len() > 0 {
        lemma_column_height_le_len(s.drop_last(), j);
    }
}

proof fn lemma_column_height_full(s: Seq<usize>, col: int)
    requires
        forall|q: int| 0 <= q < s.len() ==> s[q] > col,
    ensures
        column_height(s, col) == s.len(),
    decreases s.len(),
{
    if s.len() > 0 {
        lemma_column_height_full(s.drop_last(), col);
    }
}

/// A nonempty partition that fits `dim` has at most `dim` rows.
proof fn lemma_rows_within_dim(s: Seq<usize>, dim: int)
    requires
        s.len() > 0,
        is_partition(s),
        fits_dim(s, dim),
    ensures
        s.len() <= dim,
{
    lemma_column_height_full(s, 0);
    assert(column_height(s, 0) <= dim);
}

/// `n (n - 1) ... (n - m + 1)`: the product of `m` integers counting down from `n`.
pub open spec fn falling(n: int, m: nat) -> int
    decreases m,
{
    if m == 0 {
        1
    } else {
        falling(n, (m - 1) as nat) * (n - (m - 1))
    }
}

/// The binomial coefficient `n choose k`, by Pascal's rule.
pub open spec fn binomial(n: nat, k: nat) -> nat
    decreases n,
{
    if k == 0 {
        1
    } else if n == 0 {
        0
    } else {
        binomial((n - 1) as nat, (k - 1) as nat) + binomial((n - 1) as nat, k)
    }
}

/// A single column of `k` boxes.
pub open spec fn column_shape(k: nat) -> Seq<usize> {
    Seq::new(k, |i: int| 1usize)
}

proof fn lemma_falling_pascal(n: int, k: nat)
    requires
        k >= 1,
    ensures
        falling(n, k) == falling(n - 1, k) + k * falling(n - 1, (k - 1) as nat),
    decreases k,
{
    if k == 1 {
        assert(falling(n, 0) == 1);
        assert(falling(n - 1, 0) == 1);
        assert(falling(n, 1) == n);
        assert(falling(n - 1, 1) == n - 1);
    } else {
        lemma_falling_pascal(n, (k - 1) as nat);
        let f1 = falling(n - 1, (k - 1) as nat);
        let f2 = falling(n - 1, (k - 2) as nat);
        let g = falling(n, (k - 1) as nat);
        assert(g == f1 + (k - 1) * f2);
        assert(f1 == f2 * (n - 1 - (k - 2)));
        assert(falling(n, k) == g * (n - (k - 1)));
        assert(falling(n - 1, k) == f1 * (n - 1 - (k - 1)));
        assert(g * (n - (k - 1)) == f1 * (n - 1 - (k - 1)) + k * f1) by (nonlinear_arith)
            requires
                g == f1 + (k - 1) * f2,
                f1 == f2 * (n - 1 - (k - 2)),
        ;
    }
}

proof fn lemma_falling_vanishes(n: int, k: nat)
    requires
        0 <= n < k,
    ensures
        falling(n, k) == 0,
    decreases k,
{
    let f = falling(n, (k - 1) as nat);
    let c = n - (k - 1);
    if n < k - 1 {
        lemma_falling_vanishes(n, (k - 1) as nat);
    }
    assert(f == 0 || c == 0);
    assert(f * c == 0) by (nonlinear_arith)
        requires
            f == 0 || c == 0,
    ;
}

proof fn lemma_falling_pos(n: int, k: nat)
    requires
        k <= n,
    ensures
        falling(n, k) > 0,
    decreases k,
{
    if k > 0 {
        lemma_falling_pos(n, (k - 1) as nat);
        lemma_pos_mul(falling(n, (k - 1) as nat), n - (k - 1));
    }
}

proof fn lemma_binomial_above(n: nat, k: nat)
    requires
        k > n,
    ensures
        binomial(n, k) == 0,
    decreases n,
{
    if n > 0 {
        lemma_binomial_above((n - 1) as nat, (k - 1) as nat);
        lemma_binomial_above((n - 1) as nat, k);
    }
}

/// `n (n - 1) ... (n - k + 1) = (n choose k) k!`.
proof fn lemma_falling_binomial(n: nat, k: nat)
    ensures
        falling(n as int, k) == binomial(n, k) * falling(k as int, k),
    decreases n,
{
    if k == 0 {
        assert(falling(n as int, k) == 1);
        assert(falling(k as int, k) == 1);
        assert(binomial(n, k) == 1);
    } else if n == 0 {
        lemma_falling_vanishes(0, k);
        assert(binomial(n, k) == 0);
        assert(binomial(n, k) * falling(k as int, k) == 0);
    } else {
        lemma_falling_pascal(n as int, k);
        lemma_falling_binomial((n - 1) as nat, k);
        lemma_falling_binomial((n - 1) as nat, (k - 1) as nat);
        lemma_falling_pascal(k as int, k);
        lemma_falling_vanishes(k - 1, k);
        let b1 = binomial((n - 1) as nat, (k - 1) as nat);
        let b2 = binomial((n - 1) as nat, k);
        let fk = falling(k as int, k);
        let fk1 = falling(k - 1, (k - 1) as nat);
        assert(fk == k * fk1);
        assert(binomial(n, k) == b1 + b2);
        assert(falling(n as int, k) == falling(n - 1, k) + k * falling(n - 1, (k - 1) as nat));
        assert(falling(n - 1, k) == b2 * fk);
        assert(falling(n - 1, (k - 1) as nat) == b1 * fk1);
        assert(b2 * fk + k * (b1 * fk1) == (b1 + b2) * fk) by (nonlinear_arith)
            requires
                fk == k * fk1,
        ;
    }
}

proof fn lemma_column_content_product(k: nat, dim: int, n: int)
    requires
        0 <= n <= k,
    ensures
        content_product(column_shape(k), dim, n) == falling(dim, n as nat),
    decreases n,
{
    if n > 0 {
        lemma_column_content_product(k, dim, n - 1);
        assert(row_content_product(dim, n - 1, 0) == 1);
        assert(row_content_product(dim, n - 1, 1) == dim - (n - 1));
    }
}

proof fn lemma_column_hook_product(k: nat, n: int)
    requires
        0 <= n <= k,
    ensures
        hook_product(column_shape(k), n) == falling(k as int, n as nat),
    decreases n,
{
    if n > 0 {
        let s = column_shape(k);
        lemma_column_hook_product(k, n - 1);
        let below = s.subrange(n, k as int);
        assert forall|q: int| 0 <= q < below.len() implies below[q] > 0 by {
            assert(below[q] == s[n + q]);
        }
        lemma_column_height_full(below, 0);
        assert(leg(s, n - 1, 0) == k - n);
        assert(hook(s, n - 1, 0) == k - (n - 1));
        assert(row_hook_product(s, n - 1, 0) == 1);
        assert(row_hook_product(s, n - 1, 1) == k - (n - 1));
    }
}

/// Law: a single column of `k` boxes labels the `k`-th exterior power, whose
/// dimension is `dim choose k`: every box below `(i, 0)` counts in its hook,
/// so the hook lengths are `k, k - 1, ..., 1`.
pub proof fn lemma_column_dimension_is_binomial(k: nat, dim: nat)
    requires
        binomial(dim, k) <= usize::MAX,
    ensures
        tab_dimension_spec(column_shape(k), dim as int) == binomial(dim, k),
{
    let s = column_shape(k);
    assert(is_partition(s));
    lemma_normal_shape_of_partition(s);
    if k > 0 {
        lemma_column_height_full(s, 0);
        if k > dim {
            lemma_binomial_above(dim, k);
            assert(column_height(s, 0) > dim);
            assert(!fits_dim(s, dim as int));
        } else {
            assert(fits_dim(s, dim as int)) by {
                assert forall|col: int| 0 <= col < 1 implies #[trigger] column_height(s, col) <= dim by {
                    assert(col == 0);
                }
            }
            assert(!has_nonpositive_content(s, dim as int)) by {
                assert forall|i: int, j: int| 0 <= i < s.len() && 0 <= j < s[i] implies #[trigger] content(dim as int, i, j) > 0 by {
                    assert(j == 0);
                }
            }
            lemma_column_content_product(k, dim as int, k as int);
            lemma_column_hook_product(k, k as int);
            lemma_falling_binomial(dim, k);
            lemma_falling_pos(k as int, k);
            let den = falling(k as int, k);
            let b = binomial(dim, k) as int;
            vstd::arithmetic::div_mod::lemma_mod_multiples_basic(b, den);
            vstd::arithmetic::div_mod::lemma_div_by_multiple(b, den);
        }
    }
}

/// A single row of `k` boxes.
pub open spec fn row_shape(k: nat) -> Seq<usize> {
    seq![k as usize]
}

/// `n (n - 1) ... (n - k + 1) = n ((n - 1) ... (n - k + 1))`.
proof fn lemma_falling_first(n: int, k: nat)
    requires
        k >= 1,
    ensures
        falling(n, k) == n * falling(n - 1, (k - 1) as nat),
    decreases k,
{
    if k > 1 {
        lemma_falling_first(n, (k - 1) as nat);
        let f = falling(n - 1, (k - 2) as nat);
        assert(falling(n, (k - 1) as nat) == n * f);
        assert(falling(n - 1, (k - 1) as nat) == f * (n - 1 - (k - 2)));
        assert(falling(n, k) == falling(n, (k - 1) as nat) * (n - (k - 1)));
        assert(n * f * (n - (k - 1)) == n * (f * (n - 1 - (k - 2)))) by (nonlinear_arith);
    } else {
        assert(falling(n - 1, 0) == 1);
        assert(falling(n, 0) == 1);
    }
}

/// The contents `dim, dim + 1, ..., dim + m - 1` of a first row multiply to
/// `(dim + m - 1) (dim + m - 2) ... dim`.
proof fn lemma_first_row_contents(dim: int, m: nat)
    ensures
        row_content_product(dim, 0, m as int) == falling(dim + m - 1, m),
    decreases m,
{
    if m > 0 {
        lemma_first_row_contents(dim, (m - 1) as nat);
        lemma_falling_first(dim + m - 1, m);
        let f = falling(dim + m - 2, (m - 1) as nat);
        assert(row_content_product(dim, 0, m as int) == f * (dim + (m - 1) - 0));
        assert(f * (dim + (m - 1)) == (dim + m - 1) * f) by (nonlinear_arith);
    }
}

proof fn lemma_row_hooks(k: nat, m: int)
    requires
        0 <= m <= k,
        k <= usize::MAX,
    ensures
        row_hook_product(row_shape(k), 0, m) == falling(k as int, m as nat),
    decreases m,
{
    if m > 0 {
        let s = row_shape(k);
        lemma_row_hooks(k, m - 1);
        assert(s.subrange(1, 1) =~= Seq::<usize>::empty());
        assert(leg(s, 0, m - 1) == 0);
        assert(hook(s, 0, m - 1) == k - (m - 1));
    }
}

/// Law: a single row of `k` boxes labels the `k`-th symmetric power, whose
/// dimension is `(dim + k - 1) choose k`: the contents of the row are
/// `dim .. dim + k - 1` and its hook lengths `k, k - 1, ..., 1`.
pub proof fn lemma_row_dimension_is_binomial(k: nat, dim: nat)
    requires
        k <= usize::MAX,
        binomial((dim + k - 1) as nat, k) <= usize::MAX,
    ensures
        tab_dimension_spec(row_shape(k), dim as int) == binomial((dim + k - 1) as nat, k),
{
    let s = row_shape(k);
    if k == 0 {
        lemma_normal_shape_props(s);
        assert(s.drop_last() =~= Seq::<usize>::empty());
        assert(s.last() == 0usize);
        assert(positive_rows(Seq::<usize>::empty()).len() == 0);
        assert(positive_rows(s).len() == 0);
    } else {
        assert(is_partition(s));
        lemma_normal_shape_of_partition(s);
        assert(s.drop_last() =~= Seq::<usize>::empty());
        assert(column_height(Seq::<usize>::empty(), 0) == 0);
        if dim == 0 {
            assert(column_height(s, 0) == 1);
            lemma_binomial_above((k - 1) as nat, k);
            assert(!fits_dim(s, 0));
        } else {
            assert(fits_dim(s, dim as int)) by {
                assert forall|col: int| 0 <= col < k implies #[trigger] column_height(s, col) <= dim by {
                    assert(s.last() as int == k);
                    assert(column_height(Seq::<usize>::empty(), col) == 0);
                    assert(column_height(s, col) == 1);
                }
            }
            assert(!has_nonpositive_content(s, dim as int)) by {
                assert forall|i: int, j: int| 0 <= i < s.len() && 0 <= j < s[i] implies #[trigger] content(dim as int, i, j) > 0 by {
                    assert(i == 0);
                }
            }
            let n = (dim + k - 1) as nat;
            lemma_first_row_contents(dim as int, k);
            lemma_row_hooks(k, k as int);
            assert(content_product(s, dim as int, 0) == 1);
            assert(hook_product(s, 0) == 1);
            assert(content_product(s, dim as int, 1) == falling(n as int, k));
            assert(hook_product(s, 1) == falling(k as int, k));
            lemma_falling_binomial(n, k);
            lemma_falling_pos(k as int, k);
            let den = falling(k as int, k);
            let b = binomial(n, k) as int;
            vstd::arithmetic::div_mod::lemma_mod_multiples_basic(b, den);
            vstd::arithmetic::div_mod::lemma_div_by_multiple(b, den);
        }
    }
}

/// Number of rows after `i` longer than `j`.
fn leg_length(s: &Vec<usize>, i: usize, j: usize) -> (l: usize)
    requires
        i < s.len(),
    ensures
        l == leg(s@, i as int, j as int),
        l <= s.len() - i - 1,
{
    let mut count: usize = 0;
    let mut k: usize = i + 1;
    assert(s@.subrange(i + 1, k as int) =~= Seq::<usize>::empty());
    while k < s.len()
        invariant
            i + 1 <= k <= s.len(),
            count == column_height(s@.subrange(i + 1, k as int), j as int),
            count <= k - (i + 1),
        decreases s.len() - k,
    {
        assert(s@.subrange(i + 1, k + 1) =~= s@.subrange(i + 1, k as int).push(s@[k as int]));
        assert(s@.subrange(i + 1, k + 1).drop_last() =~= s@.subrange(i + 1, k as int));
        if s[k] > j {
            count = count + 1;
        }
        k = k + 1;
    }
    count
}

/// The dimension of the GL(`dim`) representation labelled by the diagram
/// `shape`: the hook-content product over its boxes, computed exactly.
/// It is 1 for the empty diagram and 0 when the diagram does not fit `dim`.
pub fn tab_dimension(shape: &[usize], dim: usize) -> (d: usize)
    requires
        normal_shape(shape@).len() > 0 && fits_dim(normal_shape(shape@), dim as int) ==> dim
            + normal_shape(shape@)[0] <= i64::MAX + 1,
    ensures
        d as int == tab_dimension_spec(shape@, dim as int),
{
    let s = normalize_shape(shape);
    proof {
        lemma_normal_shape_size(shape@);
    }
    if s.len() == 0 {
        return 1;
    }
    if !shape_fits_dim(&s, dim) {
        return 0;
    }
    proof {
        lemma_rows_within_dim(s@, dim as int);
    }
    let mut result = ratio_one();
    let mut i: usize = 0;
    while i < s.len()
        invariant
            s@ == normal_shape(shape@),
            is_partition(s@),
            i <= s.len(),
            s.len() <= dim,
            dim + s@[0] <= i64::MAX + 1,
            forall|a: int, b: int| 0 <= a < i && 0 <= b < s@[a] ==> #[trigger] content(dim as int, a, b) > 0,
            result@ == (content_product(s@, dim as int, i as int), hook_product(s@, i as int)),
            content_product(s@, dim as int, i as int) > 0,
            hook_product(s@, i as int) > 0,
        decreases s.len() - i,
    {
        let row_len = s[i];
        let mut j: usize = 0;
        while j < row_len
            invariant
                s@ == normal_shape(shape@),
                is_partition(s@),
                i < s.len(),
                row_len == s@[i as int],
                j <= row_len,
                s.len() <= dim,
                dim + s@[0] <= i64::MAX + 1,
                forall|a: int, b: int| 0 <= a < i && 0 <= b < s@[a] ==> #[trigger] content(dim as int, a, b) > 0,
                forall|b: int| 0 <= b < j ==> #[trigger] content(dim as int, i as int, b) > 0,
                result@ == (
                    content_product(s@, dim as int, i as int) * row_content_product(
                        dim as int,
                        i as int,
                        j as int,
                    ),
                    hook_product(s@, i as int) * row_hook_product(s@, i as int, j as int),
                ),
                content_product(s@, dim as int, i as int) * row_content_product(
                    dim as int,
                    i as int,
                    j as int,
                ) > 0,
                hook_product(s@, i as int) * row_hook_product(s@, i as int, j as int) > 0,
            decreases row_len - j,
        {
            let numerator: i64 = dim as i64 + j as i64 - i as i64;
            if numerator <= 0 {
                proof {
                    assert(has_nonpositive_content(s@, dim as int)) by {
                        assert(0 <= i < s@.len() && 0 <= j < s@[i as int] && content(dim as int, i as int, j as int) <= 0);
                    }
                }
                return 0;
            }
            let arm: usize = row_len - j - 1;
            let leg_len = leg_length(&s, i, j);
            let hook_len: i64 = arm as i64 + leg_len as i64 + 1;
            let ghost cp = content_product(s@, dim as int, i as int);
            let ghost hp = hook_product(s@, i as int);
            let ghost rc = row_content_product(dim as int, i as int, j as int);
            let ghost rh = row_hook_product(s@, i as int, j as int);
            proof {
                assert(hook_len == hook(s@, i as int, j as int));
                assert(cp * rc * numerator == cp * (rc * numerator)) by (nonlinear_arith);
                assert(hp * rh * hook_len == hp * (rh * hook_len)) by (nonlinear_arith);
                lemma_pos_mul(cp * rc, numerator as int);
                lemma_pos_mul(hp * rh, hook_len as int);
            }
            let n = big_from_i64(numerator);
            let d = big_from_i64(hook_len);
            let factor = ratio_new(n, d);
            result = ratio_mul(&result, &factor);
            j = j + 1;
        }
        proof {
            assert(content_product(s@, dim as int, i as int + 1) == content_product(
                s@,
                dim as int,
                i as int,
            ) * row_content_product(dim as int, i as int, s@[i as int] as int));
            assert(hook_product(s@, i as int + 1) == hook_product(s@, i as int)
                * row_hook_product(s@, i as int, s@[i as int] as int));
        }
        i = i + 1;
    }
    proof {
        if has_nonpositive_content(s@, dim as int) {
            let (a, b) = choose|a: int, b: int|
                0 <= a < s@.len() && 0 <= b < s@[a] && #[trigger] content(dim as int, a, b) <= 0;
            assert(content(dim as int, a, b) > 0);
        }
    }
    if ratio_is_integer(&result) {
        let whole = ratio_to_integer(&result);
        match big_to_usize(&whole) {
            Some(v) => v,
            None => 0,
        }
    } else {
        0
    }
}

} // verus!
