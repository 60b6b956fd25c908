//! Petrov classification of the Weyl tensor from which Newman-Penrose Weyl
//! scalars vanish, and the errors of the Newman-Penrose formalism.
use vstd::prelude::*;

verus! {

/// The algebraic (Petrov) type of a Weyl tensor.
#[derive(Debug, Clone, Copy, PartialEq, Eq, Structural)]
pub enum PetrovType {
    I,
    II,
    D,
    III,
    N,
    O,
}

/// Why a Newman-Penrose computation is refused.
#[derive(Debug, Clone, Copy, PartialEq, Eq, Structural)]
pub enum NewmanPenroseError {
    RequiresFourDimensions,
    UnsupportedMetricForAutoTetrad,
    LNotNull,
    NNotNull,
    MNotNull,
    MBarNotNull,
    LNNormalization,
    MMBarNormalization,
    CrossTermNotZero,
    SpinCoefficientDimensionMismatch,
    WeylScalarDimensionMismatch,
    IndeterminatePetrovType,
}

/// The text that describes each error.
pub open spec fn np_error_text(e: NewmanPenroseError) -> Seq<char> {
    match e {
        NewmanPenroseError::RequiresFourDimensions => "null_tetrad_from_metric requires a 4-dimensional metric"@,
        NewmanPenroseError::UnsupportedMetricForAutoTetrad => "null_tetrad_from_metric requires a diagonal Lorentzian metric for auto-construction"@,
        NewmanPenroseError::LNotNull => "verify_null_tetrad failed: l·l is not zero"@,
        NewmanPenroseError::NNotNull => "verify_null_tetrad failed: n·n is not zero"@,
        NewmanPenroseError::MNotNull => "verify_null_tetrad failed: m·m is not zero"@,
        NewmanPenroseError::MBarNotNull => "verify_null_tetrad failed: m_bar·m_bar is not zero"@,
        NewmanPenroseError::LNNormalization => "verify_null_tetrad failed: l·n is not normalized to -1"@,
        NewmanPenroseError::MMBarNormalization => "verify_null_tetrad failed: m·m_bar is not normalized to 1"@,
        NewmanPenroseError::CrossTermNotZero => "verify_null_tetrad failed: tetrad contains non-orthogonal cross terms"@,
        NewmanPenroseError::SpinCoefficientDimensionMismatch => "spin_coefficients dimension mismatch"@,
        NewmanPenroseError::WeylScalarDimensionMismatch => "weyl_scalars dimension mismatch"@,
        NewmanPenroseError::IndeterminatePetrovType => "petrov_classify requires exact algebraic vanishing/non-vanishing information after simplification"@,
    }
}

impl NewmanPenroseError {
    /// The text that describes the error.
    pub fn message(&self) -> (m: String)
        ensures
            m@ == np_error_text(*self),
    {
        match self {
            NewmanPenroseError::RequiresFourDimensions => "null_tetrad_from_metric requires a 4-dimensional metric".to_owned(),
            NewmanPenroseError::UnsupportedMetricForAutoTetrad => "null_tetrad_from_metric requires a diagonal Lorentzian metric for auto-construction".to_owned(),
            NewmanPenroseError::LNotNull => "verify_null_tetrad failed: l·l is not zero".to_owned(),
            NewmanPenroseError::NNotNull => "verify_null_tetrad failed: n·n is not zero".to_owned(),
            NewmanPenroseError::MNotNull => "verify_null_tetrad failed: m·m is not zero".to_owned(),
            NewmanPenroseError::MBarNotNull => "verify_null_tetrad failed: m_bar·m_bar is not zero".to_owned(),
            NewmanPenroseError::LNNormalization => "verify_null_tetrad failed: l·n is not normalized to -1".to_owned(),
            NewmanPenroseError::MMBarNormalization => "verify_null_tetrad failed: m·m_bar is not normalized to 1".to_owned(),
            NewmanPenroseError::CrossTermNotZero => "verify_null_tetrad failed: tetrad contains non-orthogonal cross terms".to_owned(),
            NewmanPenroseError::SpinCoefficientDimensionMismatch => "spin_coefficients dimension mismatch".to_owned(),
            NewmanPenroseError::WeylScalarDimensionMismatch => "weyl_scalars dimension mismatch".to_owned(),
            NewmanPenroseError::IndeterminatePetrovType => "petrov_classify requires exact algebraic vanishing/non-vanishing information after simplification".to_owned(),
        }
    }
}

/// The Petrov type read off the Weyl scalars `psi0 .. psi4`: `zero[k]` says
/// that `psi_k` simplifies to exactly zero, `nonzero[k]` that it is exactly
/// nonzero, and `relation_zero` that `I^3 - 27 J^2` vanishes, where
/// `I = psi0 psi4 - 4 psi1 psi3 + 3 psi2^2` and `J` is the determinant of
/// the Hankel matrix of the scalars. The tests are made in this order.
pub open spec fn petrov_spec(zero: Seq<bool>, nonzero: Seq<bool>, relation_zero: bool) -> PetrovType {
    let (z0, z1, z2, z3, z4) = (zero[0], zero[1], zero[2], zero[3], zero[4]);
    if z0 && z1 && z2 && z3 && z4 {
        PetrovType::O
    } else if z1 && z2 && z3 && z0 != z4 {
        PetrovType::N
    } else if z0 && z1 && z2 && nonzero[3] && z4 {
        PetrovType::III
    } else if z1 && z2 && z3 && nonzero[0] && z4 {
        PetrovType::N
    } else if z0 && z1 && z3 && z4 && nonzero[2] {
        PetrovType::D
    } else if relation_zero {
        PetrovType::II
    } else {
        PetrovType::I
    }
}

/// Classifies the Weyl tensor from which of its Newman-Penrose scalars
/// vanish (see `petrov_spec`): type O when all vanish, N, III or D for the
/// special patterns, II when the invariant relation holds, I otherwise.
pub fn petrov_type_from_vanishing(zero: [bool; 5], nonzero: [bool; 5], relation_zero: bool) -> (t: PetrovType)
    ensures
        t == petrov_spec(zero@, nonzero@, relation_zero),
{
    let z0 = zero[0];
    let z1 = zero[1];
    let z2 = zero[2];
    let z3 = zero[3];
    let z4 = zero[4];
    if z0 && z1 && z2 && z3 && z4 {
        return PetrovType::O;
    }
    if z1 && z2 && z3 && z0 != z4 {
        return PetrovType::N;
    }
    if z0 && z1 && z2 && nonzero[3] && z4 {
        return PetrovType::III;
    }
    if z1 && z2 && z3 && nonzero[0] && z4 {
        return PetrovType::N;
    }
    if z0 && z1 && z3 && z4 && nonzero[2] {
        return PetrovType::D;
    }
    if relation_zero && !(z0 && z1 && z2 && z3 && z4) {
        return PetrovType::II;
    }
    PetrovType::I
}

/// Law: when `psi0`, `psi1`, `psi3` and `psi4` vanish and `psi2` is exactly
/// nonzero, the Weyl tensor is of type D, whatever the invariant relation says.
pub proof fn lemma_petrov_psi2_only_is_d(zero: Seq<bool>, nonzero: Seq<bool>, relation_zero: bool)
    requires
        zero.len() == 5,
        nonzero.len() == 5,
        zero[0] && zero[1] && zero[3] && zero[4],
        !zero[2] && nonzero[2],
    ensures
        petrov_spec(zero, nonzero, relation_zero) == PetrovType::D,
{
}

/// Law: the special vanishing patterns fix the type whatever the invariant
/// relation says: all five scalars vanishing is type O; only `psi0` or only
/// `psi4` left is type N; only `psi3` exactly nonzero is type III.
pub proof fn lemma_petrov_special_patterns(zero: Seq<bool>, nonzero: Seq<bool>, relation_zero: bool)
    requires
        zero.len() == 5,
        nonzero.len() == 5,
    ensures
        zero[0] && zero[1] && zero[2] && zero[3] && zero[4] ==> petrov_spec(zero, nonzero, relation_zero)
            == PetrovType::O,
        zero[1] && zero[2] && zero[3] && zero[0] != zero[4] ==> petrov_spec(zero, nonzero, relation_zero)
            == PetrovType::N,
        zero[0] && zero[1] && zero[2] && !zero[3] && nonzero[3] && zero[4] ==> petrov_spec(
            zero,
            nonzero,
            relation_zero,
        ) == PetrovType::III,
{
}

/// Law: the invariant relation `I^3 = 27 J^2` only ever separates type II
/// from type I; every other type is read off the vanishing pattern alone.
pub proof fn lemma_petrov_relation_splits_only_i_and_ii(zero: Seq<bool>, nonzero: Seq<bool>)
    requires
        zero.len() == 5,
        nonzero.len() == 5,
    ensures
        petrov_spec(zero, nonzero, true) == petrov_spec(zero, nonzero, false) || (petrov_spec(
            zero,
            nonzero,
            true,
        ) == PetrovType::II && petrov_spec(zero, nonzero, false) == PetrovType::I),
{
}

/// Every entry is `n`.
pub open spec fn all_equal_to(v: Seq<usize>, n: usize) -> bool {
    forall|i: int| 0 <= i < v.len() ==> #[trigger] v[i] == n
}

/// `n` planes of `n` rows of `n` entries, given as the length of each row
/// of each plane.
pub open spec fn square_planes(planes: Seq<Vec<usize>>, n: usize) -> bool {
    planes.len() == n && forall|a: int|
        0 <= a < planes.len() ==> (#[trigger] planes[a])@.len() == n && all_equal_to(planes[a]@, n)
}

/// `n` cubes of `n` by `n` by `n` entries, given as the length of each row
/// of each plane of each cube.
pub open spec fn square_cubes(cubes: Seq<Vec<Vec<usize>>>, n: usize) -> bool {
    cubes.len() == n && forall|a: int| 0 <= a < cubes.len() ==> square_planes((#[trigger] cubes[a])@, n)
}

/// Four dimensions, the tetrad vectors `l, n, m, m_bar` all of that length.
pub open spec fn tetrad_fits(dim: usize, tetrad_lens: Seq<usize>) -> bool {
    dim == 4 && all_equal_to(tetrad_lens, dim)
}

fn lens_equal(v: &Vec<usize>, n: usize) -> (b: bool)
    ensures
        b == all_equal_to(v@, n),
{
    let mut i: usize = 0;
    while i < v.len()
        invariant
            i <= v.len(),
            forall|q: int| 0 <= q < i ==> #[trigger] v@[q] == n,
        decreases v.len() - i,
    {
        if v[i] != n {
            return false;
        }
        i = i + 1;
    }
    true
}

fn planes_square(planes: &[Vec<usize>], n: usize) -> (b: bool)
    ensures
        b == square_planes(planes@, n),
{
    if planes.len() != n {
        return false;
    }
    let mut a: usize = 0;
    while a < planes.len()
        invariant
            a <= planes.len(),
            planes@.len() == n,
            forall|q: int| 0 <= q < a ==> (#[trigger] planes@[q])@.len() == n && all_equal_to(planes@[q]@, n),
        decreases planes.len() - a,
    {
        if planes[a].len() != n || !lens_equal(&planes[a], n) {
            return false;
        }
        a = a + 1;
    }
    true
}

fn cubes_square(cubes: &[Vec<Vec<usize>>], n: usize) -> (b: bool)
    ensures
        b == square_cubes(cubes@, n),
{
    if cubes.len() != n {
        return false;
    }
    let mut a: usize = 0;
    while a < cubes.len()
        invariant
            a <= cubes.len(),
            cubes@.len() == n,
            forall|q: int| 0 <= q < a ==> square_planes((#[trigger] cubes@[q])@, n),
        decreases cubes.len() - a,
    {
        if !planes_square(cubes[a].as_slice(), n) {
            return false;
        }
        a = a + 1;
    }
    true
}

/// The dimension check made before computing spin coefficients: the metric
/// has dimension four, and the connection (`gamma_lens[a][b]` the length
/// of row `b` of plane `a`), the coordinates and the four tetrad vectors
/// (`tetrad_lens`: `l`, `n`, `m`, `m_bar`) all have that dimension.
pub fn check_spin_coefficient_dims(
    dim: usize,
    gamma_lens: &[Vec<usize>],
    coords_len: usize,
    tetrad_lens: [usize; 4],
) -> (r: Result<(), NewmanPenroseError>)
    ensures
        r is Ok <==> tetrad_fits(dim, tetrad_lens@) && coords_len == dim && square_planes(gamma_lens@, dim),
        r is Err ==> r == Err::<(), NewmanPenroseError>(NewmanPenroseError::SpinCoefficientDimensionMismatch),
{
    if dim != 4 || !lens_equal_array(tetrad_lens, dim) || coords_len != dim || !planes_square(gamma_lens, dim) {
        return Err(NewmanPenroseError::SpinCoefficientDimensionMismatch);
    }
    Ok(())
}

/// The dimension check made before computing Weyl scalars: the metric has
/// dimension four, and the Weyl tensor (`weyl_lens[a][b][c]` the length of
/// its innermost rows) and the four tetrad vectors all have that dimension.
pub fn check_weyl_scalar_dims(
    dim: usize,
    weyl_lens: &[Vec<Vec<usize>>],
    tetrad_lens: [usize; 4],
) -> (r: Result<(), NewmanPenroseError>)
    ensures
        r is Ok <==> tetrad_fits(dim, tetrad_lens@) && square_cubes(weyl_lens@, dim),
        r is Err ==> r == Err::<(), NewmanPenroseError>(NewmanPenroseError::WeylScalarDimensionMismatch),
{
    if dim != 4 || !lens_equal_array(tetrad_lens, dim) || !cubes_square(weyl_lens, dim) {
        return Err(NewmanPenroseError::WeylScalarDimensionMismatch);
    }
    Ok(())
}

fn lens_equal_array(lens: [usize; 4], n: usize) -> (b: bool)
    ensures
        b == all_equal_to(lens@, n),
{
    let b = lens[0] == n && lens[1] == n && lens[2] == n && lens[3] == n;
    proof {
        if !b {
            if lens[0] != n {
                assert(lens@[0] != n);
            } else if lens[1] != n {
                assert(lens@[1] != n);
            } else if lens[2] != n {
                assert(lens@[2] != n);
            } else {
                assert(lens@[3] != n);
            }
        }
    }
    b
}

} // verus!
