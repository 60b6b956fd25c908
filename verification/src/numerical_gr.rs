//! The checks that numerical parallel transport and geodesic integration
//! make on their input before integrating, and their errors.
use vstd::prelude::*;
use vstd::string::*;

verus! {

/// Why a numerical integration is refused.
#[derive(Debug, PartialEq, Eq, Structural)]
pub enum NumericalGRError {
    EmptyCurve,
    ParallelTransportDimensionMismatch { vector_dim: usize, curve_dim: usize },
    GeodesicInitialDataMismatch,
    InvalidStepCount,
    InvalidTauRange,
}

/// The character of a decimal digit.
pub open spec fn digit_char(d: nat) -> char {
    (d + 48) as char
}

/// The decimal numeral of `n`, without leading zeros.
pub open spec fn decimal(n: nat) -> Seq<char>
    decreases n,
{
    if n < 10 {
        seq![digit_char(n)]
    } else {
        decimal(n / 10).push(digit_char(n % 10))
    }
}

/// The text that describes each error.
pub open spec fn gr_error_text(e: NumericalGRError) -> Seq<char> {
    match e {
        NumericalGRError::EmptyCurve => "parallel_transport requires nonempty curve data"@,
        NumericalGRError::ParallelTransportDimensionMismatch { vector_dim, curve_dim } =>
            "parallel_transport initial vector dimension "@ + decimal(vector_dim as nat)
                + " does not match curve dimension "@ + decimal(curve_dim as nat),
        NumericalGRError::GeodesicInitialDataMismatch => "integrate_geodesic requires position and velocity dimensions to match"@,
        NumericalGRError::InvalidStepCount => "integrate_geodesic requires n_steps > 0"@,
        NumericalGRError::InvalidTauRange => "integrate_geodesic tau range must satisfy tau_start <= tau_end"@,
    }
}

/// `usize::to_string`: the decimal numeral of `n`, as `Display` for
/// integers writes it.
#[verifier::external_body]
pub(crate) fn decimal_string(n: usize) -> (s: String)
    ensures
        s@ == decimal(n as nat),
{
    n.to_string()
}

impl NumericalGRError {
    /// The text that describes the error.
    pub fn message(&self) -> (m: String)
        ensures
            m@ == gr_error_text(*self),
    {
        match self {
            NumericalGRError::EmptyCurve => "parallel_transport requires nonempty curve data".to_owned(),
            NumericalGRError::ParallelTransportDimensionMismatch { vector_dim, curve_dim } => {
                let mut m = "parallel_transport initial vector dimension ".to_owned();
                let v = decimal_string(*vector_dim);
                m.append(v.as_str());
                m.append(" does not match curve dimension ");
                let c = decimal_string(*curve_dim);
                m.append(c.as_str());
                m
            },
            NumericalGRError::GeodesicInitialDataMismatch => "integrate_geodesic requires position and velocity dimensions to match".to_owned(),
            NumericalGRError::InvalidStepCount => "integrate_geodesic requires n_steps > 0".to_owned(),
            NumericalGRError::InvalidTauRange => "integrate_geodesic tau range must satisfy tau_start <= tau_end".to_owned(),
        }
    }
}

/// The outcome of checking the input of parallel transport, given the
/// length of the initial vector and of each point of the curve: no point
/// is an error, so is a vector or a point whose length differs from the
/// first point's; otherwise the dimension is that length.
pub open spec fn transport_check_spec(vector_dim: usize, point_dims: Seq<usize>) -> Result<usize, NumericalGRError> {
    if point_dims.len() == 0 {
        Err(NumericalGRError::EmptyCurve)
    } else if vector_dim != point_dims[0] || exists|p: int|
        0 <= p < point_dims.len() && #[trigger] point_dims[p] != point_dims[0] {
        Err(
            NumericalGRError::ParallelTransportDimensionMismatch {
                vector_dim,
                curve_dim: point_dims[0],
            },
        )
    } else {
        Ok(point_dims[0])
    }
}

/// Checks the input of parallel transport along a curve: `vector_dim` is
/// the length of the initial vector and `point_dims` the length of each
/// point of the curve, in order. Returns the common dimension.
pub fn check_transport_input(vector_dim: usize, point_dims: &[usize]) -> (r: Result<usize, NumericalGRError>)
    ensures
        r == transport_check_spec(vector_dim, point_dims@),
{
    if point_dims.len() == 0 {
        return Err(NumericalGRError::EmptyCurve);
    }
    let dim = point_dims[0];
    if vector_dim != dim {
        return Err(NumericalGRError::ParallelTransportDimensionMismatch { vector_dim, curve_dim: dim });
    }
    let mut p: usize = 0;
    while p < point_dims.len()
        invariant
            p <= point_dims.len(),
            dim == point_dims@[0],
            forall|q: int| 0 <= q < p ==> #[trigger] point_dims@[q] == dim,
        decreases point_dims.len() - p,
    {
        if point_dims[p] != dim {
            return Err(NumericalGRError::ParallelTransportDimensionMismatch { vector_dim, curve_dim: dim });
        }
        p = p + 1;
    }
    Ok(dim)
}

/// The outcome of checking the input of geodesic integration, in the order
/// the checks are made.
pub open spec fn geodesic_check_spec(
    position_dim: usize,
    velocity_dim: usize,
    n_steps: usize,
    tau_in_order: bool,
) -> Result<(), NumericalGRError> {
    if position_dim != velocity_dim {
        Err(NumericalGRError::GeodesicInitialDataMismatch)
    } else if n_steps == 0 {
        Err(NumericalGRError::InvalidStepCount)
    } else if !tau_in_order {
        Err(NumericalGRError::InvalidTauRange)
    } else {
        Ok(())
    }
}

/// Checks the input of geodesic integration: the lengths of the initial
/// position and velocity, the number of steps, and whether the start of
/// the parameter range is no later than its end.
pub fn check_geodesic_input(
    position_dim: usize,
    velocity_dim: usize,
    n_steps: usize,
    tau_in_order: bool,
) -> (r: Result<(), NumericalGRError>)
    ensures
        r == geodesic_check_spec(position_dim, velocity_dim, n_steps, tau_in_order),
{
    if position_dim != velocity_dim {
        return Err(NumericalGRError::GeodesicInitialDataMismatch);
    }
    if n_steps == 0 {
        return Err(NumericalGRError::InvalidStepCount);
    }
    if !tau_in_order {
        return Err(NumericalGRError::InvalidTauRange);
    }
    Ok(())
}

} // verus!
