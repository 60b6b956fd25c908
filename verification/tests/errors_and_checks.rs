use ax_tensor::indices::{Index, Variance};
use ax_tensor::multiterm::{
    apply_permutation_to_slots, identity_applies_to_arity, identity_kind, slot_sort_key,
    slot_strings, slots_sort_key, MultitermError, PermutedCoefficientTerm, TensorMultitermIdentity,
};
use ax_tensor::newman_penrose::{
    check_spin_coefficient_dims, check_weyl_scalar_dims, petrov_type_from_vanishing,
    NewmanPenroseError, PetrovType,
};
use ax_tensor::numerical_gr::{check_geodesic_input, check_transport_input, NumericalGRError};
use ax_tensor::trace_engine::{contraction_annihilated_by_trace_free_symmetry, TraceEngineError};

#[test]
fn dimension_mismatch_errors() {
    // A vector of length 1 along a curve of points of length 2.
    assert_eq!(
        check_transport_input(1, &[2]),
        Err(NumericalGRError::ParallelTransportDimensionMismatch { vector_dim: 1, curve_dim: 2 })
    );
    // A position of length 1 with a velocity of length 2, 10 steps over (0, 1).
    assert_eq!(
        check_geodesic_input(1, 2, 10, 0.0 <= 1.0),
        Err(NumericalGRError::GeodesicInitialDataMismatch)
    );
}

#[test]
fn empty_curve_error() {
    assert_eq!(check_transport_input(1, &[]), Err(NumericalGRError::EmptyCurve));
}

#[test]
fn invalid_tau_range_error() {
    let tau_range: (f64, f64) = (1.0, 0.0);
    assert_eq!(
        check_geodesic_input(1, 1, 10, !(tau_range.0 > tau_range.1)),
        Err(NumericalGRError::InvalidTauRange)
    );
}

#[test]
fn invalid_step_count_error() {
    assert_eq!(check_geodesic_input(1, 1, 0, true), Err(NumericalGRError::InvalidStepCount));
}

#[test]
fn transport_input_with_uneven_points() {
    assert_eq!(
        check_transport_input(3, &[3, 3, 2]),
        Err(NumericalGRError::ParallelTransportDimensionMismatch { vector_dim: 3, curve_dim: 3 })
    );
    assert_eq!(check_transport_input(3, &[3, 3, 3]), Ok(3));
    assert_eq!(check_geodesic_input(2, 2, 5, true), Ok(()));
}

#[test]
fn numerical_error_messages() {
    let e = NumericalGRError::ParallelTransportDimensionMismatch { vector_dim: 1, curve_dim: 12 };
    assert_eq!(
        e.message(),
        "parallel_transport initial vector dimension 1 does not match curve dimension 12"
    );
    assert_eq!(
        NumericalGRError::InvalidStepCount.message(),
        "integrate_geodesic requires n_steps > 0"
    );
}

#[test]
fn trace_free_symmetry_detects_annihilating_contraction() {
    // A trace-free tableau on four slots.
    assert!(contraction_annihilated_by_trace_free_symmetry(true, 4, &[(0, 2)]));
}

#[test]
fn non_trace_free_symmetry_does_not_annihilate_contraction() {
    assert!(!contraction_annihilated_by_trace_free_symmetry(false, 4, &[(0, 2)]));
}

#[test]
fn contraction_outside_slots_or_on_one_slot_survives() {
    assert!(!contraction_annihilated_by_trace_free_symmetry(true, 4, &[(0, 4), (1, 1)]));
    assert!(contraction_annihilated_by_trace_free_symmetry(true, 4, &[(0, 4), (1, 3)]));
}

#[test]
fn trace_engine_messages() {
    assert_eq!(
        TraceEngineError::MissingProperties.message(),
        "trace engine requires tensor properties for contraction analysis"
    );
}

#[test]
fn petrov_all_zero_is_o() {
    assert_eq!(petrov_type_from_vanishing([true; 5], [false; 5], true), PetrovType::O);
}

#[test]
fn petrov_only_psi2_is_d() {
    let zero = [true, true, false, true, true];
    let nonzero = [false, false, true, false, false];
    assert_eq!(petrov_type_from_vanishing(zero, nonzero, false), PetrovType::D);
}

#[test]
fn petrov_only_psi4_is_n() {
    let zero = [true, true, true, true, false];
    let nonzero = [false, false, false, false, true];
    assert_eq!(petrov_type_from_vanishing(zero, nonzero, false), PetrovType::N);
}

#[test]
fn petrov_only_psi3_is_iii() {
    let zero = [true, true, true, false, true];
    let nonzero = [false, false, false, true, false];
    assert_eq!(petrov_type_from_vanishing(zero, nonzero, false), PetrovType::III);
}

#[test]
fn petrov_relation_gives_ii_else_i() {
    let zero = [false; 5];
    let nonzero = [true; 5];
    assert_eq!(petrov_type_from_vanishing(zero, nonzero, true), PetrovType::II);
    assert_eq!(petrov_type_from_vanishing(zero, nonzero, false), PetrovType::I);
}

#[test]
fn newman_penrose_messages() {
    assert_eq!(
        NewmanPenroseError::RequiresFourDimensions.message(),
        "null_tetrad_from_metric requires a 4-dimensional metric"
    );
    assert_eq!(
        NewmanPenroseError::LNotNull.message(),
        "verify_null_tetrad failed: l·l is not zero"
    );
}

#[test]
fn multiterm_messages() {
    assert_eq!(
        MultitermError::NoApplicableIdentity.message(),
        "no applicable multiterm identity found for tensor factor"
    );
    let e: MultitermError = anyhow::Error::msg("bad permutation").into();
    assert_eq!(e.message(), "multiterm identity expansion failed: bad permutation");
}

#[test]
fn identity_arity_checks_slots() {
    let bianchi = TensorMultitermIdentity::FirstBianchi { cyclic_slots: vec![1, 2, 3] };
    assert!(identity_applies_to_arity(&bianchi, 4));
    assert!(!identity_applies_to_arity(&bianchi, 3));
    let combo = TensorMultitermIdentity::LinearCombination {
        terms: vec![PermutedCoefficientTerm {
            permutation: vec![1, 0, 2],
            coefficient_numer: -1,
            coefficient_denom: 2,
        }],
    };
    assert!(identity_applies_to_arity(&combo, 3));
    assert!(!identity_applies_to_arity(&combo, 4));
    assert_eq!(identity_kind(&bianchi), "FirstBianchi");
    assert_eq!(identity_kind(&combo), "LinearCombination");
}

#[test]
fn slot_keys_and_permutation() {
    let a = Index { name: 5, variance: Variance::Down, index_type: Some(2) };
    let b = Index { name: 3, variance: Variance::Up, index_type: None };
    assert_eq!(slot_sort_key(&a), (5, 1, Some(2)));
    assert_eq!(slots_sort_key(&[a, b]), vec![(5, 1, Some(2)), (3, 0, None)]);
    let permuted = apply_permutation_to_slots(&[1, 0, 1], &[a, b]);
    assert_eq!(permuted.iter().map(|s| s.name).collect::<Vec<_>>(), vec![3, 5, 3]);
}

#[test]
fn slot_names_as_text() {
    let a = Index { name: 12, variance: Variance::Down, index_type: None };
    let b = Index { name: 0, variance: Variance::Up, index_type: None };
    assert_eq!(slot_strings(&[a, b]), vec!["12".to_string(), "0".to_string()]);
}

#[test]
fn spin_coefficient_dimension_checks() {
    let gamma = vec![vec![4, 4, 4, 4]; 4];
    assert_eq!(check_spin_coefficient_dims(4, &gamma, 4, [4; 4]), Ok(()));
    assert_eq!(
        check_spin_coefficient_dims(4, &gamma, 3, [4; 4]),
        Err(NewmanPenroseError::SpinCoefficientDimensionMismatch)
    );
    let mut short = gamma.clone();
    short[2][1] = 3;
    assert_eq!(
        check_spin_coefficient_dims(4, &short, 4, [4; 4]),
        Err(NewmanPenroseError::SpinCoefficientDimensionMismatch)
    );
    assert_eq!(
        check_spin_coefficient_dims(3, &vec![vec![3, 3, 3]; 3], 3, [3; 4]),
        Err(NewmanPenroseError::SpinCoefficientDimensionMismatch)
    );
}

#[test]
fn weyl_scalar_dimension_checks() {
    let weyl = vec![vec![vec![4, 4, 4, 4]; 4]; 4];
    assert_eq!(check_weyl_scalar_dims(4, &weyl, [4; 4]), Ok(()));
    assert_eq!(
        check_weyl_scalar_dims(4, &weyl, [4, 4, 3, 4]),
        Err(NewmanPenroseError::WeylScalarDimensionMismatch)
    );
    let mut bad = weyl.clone();
    bad[3].pop();
    assert_eq!(
        check_weyl_scalar_dims(4, &bad, [4; 4]),
        Err(NewmanPenroseError::WeylScalarDimensionMismatch)
    );
}
