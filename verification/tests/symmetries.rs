use ax_tensor::indices::{
    dense_projector_labels, detect_contractions, next_permutation_usize, permutation_parity,
    permutation_sign_between, Index, Variance,
};
use ax_tensor::symmetry::{
    build_generating_set, factor_exchange_allowed, factor_exchange_sign, identity_permutation,
    metric_symmetry_for_slots, tableau_groups_from_shape, TensorFactorInfo, TensorProperty,
};
use lasso::{Key, Rodeo};

fn symbol(rodeo: &mut Rodeo, name: &str) -> usize {
    rodeo.get_or_intern(name).into_usize()
}

fn factor(name: usize, n_indices: usize, start_position: usize, properties: Vec<TensorProperty>) -> TensorFactorInfo {
    TensorFactorInfo { name, n_indices, start_position, properties }
}

#[test]
fn detect_contraction_pair() {
    let mut rodeo = Rodeo::default();
    let mu = symbol(&mut rodeo, "mu");
    let indices = vec![
        Index { name: mu, variance: Variance::Up, index_type: None },
        Index { name: mu, variance: Variance::Down, index_type: None },
    ];
    let pairs = detect_contractions(&indices);
    assert_eq!(pairs, vec![(0, 1)]);
}

#[test]
fn generating_set_symmetric_2tensor() {
    let mut rodeo = Rodeo::default();
    let g_sym = symbol(&mut rodeo, "g");
    let factors = vec![factor(g_sym, 2, 0, vec![TensorProperty::Symmetric(vec![0, 1])])];
    let gens = build_generating_set(&factors);
    assert_eq!(gens.len(), 1);
    assert_eq!(gens[0][0], 1);
    assert_eq!(gens[0][1], 0);
    assert_eq!(gens[0][2], 2);
    assert_eq!(gens[0][3], 3);
}

#[test]
fn generating_set_antisymmetric_2tensor() {
    let mut rodeo = Rodeo::default();
    let f_sym = symbol(&mut rodeo, "F");
    let factors = vec![factor(f_sym, 2, 0, vec![TensorProperty::AntiSymmetric(vec![0, 1])])];
    let gens = build_generating_set(&factors);
    assert_eq!(gens.len(), 1);
    assert_eq!(gens[0][0], 1);
    assert_eq!(gens[0][1], 0);
    assert_eq!(gens[0][2], 3);
    assert_eq!(gens[0][3], 2);
}

#[test]
fn generating_set_riemann() {
    let mut rodeo = Rodeo::default();
    let r_sym = symbol(&mut rodeo, "R");
    let factors = vec![factor(r_sym, 4, 0, vec![TensorProperty::RiemannSymmetry])];
    let gens = build_generating_set(&factors);
    assert_eq!(gens.len(), 3);
}

#[test]
fn identical_tensor_exchange() {
    let mut rodeo = Rodeo::default();
    let a_sym = symbol(&mut rodeo, "A");
    let factors = vec![factor(a_sym, 1, 0, vec![]), factor(a_sym, 1, 1, vec![])];
    let gens = build_generating_set(&factors);
    assert_eq!(gens.len(), 1);
    assert_eq!(gens[0][0], 1);
    assert_eq!(gens[0][1], 0);
}

#[test]
fn generating_set_riemann_generators_exact() {
    let factors = vec![factor(7, 4, 0, vec![TensorProperty::RiemannSymmetry])];
    let gens = build_generating_set(&factors);
    assert_eq!(gens[0], vec![1, 0, 2, 3, 5, 4]);
    assert_eq!(gens[1], vec![0, 1, 3, 2, 5, 4]);
    assert_eq!(gens[2], vec![2, 3, 0, 1, 4, 5]);
}

#[test]
fn anticommuting_identical_factors_exchange_with_sign() {
    let factors = vec![
        factor(3, 1, 0, vec![TensorProperty::AntiCommuting]),
        factor(3, 1, 1, vec![TensorProperty::AntiCommuting]),
    ];
    let gens = build_generating_set(&factors);
    assert_eq!(gens, vec![vec![1, 0, 3, 2]]);
    assert!(factor_exchange_sign(&factors[0], &factors[1]));
}

#[test]
fn noncommuting_factors_do_not_exchange() {
    let factors = vec![
        factor(3, 1, 0, vec![TensorProperty::NonCommuting]),
        factor(3, 1, 1, vec![]),
    ];
    assert!(!factor_exchange_allowed(&factors[0], &factors[1]));
    assert!(build_generating_set(&factors).is_empty());
}

#[test]
fn every_generator_permutes_slots_and_signs() {
    // Each generator is a permutation of the slots followed by the two sign points.
    let factors = vec![
        factor(1, 3, 0, vec![TensorProperty::EpsilonTensor]),
        factor(2, 2, 3, vec![TensorProperty::Metric]),
    ];
    let gens = build_generating_set(&factors);
    assert_eq!(gens.len(), 3);
    for g in &gens {
        let mut seen = g.clone();
        seen.sort();
        assert_eq!(seen, (0..7).collect::<Vec<usize>>());
    }
}

#[test]
fn tableau_groups_rows_and_columns() {
    let (rows, columns) = tableau_groups_from_shape(&vec![2, 1], &vec![5, 6, 7]);
    assert_eq!(rows, vec![vec![5, 6], vec![7]]);
    assert_eq!(columns, vec![vec![5, 7], vec![6]]);
}

#[test]
fn tableau_groups_skip_missing_slots() {
    let (rows, columns) = tableau_groups_from_shape(&vec![0, 2, 2], &vec![1, 2, 3]);
    assert_eq!(rows, vec![vec![1, 2], vec![3]]);
    assert_eq!(columns, vec![vec![1, 3], vec![2]]);
}

#[test]
fn identity_permutation_is_in_order() {
    assert_eq!(identity_permutation(4), vec![0, 1, 2, 3]);
}

#[test]
fn metric_symmetry_negative_for_spinor_slot() {
    let factors = vec![
        factor(1, 2, 0, vec![TensorProperty::Metric]),
        factor(2, 2, 2, vec![TensorProperty::Spinor]),
    ];
    assert_eq!(metric_symmetry_for_slots(&[0, 1], &factors), 1);
    assert_eq!(metric_symmetry_for_slots(&[1, 3], &factors), -1);
    assert_eq!(metric_symmetry_for_slots(&[9], &factors), 1);
}

#[test]
fn metric_symmetry_uses_first_covering_factor() {
    // Slot 0 is covered by both factors; the first one decides.
    let factors = vec![
        factor(1, 1, 0, vec![]),
        factor(2, 1, 0, vec![TensorProperty::AntiCommuting]),
    ];
    assert_eq!(metric_symmetry_for_slots(&[0], &factors), 1);
}

#[test]
fn dense_labels_rank_slots() {
    assert_eq!(dense_projector_labels(&[7, 3, 9, 3]), vec![2, 0, 3, 0]);
}

#[test]
fn next_permutation_steps_lexicographically() {
    let mut arr = vec![1, 2, 3];
    assert!(next_permutation_usize(&mut arr));
    assert_eq!(arr, vec![1, 3, 2]);
    assert!(next_permutation_usize(&mut arr));
    assert_eq!(arr, vec![2, 1, 3]);
    let mut last = vec![3, 2, 1];
    assert!(!next_permutation_usize(&mut last));
    assert_eq!(last, vec![3, 2, 1]);
}

#[test]
fn next_permutation_with_repeats() {
    let mut arr = vec![1, 1, 2];
    assert!(next_permutation_usize(&mut arr));
    assert_eq!(arr, vec![1, 2, 1]);
}

#[test]
fn permutation_parity_of_swap() {
    let a = Index { name: 1, variance: Variance::Up, index_type: None };
    let b = Index { name: 2, variance: Variance::Down, index_type: None };
    assert!(permutation_parity(&[b, a], &[a, b]));
    assert!(!permutation_parity(&[a, b], &[a, b]));
}

#[test]
fn permutation_sign_of_cycles() {
    assert_eq!(permutation_sign_between(&[1, 2, 3], &[1, 2, 3]), 1);
    assert_eq!(permutation_sign_between(&[1, 2, 3], &[2, 1, 3]), -1);
    assert_eq!(permutation_sign_between(&[1, 2, 3], &[2, 3, 1]), 1);
}
