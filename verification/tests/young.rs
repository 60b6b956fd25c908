use ax_tensor::dimension::tab_dimension;
use ax_tensor::lattice::lr_lattice_word_ok;
use ax_tensor::lr::littlewood_richardson;
use ax_tensor::multiplicity_trace::{decompose_product_with_basis_trace, MultiplicityTraceError};
use ax_tensor::product::lr_product_decomposition;
use ax_tensor::shape::{addable_rows, normalize_shape, shape_fits_dim};
use ax_tensor::shape_order::sort_shapes;

#[test]
fn lr_three_vectors_tracks_multiplicity() {
    let result = lr_product_decomposition(&[vec![1], vec![1], vec![1]], 4);
    assert!(
        result
            .iter()
            .any(|(shape, multiplicity)| shape == &vec![2, 1] && *multiplicity == 2),
        "[1]⊗[1]⊗[1] should contain [2,1] with multiplicity 2, got {:?}",
        result
    );
}

#[test]
fn lr_vector_vector_decomposition() {
    let result = littlewood_richardson(&[1], &[1], 4);
    let shapes: Vec<Vec<usize>> = result.iter().map(|(s, _)| s.clone()).collect();
    assert!(shapes.contains(&vec![2]), "should contain symmetric rep [2]");
    assert!(shapes.contains(&vec![1, 1]), "should contain antisymmetric rep [1,1]");
}

#[test]
fn lr_symmetric_vector() {
    let result = littlewood_richardson(&[2], &[1], 4);
    let shapes: Vec<Vec<usize>> = result.iter().map(|(s, _)| s.clone()).collect();
    assert!(shapes.contains(&vec![3]), "should contain [3]");
    assert!(shapes.contains(&vec![2, 1]), "should contain [2,1]");
}

#[test]
fn tab_dimension_vector() {
    assert_eq!(tab_dimension(&[1], 4), 4);
}

#[test]
fn tab_dimension_symmetric_2() {
    assert_eq!(tab_dimension(&[2], 4), 10);
}

#[test]
fn tab_dimension_antisymmetric_2() {
    assert_eq!(tab_dimension(&[1, 1], 4), 6);
}

#[test]
fn decompose_product_with_basis_trace_reports_two_one_trace() {
    let (summary, traces) =
        decompose_product_with_basis_trace(&[vec![1], vec![1], vec![1]]).unwrap();
    assert_eq!(summary.shapes, vec![vec![1, 1, 1], vec![2, 1], vec![3]]);
    assert_eq!(traces.len(), 1);
    assert_eq!(traces[0].target, vec![2, 1]);
}

#[test]
fn basis_trace_summary_counts_each_diagram() {
    let (summary, traces) =
        decompose_product_with_basis_trace(&[vec![1], vec![1], vec![1]]).unwrap();
    assert_eq!(summary.multiplicities, vec![1, 2, 1]);
    assert_eq!(traces[0].multiplicity, 2);
}

#[test]
fn basis_trace_rejects_empty_diagram() {
    let result = decompose_product_with_basis_trace(&[vec![], vec![1], vec![1]]);
    assert_eq!(result.err(), Some(MultiplicityTraceError::InvalidDiagram));
    assert!(MultiplicityTraceError::InvalidDiagram
        .message()
        .contains("failed to compute tensor-product multiplicity trace"));
}

#[test]
fn basis_trace_rejects_growing_rows() {
    let result = decompose_product_with_basis_trace(&[vec![1, 2], vec![1]]);
    assert!(result.is_err());
}

#[test]
fn basis_trace_of_two_vectors_has_no_repeated_diagram() {
    let (summary, traces) = decompose_product_with_basis_trace(&[vec![1], vec![1]]).unwrap();
    assert_eq!(summary.shapes, vec![vec![1, 1], vec![2]]);
    assert_eq!(summary.multiplicities, vec![1, 1]);
    assert!(traces.is_empty());
}

#[test]
fn lr_table_is_descending_and_counts_fillings() {
    // [1] x [1] within dimension 4: [2] and [1,1], each once, largest first.
    let result = littlewood_richardson(&[1], &[1], 4);
    assert_eq!(result, vec![(vec![2], 1), (vec![1, 1], 1)]);
}

#[test]
fn lr_respects_dimension_bound() {
    // In dimension 1 only the one-row diagram survives.
    let result = littlewood_richardson(&[1], &[1], 1);
    assert_eq!(result, vec![(vec![2], 1)]);
}

#[test]
fn lr_counts_placement_sequences_of_two_boxes() {
    // The product [2] x [2] reaches [3,1] along two placement sequences of
    // the same filling, so the table counts it twice.
    let result = littlewood_richardson(&[2], &[2], 4);
    assert_eq!(result, vec![(vec![4], 1), (vec![3, 1], 2), (vec![2, 2], 1)]);
}

#[test]
fn lr_empty_when_factor_does_not_fit() {
    let result = littlewood_richardson(&[1, 1, 1], &[1], 2);
    assert!(result.is_empty());
}

#[test]
fn lr_product_of_no_factor_is_empty() {
    let result = lr_product_decomposition(&[], 4);
    assert!(result.is_empty());
}

#[test]
fn lr_product_of_one_factor_is_its_normal_form() {
    let result = lr_product_decomposition(&[vec![0, 1, 2]], 4);
    assert_eq!(result, vec![(vec![2, 1], 1)]);
}

#[test]
fn tab_dimension_of_empty_diagram_is_one() {
    assert_eq!(tab_dimension(&[], 3), 1);
}

#[test]
fn tab_dimension_zero_when_too_many_rows() {
    assert_eq!(tab_dimension(&[1, 1, 1], 2), 0);
}

#[test]
fn tab_dimension_of_mixed_diagram() {
    // [2,1] in dimension 3 is the adjoint-like octet.
    assert_eq!(tab_dimension(&[2, 1], 3), 8);
}

#[test]
fn normalize_drops_zero_rows_and_sorts() {
    assert_eq!(normalize_shape(&[0, 1, 3, 0, 2]), vec![3, 2, 1]);
}

#[test]
fn fits_dim_counts_rows() {
    assert!(shape_fits_dim(&[2, 1], 2));
    assert!(!shape_fits_dim(&[1, 1, 1], 2));
}

#[test]
fn addable_rows_of_hook() {
    // [2,1] in dimension 3: boxes can go at the end of rows 0, 1 and 2.
    assert_eq!(addable_rows(&[2, 1], 3), vec![0, 1, 2]);
    // In dimension 2 the third row is not available.
    assert_eq!(addable_rows(&[2, 1], 2), vec![0, 1]);
}

#[test]
fn lattice_word_checks_reading_word() {
    assert!(lr_lattice_word_ok(&[(0, 2, 1), (1, 0, 2)]));
    assert!(!lr_lattice_word_ok(&[(0, 0, 2)]));
}

#[test]
fn sort_shapes_orders_like_vectors() {
    let sorted = sort_shapes(&vec![vec![3], vec![1, 1, 1], vec![2, 1]]);
    assert_eq!(sorted, vec![vec![1, 1, 1], vec![2, 1], vec![3]]);
}
