use ax_tensor::mixed::{
    decompose_small_mixed_product, ensure_supported_regime, summarize_mixed_tensor_symmetry,
    MixedIrrepSummary, MixedSlot, MixedSymmetryError, MixedTableauAttachment, MixedTensorSymmetry,
    SlotKind,
};

fn tableau(shape: Vec<usize>, kinds: &[SlotKind]) -> MixedTableauAttachment {
    MixedTableauAttachment {
        shape,
        slots: kinds
            .iter()
            .enumerate()
            .map(|(index, kind)| MixedSlot { index, kind: *kind })
            .collect(),
    }
}

/// A vector written as a bispinor: one antisymmetric pair carrying an
/// undotted and a dotted spinor slot.
fn vector_as_bispinor_symmetry() -> MixedTensorSymmetry {
    MixedTensorSymmetry {
        tableaux: vec![tableau(vec![1, 1], &[SlotKind::UndottedSpinor, SlotKind::DottedSpinor])],
    }
}

/// Two symmetrised undotted spinor slots.
fn symmetric_two_undotted_spinors() -> MixedTensorSymmetry {
    MixedTensorSymmetry {
        tableaux: vec![tableau(vec![2], &[SlotKind::UndottedSpinor, SlotKind::UndottedSpinor])],
    }
}

fn summary(t: Vec<Vec<usize>>, u: Vec<Vec<usize>>, d: Vec<Vec<usize>>) -> MixedIrrepSummary {
    MixedIrrepSummary { tensor_shapes: t, undotted_spinor_shapes: u, dotted_spinor_shapes: d }
}

#[test]
fn summarize_bispinor_duplicates_shape_into_both_spinor_sectors() {
    let summary = summarize_mixed_tensor_symmetry(&vector_as_bispinor_symmetry(), Ok(())).unwrap();
    assert_eq!(summary.tensor_shapes, Vec::<Vec<usize>>::new());
    assert_eq!(summary.undotted_spinor_shapes, vec![vec![1, 1]]);
    assert_eq!(summary.dotted_spinor_shapes, vec![vec![1, 1]]);
}

#[test]
fn decompose_small_symmetric_undotted_product_uses_exact_lr_shapes() {
    let left = symmetric_two_undotted_spinors();
    let right = symmetric_two_undotted_spinors();
    let result = decompose_small_mixed_product(&left, &right, Ok(()), Ok(())).unwrap();
    assert_eq!(
        result,
        vec![
            summary(vec![], vec![vec![2, 2]], vec![]),
            summary(vec![], vec![vec![3, 1]], vec![]),
            summary(vec![], vec![vec![4]], vec![]),
        ]
    );
}

#[test]
fn tensor_spinor_mixed_tableau_is_rejected_on_summary_path() {
    let symmetry = MixedTensorSymmetry {
        tableaux: vec![MixedTableauAttachment {
            shape: vec![2],
            slots: vec![
                MixedSlot { index: 0, kind: SlotKind::Tensor },
                MixedSlot { index: 1, kind: SlotKind::UndottedSpinor },
            ],
        }],
    };
    assert_eq!(
        summarize_mixed_tensor_symmetry(&symmetry, Ok(())),
        Err(MixedSymmetryError::InvalidMixedTensorProduct)
    );
}

#[test]
fn summary_sorts_each_sector() {
    let symmetry = MixedTensorSymmetry {
        tableaux: vec![
            tableau(vec![2], &[SlotKind::Tensor]),
            tableau(vec![1, 1], &[SlotKind::Tensor]),
            tableau(vec![3], &[SlotKind::DottedSpinor]),
            tableau(vec![], &[]),
        ],
    };
    let summary = summarize_mixed_tensor_symmetry(&symmetry, Ok(())).unwrap();
    assert_eq!(summary.tensor_shapes, vec![vec![1, 1], vec![2]]);
    assert_eq!(summary.undotted_spinor_shapes, Vec::<Vec<usize>>::new());
    assert_eq!(summary.dotted_spinor_shapes, vec![vec![3]]);
}

#[test]
fn validation_error_is_passed_on() {
    assert_eq!(
        summarize_mixed_tensor_symmetry(&vector_as_bispinor_symmetry(), Err(MixedSymmetryError::InvalidSymmetry)),
        Err(MixedSymmetryError::InvalidSymmetry)
    );
}

#[test]
fn regime_rejects_two_diagrams_in_a_sector() {
    let big = summary(vec![vec![1], vec![2]], vec![], vec![]);
    assert_eq!(ensure_supported_regime(Ok(()), &big), Err(MixedSymmetryError::InvalidMixedTensorProduct));
}

#[test]
fn regime_rejects_three_boxes() {
    let big = summary(vec![], vec![vec![3]], vec![]);
    assert_eq!(ensure_supported_regime(Ok(()), &big), Err(MixedSymmetryError::InvalidMixedTensorProduct));
    let small = summary(vec![vec![1, 1]], vec![vec![1]], vec![]);
    assert_eq!(ensure_supported_regime(Ok(()), &small), Ok(()));
}

#[test]
fn product_combines_sectors_tensor_slowest() {
    let left = MixedTensorSymmetry {
        tableaux: vec![
            tableau(vec![1], &[SlotKind::Tensor]),
            tableau(vec![1], &[SlotKind::DottedSpinor]),
        ],
    };
    let right = MixedTensorSymmetry {
        tableaux: vec![
            tableau(vec![1], &[SlotKind::Tensor]),
            tableau(vec![1], &[SlotKind::DottedSpinor]),
        ],
    };
    let result = decompose_small_mixed_product(&left, &right, Ok(()), Ok(())).unwrap();
    assert_eq!(
        result,
        vec![
            summary(vec![vec![1, 1]], vec![], vec![vec![1, 1]]),
            summary(vec![vec![1, 1]], vec![], vec![vec![2]]),
            summary(vec![vec![2]], vec![], vec![vec![1, 1]]),
            summary(vec![vec![2]], vec![], vec![vec![2]]),
        ]
    );
}

#[test]
fn product_with_one_sided_sector_keeps_the_diagram() {
    let left = MixedTensorSymmetry { tableaux: vec![tableau(vec![2], &[SlotKind::Tensor])] };
    let right = MixedTensorSymmetry { tableaux: vec![] };
    let result = decompose_small_mixed_product(&left, &right, Ok(()), Ok(())).unwrap();
    assert_eq!(result, vec![summary(vec![vec![2]], vec![], vec![])]);
}

#[test]
fn product_rejects_right_validation_error() {
    let left = symmetric_two_undotted_spinors();
    let right = symmetric_two_undotted_spinors();
    assert_eq!(
        decompose_small_mixed_product(&left, &right, Ok(()), Err(MixedSymmetryError::InvalidSymmetry)),
        Err(MixedSymmetryError::InvalidSymmetry)
    );
}

#[test]
fn product_rejects_non_partition_diagram() {
    let left = MixedTensorSymmetry { tableaux: vec![tableau(vec![0, 1], &[SlotKind::Tensor])] };
    let right = MixedTensorSymmetry { tableaux: vec![tableau(vec![1], &[SlotKind::Tensor])] };
    assert_eq!(
        decompose_small_mixed_product(&left, &right, Ok(()), Ok(())),
        Err(MixedSymmetryError::InvalidMixedTensorProduct)
    );
}
