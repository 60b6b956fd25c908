use ax_tensor::indices::{chain_variance, opposite_variance, Index, Variance};
use ax_tensor::match_result::{comparison_ordering, MatchResult};
use ax_tensor::sparse_apply::{slot_ranking, variance_rank};
use ax_tensor::symmetry::{pair_commuting_behaviour, TensorProperty};
use std::cmp::Ordering;

fn ix(name: usize, variance: Variance, family: Option<usize>) -> Index {
    Index { name, variance, index_type: family }
}

#[test]
fn ranking_orders_by_name_then_variance() {
    let indices = vec![
        ix(5, Variance::Up, None),
        ix(2, Variance::Down, None),
        ix(2, Variance::Up, None),
    ];
    // slots 0, 1, 2 have keys (5,0,MAX,0), (2,1,MAX,1), (2,0,MAX,2)
    assert_eq!(slot_ranking(&indices, &[0, 1, 2]), vec![2, 1, 0]);
}

#[test]
fn ranking_breaks_ties_by_position() {
    let indices = vec![ix(1, Variance::Up, None)];
    assert_eq!(slot_ranking(&indices, &[0, 0, 0]), vec![0, 1, 2]);
}

#[test]
fn ranking_puts_family_before_no_family() {
    let indices = vec![ix(1, Variance::Up, None), ix(1, Variance::Up, Some(7))];
    assert_eq!(slot_ranking(&indices, &[0, 1]), vec![1, 0]);
}

#[test]
fn variance_ranks() {
    assert_eq!(variance_rank(&Variance::Up), 0);
    assert_eq!(variance_rank(&Variance::Down), 1);
}

#[test]
fn chain_variances() {
    assert_eq!(chain_variance(0, 1), Variance::Up);
    assert_eq!(chain_variance(1, 1), Variance::Up);
    assert_eq!(chain_variance(0, 2), Variance::Up);
    assert_eq!(chain_variance(1, 2), Variance::Down);
    assert_eq!(opposite_variance(Variance::Up), Variance::Down);
    assert_eq!(opposite_variance(Variance::Down), Variance::Up);
}

#[test]
fn comparison_orderings() {
    assert_eq!(comparison_ordering(MatchResult::MatchIndexLess), Ordering::Less);
    assert_eq!(comparison_ordering(MatchResult::NoMatchGreater), Ordering::Greater);
    assert_eq!(comparison_ordering(MatchResult::SubtreeMatch), Ordering::Equal);
}

#[test]
fn commuting_behaviour_from_either_side() {
    let a_props = vec![TensorProperty::Metric, TensorProperty::AntiCommutingWith(vec![9])];
    let b_props = vec![TensorProperty::CommutingWith(vec![3])];
    // The properties of 3 name 9 as anticommuting.
    assert_eq!(pair_commuting_behaviour(&a_props, &b_props, 3, 9), Some(-1));
    // Seen from 9, its own properties come first and name 3 as commuting.
    assert_eq!(pair_commuting_behaviour(&b_props, &a_props, 9, 3), Some(1));
    assert_eq!(pair_commuting_behaviour(&[], &[], 1, 2), None);
}

#[test]
fn commuting_behaviour_first_declaration_wins() {
    let props = vec![
        TensorProperty::NonCommutingWith(vec![4]),
        TensorProperty::CommutingWith(vec![4]),
    ];
    assert_eq!(pair_commuting_behaviour(&props, &[], 1, 4), Some(0));
}
