//! The outcome of comparing two expression trees, and the ordering it
//! stands for.
use vstd::prelude::*;

verus! {

/// How two expressions compare: by a matching index, without a match, or
/// as a match of nodes or whole subtrees.
#[derive(Clone, Copy, Debug, PartialEq, Eq, Structural)]
pub enum MatchResult {
    MatchIndexLess,
    MatchIndexGreater,
    NoMatchLess,
    NoMatchGreater,
    NodeMatch,
    SubtreeMatch,
}

/// The ordering a comparison outcome stands for.
pub open spec fn ordering_of(result: MatchResult) -> std::cmp::Ordering {
    match result {
        MatchResult::MatchIndexLess | MatchResult::NoMatchLess => std::cmp::Ordering::Less,
        MatchResult::MatchIndexGreater | MatchResult::NoMatchGreater => std::cmp::Ordering::Greater,
        MatchResult::NodeMatch | MatchResult::SubtreeMatch => std::cmp::Ordering::Equal,
    }
}

/// The ordering a comparison outcome stands for: less for the two "less"
/// outcomes, greater for the two "greater" ones, equal for a match.
pub fn comparison_ordering(result: MatchResult) -> (o: std::cmp::Ordering)
    ensures
        o == ordering_of(result),
{
    match result {
        MatchResult::MatchIndexLess | MatchResult::NoMatchLess => std::cmp::Ordering::Less,
        MatchResult::MatchIndexGreater | MatchResult::NoMatchGreater => std::cmp::Ordering::Greater,
        MatchResult::NodeMatch | MatchResult::SubtreeMatch => std::cmp::Ordering::Equal,
    }
}

} // verus!
