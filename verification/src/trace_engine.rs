//! When a trace-free symmetry annihilates a contraction, and the errors of
//! the trace engine.
use vstd::prelude::*;

verus! {

/// Why the trace engine refuses an expression.
#[derive(Debug, Clone, Copy, PartialEq, Eq, Structural)]
pub enum TraceEngineError {
    UnsupportedExpr,
    MissingProperties,
}

/// The text that describes each error.
pub open spec fn trace_error_text(e: TraceEngineError) -> Seq<char> {
    match e {
        TraceEngineError::UnsupportedExpr => "trace engine supports only indexed tensor factors and simple contractions on this path"@,
        TraceEngineError::MissingProperties => "trace engine requires tensor properties for contraction analysis"@,
    }
}

impl TraceEngineError {
    /// The text that describes the error.
    pub fn message(&self) -> (m: String)
        ensures
            m@ == trace_error_text(*self),
    {
        match self {
            TraceEngineError::UnsupportedExpr => "trace engine supports only indexed tensor factors and simple contractions on this path".to_owned(),
            TraceEngineError::MissingProperties => "trace engine requires tensor properties for contraction analysis".to_owned(),
        }
    }
}

/// A contraction of two distinct slots, both among the first `slot_count`.
pub open spec fn inner_contraction(pair: (usize, usize), slot_count: usize) -> bool {
    pair.0 < slot_count && pair.1 < slot_count && pair.0 != pair.1
}

/// Whether a symmetry annihilates one of the contractions: it must have a
/// trace-free tableau (`any_trace_free`) and some contraction must join two
/// distinct slots among its `slot_count` slots.
pub fn contraction_annihilated_by_trace_free_symmetry(
    any_trace_free: bool,
    slot_count: usize,
    contracted_slots: &[(usize, usize)],
) -> (b: bool)
    ensures
        b == (any_trace_free && exists|i: int|
            0 <= i < contracted_slots@.len() && inner_contraction(
                #[trigger] contracted_slots@[i],
                slot_count,
            )),
{
    if !any_trace_free {
        return false;
    }
    let mut i: usize = 0;
    while i < contracted_slots.len()
        invariant
            any_trace_free,
            i <= contracted_slots.len(),
            forall|q: int| 0 <= q < i ==> !inner_contraction(#[trigger] contracted_slots@[q], slot_count),
        decreases contracted_slots.len() - i,
    {
        let (left, right) = contracted_slots[i];
        if left < slot_count && right < slot_count && left != right {
            assert(inner_contraction(contracted_slots@[i as int], slot_count));
            return true;
        }
        i = i + 1;
    }
    false
}

} // verus!
