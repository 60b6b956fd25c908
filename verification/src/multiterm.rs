//! Multi-term tensor identities (first Bianchi, cyclic and alternating sums,
//! linear combinations of slot permutations): which slot counts they apply
//! to, how slot vectors are keyed and permuted, and the errors of reducing
//! a factor modulo such an identity.
use vstd::prelude::*;
use vstd::string::*;
use crate::indices::{Index, Variance};
use crate::numerical_gr::{decimal, decimal_string};

verus! {

#[verifier::external_type_specification]
#[verifier::external_body]
pub struct ExAnyhowError(anyhow::Error);

/// Why a reduction modulo a multi-term identity fails.
#[derive(Debug)]
pub enum MultitermError {
    UnsupportedExpr,
    IdentityExpansion(anyhow::Error),
    NoApplicableIdentity,
}

/// The fixed part of each error's text; an expansion failure is followed by
/// the text of its cause.
pub open spec fn multiterm_error_text(e: MultitermError) -> Seq<char> {
    match e {
        MultitermError::UnsupportedExpr => "multiterm reduction supports only single indexed tensor factors on this path"@,
        MultitermError::IdentityExpansion(_) => "multiterm identity expansion failed: "@,
        MultitermError::NoApplicableIdentity => "no applicable multiterm identity found for tensor factor"@,
    }
}

/// `ToString::to_string` on an `anyhow::Error`: the text its `Display`
/// writes. Nothing is stated of it: the text is the cause's own.
#[verifier::external_body]
fn cause_text(e: &anyhow::Error) -> String {
    e.to_string()
}

impl MultitermError {
    /// The text that describes the error: for an expansion failure, the
    /// fixed text followed by the cause's.
    pub fn message(&self) -> (m: String)
        ensures
            self is IdentityExpansion ==> m@.len() >= multiterm_error_text(*self).len() && m@.take(
                multiterm_error_text(*self).len() as int,
            ) == multiterm_error_text(*self),
            !(self is IdentityExpansion) ==> m@ == multiterm_error_text(*self),
    {
        match self {
            MultitermError::UnsupportedExpr => "multiterm reduction supports only single indexed tensor factors on this path".to_owned(),
            MultitermError::IdentityExpansion(cause) => {
                let mut m = "multiterm identity expansion failed: ".to_owned();
                let ghost prefix = m@;
                let tail = cause_text(cause);
                m.append(tail.as_str());
                assert(m@.take(prefix.len() as int) =~= prefix);
                m
            },
            MultitermError::NoApplicableIdentity => "no applicable multiterm identity found for tensor factor".to_owned(),
        }
    }
}

impl From<anyhow::Error> for MultitermError {
    fn from(e: anyhow::Error) -> (r: MultitermError) {
        MultitermError::IdentityExpansion(e)
    }
}

impl vstd::std_specs::convert::FromSpecImpl<anyhow::Error> for MultitermError {
    open spec fn obeys_from_spec() -> bool {
        true
    }

    open spec fn from_spec(v: anyhow::Error) -> MultitermError {
        MultitermError::IdentityExpansion(v)
    }
}

/// One term of a linear-combination identity: a slot permutation and its
/// rational coefficient.
#[derive(Clone, Debug)]
pub struct PermutedCoefficientTerm {
    pub permutation: Vec<usize>,
    pub coefficient_numer: i64,
    pub coefficient_denom: i64,
}

/// A multi-term identity among slot permutations of a tensor.
#[derive(Clone, Debug)]
pub enum TensorMultitermIdentity {
    FirstBianchi { cyclic_slots: Vec<usize> },
    CyclicSum { slots: Vec<usize> },
    AlternatingSum { slots: Vec<usize> },
    LinearCombination { terms: Vec<PermutedCoefficientTerm> },
}

/// Every slot is below `arity`.
pub open spec fn slots_below(slots: Seq<usize>, arity: usize) -> bool {
    forall|i: int| 0 <= i < slots.len() ==> #[trigger] slots[i] < arity
}

/// The identity can act on a tensor with `arity` slots: its slots are all
/// among them, or, for a linear combination, every permutation has length
/// `arity`.
pub open spec fn applies_to_arity(identity: TensorMultitermIdentity, arity: usize) -> bool {
    match identity {
        TensorMultitermIdentity::FirstBianchi { cyclic_slots } => slots_below(cyclic_slots@, arity),
        TensorMultitermIdentity::CyclicSum { slots } => slots_below(slots@, arity),
        TensorMultitermIdentity::AlternatingSum { slots } => slots_below(slots@, arity),
        TensorMultitermIdentity::LinearCombination { terms } => forall|i: int|
            0 <= i < terms@.len() ==> (#[trigger] terms@[i]).permutation@.len() == arity,
    }
}

fn all_below(slots: &Vec<usize>, arity: usize) -> (b: bool)
    ensures
        b == slots_below(slots@, arity),
{
    let mut i: usize = 0;
    while i < slots.len()
        invariant
            i <= slots.len(),
            forall|q: int| 0 <= q < i ==> #[trigger] slots@[q] < arity,
        decreases slots.len() - i,
    {
        if slots[i] >= arity {
            return false;
        }
        i = i + 1;
    }
    true
}

/// Whether the identity can act on a tensor with `arity` slots.
pub fn identity_applies_to_arity(identity: &TensorMultitermIdentity, arity: usize) -> (b: bool)
    ensures
        b == applies_to_arity(*identity, arity),
{
    match identity {
        TensorMultitermIdentity::FirstBianchi { cyclic_slots } => all_below(cyclic_slots, arity),
        TensorMultitermIdentity::CyclicSum { slots } => all_below(slots, arity),
        TensorMultitermIdentity::AlternatingSum { slots } => all_below(slots, arity),
        TensorMultitermIdentity::LinearCombination { terms } => all_of_arity(terms, arity),
    }
}

fn all_of_arity(terms: &Vec<PermutedCoefficientTerm>, arity: usize) -> (b: bool)
    ensures
        b == forall|i: int| 0 <= i < terms@.len() ==> (#[trigger] terms@[i]).permutation@.len() == arity,
{
    let mut i: usize = 0;
    while i < terms.len()
        invariant
            i <= terms.len(),
            forall|q: int| 0 <= q < i ==> (#[trigger] terms@[q]).permutation@.len() == arity,
        decreases terms.len() - i,
    {
        if terms[i].permutation.len() != arity {
            return false;
        }
        i = i + 1;
    }
    true
}

/// The name of each kind of identity.
pub open spec fn identity_kind_name(identity: TensorMultitermIdentity) -> Seq<char> {
    match identity {
        TensorMultitermIdentity::FirstBianchi { .. } => "FirstBianchi"@,
        TensorMultitermIdentity::CyclicSum { .. } => "CyclicSum"@,
        TensorMultitermIdentity::AlternatingSum { .. } => "AlternatingSum"@,
        TensorMultitermIdentity::LinearCombination { .. } => "LinearCombination"@,
    }
}

/// The name of the kind of the identity.
pub fn identity_kind(identity: &TensorMultitermIdentity) -> (s: &'static str)
    ensures
        s@ == identity_kind_name(*identity),
{
    match identity {
        TensorMultitermIdentity::FirstBianchi { .. } => "FirstBianchi",
        TensorMultitermIdentity::CyclicSum { .. } => "CyclicSum",
        TensorMultitermIdentity::AlternatingSum { .. } => "AlternatingSum",
        TensorMultitermIdentity::LinearCombination { .. } => "LinearCombination",
    }
}

/// The key by which a slot is ordered: its name, 0 for an upper and 1 for
/// a lower index, and its family.
pub open spec fn slot_key_spec(slot: Index) -> (usize, u8, Option<usize>) {
    (slot.name, if slot.variance == Variance::Up { 0u8 } else { 1u8 }, slot.index_type)
}

/// The key by which a slot is ordered.
pub fn slot_sort_key(slot: &Index) -> (k: (usize, u8, Option<usize>))
    ensures
        k == slot_key_spec(*slot),
{
    let v: u8 = match slot.variance {
        Variance::Up => 0,
        Variance::Down => 1,
    };
    (slot.name, v, slot.index_type)
}

/// The keys of a vector of slots, in order.
pub fn slots_sort_key(slots: &[Index]) -> (keys: Vec<(usize, u8, Option<usize>)>)
    ensures
        keys@ == slots@.map_values(|s: Index| slot_key_spec(s)),
{
    let mut keys: Vec<(usize, u8, Option<usize>)> = Vec::new();
    let mut i: usize = 0;
    while i < slots.len()
        invariant
            i <= slots.len(),
            keys@ == slots@.take(i as int).map_values(|s: Index| slot_key_spec(s)),
        decreases slots.len() - i,
    {
        keys.push(slot_sort_key(&slots[i]));
        assert(slots@.take(i as int + 1) =~= slots@.take(i as int).push(slots@[i as int]));
        i = i + 1;
    }
    assert(slots@.take(slots@.len() as int) =~= slots@);
    keys
}

/// The slots rearranged by the permutation: entry `i` is slot `perm[i]`.
pub fn apply_permutation_to_slots(perm: &[usize], slots: &[Index]) -> (out: Vec<Index>)
    requires
        forall|i: int| 0 <= i < perm@.len() ==> #[trigger] perm@[i] < slots@.len(),
    ensures
        out@ == perm@.map_values(|p: usize| slots@[p as int]),
{
    let mut out: Vec<Index> = Vec::new();
    let mut i: usize = 0;
    while i < perm.len()
        invariant
            i <= perm.len(),
            forall|q: int| 0 <= q < perm@.len() ==> #[trigger] perm@[q] < slots@.len(),
            out@ == perm@.take(i as int).map_values(|p: usize| slots@[p as int]),
        decreases perm.len() - i,
    {
        let p = perm[i];
        out.push(slots[p]);
        assert(perm@.take(i as int + 1) =~= perm@.take(i as int).push(perm@[i as int]));
        i = i + 1;
    }
    assert(perm@.take(perm@.len() as int) =~= perm@);
    out
}

/// The names of the slots' indices as decimal numerals, in order.
pub fn slot_strings(slots: &[Index]) -> (out: Vec<String>)
    ensures
        out@.len() == slots@.len(),
        forall|i: int| 0 <= i < slots@.len() ==> #[trigger] out@[i]@ == decimal(slots@[i].name as nat),
{
    let mut out: Vec<String> = Vec::new();
    let mut i: usize = 0;
    while i < slots.len()
        invariant
            i <= slots.len(),
            out@.len() == i,
            forall|q: int| 0 <= q < i ==> #[trigger] out@[q]@ == decimal(slots@[q].name as nat),
        decreases slots.len() - i,
    {
        out.push(decimal_string(slots[i].name));
        i = i + 1;
    }
    out
}

} // verus!
