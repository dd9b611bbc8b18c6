//! Why a term could not be simplified.
use crate::rules::Failure;
use crate::terms::{same_term, Term};
use vstd::prelude::*;

verus! {

/// Why a term could not be simplified.
#[derive(Debug)]
pub enum SimplifyError {
    /// The node, given here, does not have the shape that its operator
    /// asks for.
    Malformed(Term),
    /// The rewriting did not come to rest within the limit.
    LimitExceeded,
}

impl View for SimplifyError {
    type V = Failure;

    open spec fn view(&self) -> Failure {
        match self {
            SimplifyError::Malformed(term) => Failure::Malformed(term@),
            SimplifyError::LimitExceeded => Failure::LimitExceeded,
        }
    }
}

impl Clone for SimplifyError {
    fn clone(&self) -> (r: SimplifyError)
        ensures
            r@ == self@,
    {
        match self {
            SimplifyError::Malformed(term) => SimplifyError::Malformed(term.clone()),
            SimplifyError::LimitExceeded => SimplifyError::LimitExceeded,
        }
    }
}

impl PartialEq for SimplifyError {
    fn eq(&self, other: &SimplifyError) -> (r: bool) {
        match (self, other) {
            (SimplifyError::Malformed(a), SimplifyError::Malformed(b)) => same_term(a, b),
            (SimplifyError::LimitExceeded, SimplifyError::LimitExceeded) => true,
            _ => false,
        }
    }
}

impl vstd::std_specs::cmp::PartialEqSpecImpl for SimplifyError {
    open spec fn obeys_eq_spec() -> bool {
        true
    }

    open spec fn eq_spec(&self, other: &SimplifyError) -> bool {
        self@ == other@
    }
}

} // verus!
