//! Bindings as they are handed to a consumer.
use crate::bindings::Bindings;
use crate::error::SimplifyError;
use crate::oracle::{VariableStateView, VariableStates};
use crate::prepare::is_falsity_term;
use crate::rename::sub_this;
use crate::rules::{
    assembled, bound_in_order, is_falsity, presented, presented_prefix, simplified_bindings,
    Failure,
};
use crate::simplify::{simplify_outcome, simplify_partial_within};
use crate::terms::{Operator, Symbol, Term, TermView, Value};
use vstd::prelude::*;

verus! {

/// What simplified bindings amount to.
pub open spec fn bindings_outcome(result: Result<Option<Bindings>, SimplifyError>) -> Result<
    Option<Seq<(Seq<char>, TermView)>>,
    Failure,
> {
    match result {
        Ok(Some(bindings)) => Ok(Some(bindings@)),
        Ok(None) => Ok(None),
        Err(error) => Err(error@),
    }
}

/// The views of variables and their values, in order.
pub open spec fn pairs(presented: Seq<(Symbol, Term)>) -> Seq<(Seq<char>, TermView)> {
    Seq::new(presented.len(), |i: int| (presented[i].0@, presented[i].1@))
}

/// What presented bindings amount to.
pub open spec fn presented_outcome(result: Result<Vec<(Symbol, Term)>, SimplifyError>) -> Result<
    Seq<(Seq<char>, TermView)>,
    Failure,
> {
    match result {
        Ok(presented) => Ok(pairs(presented@)),
        Err(error) => Err(error@),
    }
}

/// What assembled bindings amount to.
pub open spec fn assembled_outcome(result: Option<Bindings>) -> Option<
    Seq<(Seq<char>, TermView)>,
> {
    match result {
        Some(bindings) => Some(bindings@),
        None => None,
    }
}

/// The value under which the binding at the given place is presented.
/// Constraints are simplified for the bound variable and then written for
/// the placeholder `_this`; any other value is handed on as it is.
pub fn present(bindings: &Bindings, oracle: &VariableStates, place: usize, limit: usize) -> (r:
    Result<Term, SimplifyError>)
    requires
        place < bindings@.len(),
    ensures
        simplify_outcome(r) == presented(bindings@, oracle@, place as int, limit as nat),
{
    let var = bindings.key_at(place);
    let value = bindings.value_at(place);
    let constraints = match &value.value {
        Value::Expression(operation) => {
            if operation.operator != Operator::And {
                return Err(SimplifyError::Malformed(value.clone()));
            }
            value.clone()
        },
        Value::Variable(name) => {
            if !name.is_temporary_var() {
                return Ok(value.clone());
            }
            match bindings.get(name) {
                Some(constraints) => constraints.clone(),
                None => {
                    return Err(SimplifyError::Malformed(value.clone()));
                },
            }
        },
        _ => {
            return Ok(value.clone());
        },
    };
    match simplify_partial_within(var, constraints, oracle, limit) {
        Ok(simplified) => Ok(sub_this(var.clone(), simplified)),
        Err(error) => Err(error),
    }
}

/// The bindings as they are presented, in order, without those of
/// temporary variables.
pub fn present_bindings(bindings: &Bindings, oracle: &VariableStates, limit: usize) -> (r:
    Result<Vec<(Symbol, Term)>, SimplifyError>)
    ensures
        presented_outcome(r) == presented_prefix(
            bindings@,
            oracle@,
            bindings@.len(),
            limit as nat,
        ),
{
    let mut out: Vec<(Symbol, Term)> = Vec::new();
    let mut i: usize = 0;
    assert(pairs(out@) =~= Seq::empty());
    while i < bindings.len()
        invariant
            i <= bindings@.len(),
            presented_prefix(bindings@, oracle@, i as nat, limit as nat) == Ok::<
                _,
                Failure,
            >(pairs(out@)),
        decreases bindings@.len() - i,
    {
        let var = bindings.key_at(i);
        if !var.is_temporary_var() {
            match present(bindings, oracle, i, limit) {
                Ok(value) => {
                    let ghost before = pairs(out@);
                    out.push((var.clone(), value));
                    assert(pairs(out@) =~= before.push((var@, value@)));
                },
                Err(error) => {
                    proof {
                        lemma_presented_prefix_fails(
                            bindings@,
                            oracle@,
                            (i + 1) as nat,
                            bindings@.len(),
                            limit as nat,
                        );
                    }
                    return Err(error);
                },
            }
        }
        i = i + 1;
    }
    Ok(out)
}

/// The bindings that the presented values make, bound in order, or
/// nothing if one of the values is the constant FALSE: the bindings cannot
/// be satisfied.
pub fn assemble(presented: Vec<(Symbol, Term)>) -> (r: Option<Bindings>)
    ensures
        assembled_outcome(r) == assembled(pairs(presented@)),
        r matches Some(bindings) ==> bindings.well_formed(),
{
    let mut out = Bindings::new();
    let mut unsatisfiable = false;
    let mut i: usize = 0;
    while i < presented.len()
        invariant
            i <= presented.len(),
            pairs(presented@).len() == presented.len(),
            out.well_formed(),
            out@ == bound_in_order(pairs(presented@), i as nat),
            unsatisfiable == (exists|j: int|
                0 <= j < i && is_falsity((#[trigger] pairs(presented@)[j]).1)),
        decreases presented.len() - i,
    {
        let var = presented[i].0.clone();
        let value = presented[i].1.clone();
        assert(pairs(presented@)[i as int] == (var@, value@));
        if is_falsity_term(&value) {
            unsatisfiable = true;
        }
        out.insert(var, value);
        i = i + 1;
    }
    if unsatisfiable {
        None
    } else {
        Some(out)
    }
}

/// The bindings as they are handed to a consumer.
///
/// The bindings of temporary variables are left out. The constraints on
/// each other variable are simplified and written for the placeholder
/// `_this`; a variable bound to a temporary variable gets the simplified
/// value of that one. The result is nothing if some value that is handed on
/// is the constant FALSE: the bindings cannot be satisfied.
///
/// `limit` bounds the rewriting of each value as in
/// `simplify_partial_within`. The result is `Malformed` also where a bound
/// expression is no conjunction, and where a temporary variable that is
/// looked through is not bound.
pub fn simplify_bindings_within(bindings: Bindings, oracle: &VariableStates, limit: usize) -> (r:
    Result<Option<Bindings>, SimplifyError>)
    ensures
        bindings_outcome(r) == simplified_bindings(bindings@, oracle@, limit as nat),
        r matches Ok(Some(simplified)) ==> simplified.well_formed(),
{
    match present_bindings(&bindings, oracle, limit) {
        Ok(presented) => Ok(assemble(presented)),
        Err(error) => Err(error),
    }
}

/// The bindings as they are handed to a consumer, for bindings whose
/// values can all be simplified. `simplify_bindings_within` makes no such
/// demand.
pub fn simplify_bindings(bindings: Bindings, oracle: &VariableStates) -> (r: Option<Bindings>)
    requires
        simplified_bindings(bindings@, oracle@, usize::MAX as nat) is Ok,
    ensures
        bindings_outcome(Ok(r)) == simplified_bindings(bindings@, oracle@, usize::MAX as nat),
        r matches Some(simplified) ==> simplified.well_formed(),
{
    match simplify_bindings_within(bindings, oracle, usize::MAX) {
        Ok(simplified) => simplified,
        Err(_) => vstd::pervasive::unreached(),
    }
}

/// Once a prefix of the bindings could not be presented, no longer prefix
/// can, for the same reason.
pub proof fn lemma_presented_prefix_fails(
    entries: Seq<(Seq<char>, TermView)>,
    states: Map<Seq<char>, VariableStateView>,
    failed: nat,
    count: nat,
    limit: nat,
)
    requires
        presented_prefix(entries, states, failed, limit) is Err,
        failed <= count <= entries.len(),
    ensures
        presented_prefix(entries, states, count, limit) == presented_prefix(
            entries,
            states,
            failed,
            limit,
        ),
    decreases count,
{
    if failed < count {
        lemma_presented_prefix_fails(entries, states, failed, (count - 1) as nat, limit);
    }
}

} // verus!
