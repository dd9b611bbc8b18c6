//! Telling, before a term is simplified, that it will be.
use crate::oracle::{VariableState, VariableStates};
use crate::rules::{is_partial, simplified, Context, Failure};
use crate::simplify::simplify_partial;
use crate::termination::{
    are_orderly, is_exposed, is_orderly, is_well_shaped, lemma_orderly_is_simplified, size,
    sizes,
};
use crate::terms::{views, Operation, Operator, Symbol, Term, TermView, Value};
use vstd::prelude::*;

verus! {

/// The first terms of a list are together no larger than more of them.
pub proof fn lemma_sizes_grow(terms: Seq<TermView>, fewer: nat, more: nat)
    requires
        fewer <= more <= terms.len(),
    ensures
        sizes(terms, fewer) <= sizes(terms, more),
    decreases more,
{
    if fewer < more {
        lemma_sizes_grow(terms, fewer, (more - 1) as nat);
    }
}

/// What is left of the budget after the nodes of the term are taken from
/// it, or nothing if the term has more nodes than the budget.
pub fn size_within(term: &Term, budget: usize) -> (r: Option<usize>)
    ensures
        match r {
            Some(left) => size(term@) + left == budget,
            None => size(term@) > budget,
        },
    decreases term,
{
    if budget == 0 {
        return None;
    }
    match &term.value {
        Value::List(items) => {
            assert(term@->List_0 == views(items@));
            sizes_within(items, budget - 1)
        },
        Value::Expression(operation) => {
            assert(term@->Expression_0.args == views(operation.args@));
            sizes_within(&operation.args, budget - 1)
        },
        _ => Some(budget - 1),
    }
}

/// What is left of the budget after the nodes of the terms are taken from
/// it, or nothing if the terms have more nodes than the budget.
pub fn sizes_within(terms: &Vec<Term>, budget: usize) -> (r: Option<usize>)
    ensures
        match r {
            Some(left) => sizes(views(terms@), terms.len() as nat) + left == budget,
            None => sizes(views(terms@), terms.len() as nat) > budget,
        },
    decreases terms,
{
    let mut left = budget;
    let mut i: usize = 0;
    while i < terms.len()
        invariant
            i <= terms.len(),
            views(terms@).len() == terms.len(),
            sizes(views(terms@), i as nat) + left == budget,
        decreases terms.len() - i,
    {
        assert(views(terms@)[i as int] == terms[i as int]@);
        match size_within(&terms[i], left) {
            Some(rest) => {
                left = rest;
            },
            None => {
                proof {
                    lemma_sizes_grow(views(terms@), (i + 1) as nat, terms.len() as nat);
                }
                return None;
            },
        }
        i = i + 1;
    }
    Some(left)
}

/// Whether a conjunction could bind a variable when the term stands on one
/// side of a unification, now or after some passes.
pub fn is_exposed_term(this: &Symbol, oracle: &VariableStates, term: &Term) -> (b: bool)
    ensures
        b == is_exposed(Context { this: this@, states: oracle@ }, term@),
    decreases term,
{
    match &term.value {
        Value::Variable(name) => *name == *this || is_partial_variable(oracle, name),
        Value::RestVariable(name) => is_partial_variable(oracle, name),
        Value::Expression(operation) => {
            assert(term@->Expression_0.args == views(operation.args@));
            assert(operation@.args.len() == operation.args.len());
            if operation.operator == Operator::Not {
                if operation.args.len() == 1 {
                    assert(operation@.args[0] == operation.args[0]@);
                    is_exposed_term(this, oracle, &operation.args[0])
                } else {
                    false
                }
            } else if operation.operator == Operator::And || operation.operator
                == Operator::Or {
                is_exposed_among(this, oracle, &operation.args)
            } else {
                false
            }
        },
        _ => false,
    }
}

/// Whether the constraints on the variable are still pending.
pub fn is_partial_variable(oracle: &VariableStates, name: &Symbol) -> (b: bool)
    ensures
        b == is_partial(Context { this: Seq::empty(), states: oracle@ }, name@),
{
    match oracle.variable_state(name) {
        VariableState::Partial => true,
        _ => false,
    }
}

/// Whether one of the terms is exposed.
pub fn is_exposed_among(this: &Symbol, oracle: &VariableStates, terms: &Vec<Term>) -> (b: bool)
    ensures
        b == (exists|i: int|
            0 <= i < views(terms@).len() && is_exposed(
                Context { this: this@, states: oracle@ },
                #[trigger] views(terms@)[i],
            )),
    decreases terms,
{
    let mut i: usize = 0;
    while i < terms.len()
        invariant
            i <= terms.len(),
            views(terms@).len() == terms.len(),
            forall|j: int|
                0 <= j < i ==> !is_exposed(
                    Context { this: this@, states: oracle@ },
                    #[trigger] views(terms@)[j],
                ),
        decreases terms.len() - i,
    {
        assert(views(terms@)[i as int] == terms[i as int]@);
        if is_exposed_term(this, oracle, &terms[i]) {
            return true;
        }
        i = i + 1;
    }
    false
}

/// Whether each of the terms is an expression.
pub fn are_expressions(terms: &Vec<Term>) -> (b: bool)
    ensures
        b == (forall|i: int|
            0 <= i < views(terms@).len() ==> (#[trigger] views(terms@)[i]) is Expression),
{
    let mut i: usize = 0;
    while i < terms.len()
        invariant
            i <= terms.len(),
            views(terms@).len() == terms.len(),
            forall|j: int| 0 <= j < i ==> (#[trigger] views(terms@)[j]) is Expression,
        decreases terms.len() - i,
    {
        assert(views(terms@)[i as int] == terms[i as int]@);
        let expression = match &terms[i].value {
            Value::Expression(_) => true,
            _ => false,
        };
        if !expression {
            return false;
        }
        i = i + 1;
    }
    true
}

/// Whether the operation has the shape that its operator asks for.
pub fn is_well_shaped_operation(operation: &Operation) -> (b: bool)
    ensures
        b == is_well_shaped(operation@),
{
    let operator = operation.operator;
    assert(operation@.args.len() == operation.args.len());
    if operator == Operator::And || operator == Operator::Or {
        are_expressions(&operation.args)
    } else if operator.compares() || operator == Operator::Unify {
        operation.args.len() == 2
    } else if operator == Operator::Not {
        operation.args.len() == 1
    } else {
        true
    }
}

/// Whether the term is orderly: every operation in it is well shaped, and
/// no unification in it has an exposed side.
pub fn is_orderly_term(this: &Symbol, oracle: &VariableStates, term: &Term) -> (b: bool)
    ensures
        b == is_orderly(Context { this: this@, states: oracle@ }, term@),
    decreases term,
{
    match &term.value {
        Value::List(items) => {
            assert(term@->List_0 == views(items@));
            are_orderly_terms(this, oracle, items)
        },
        Value::Expression(operation) => {
            assert(term@->Expression_0.args == views(operation.args@));
            assert(operation@.args.len() == operation.args.len());
            if !is_well_shaped_operation(operation) {
                return false;
            }
            if operation.operator.unifies() {
                assert(operation@.args[0] == operation.args[0]@);
                assert(operation@.args[1] == operation.args[1]@);
                if is_exposed_term(this, oracle, &operation.args[0]) || is_exposed_term(
                    this,
                    oracle,
                    &operation.args[1],
                ) {
                    return false;
                }
            }
            are_orderly_terms(this, oracle, &operation.args)
        },
        _ => true,
    }
}

/// Whether each of the terms is orderly.
pub fn are_orderly_terms(this: &Symbol, oracle: &VariableStates, terms: &Vec<Term>) -> (b: bool)
    ensures
        b == are_orderly(Context { this: this@, states: oracle@ }, views(terms@)),
    decreases terms,
{
    let mut i: usize = 0;
    while i < terms.len()
        invariant
            i <= terms.len(),
            views(terms@).len() == terms.len(),
            forall|j: int|
                0 <= j < i ==> is_orderly(
                    Context { this: this@, states: oracle@ },
                    #[trigger] views(terms@)[j],
                ),
        decreases terms.len() - i,
    {
        assert(views(terms@)[i as int] == terms[i as int]@);
        if !is_orderly_term(this, oracle, &terms[i]) {
            return false;
        }
        i = i + 1;
    }
    true
}

/// The canonical form of the constraints `term` on the variable `var`, if
/// the term is orderly and twice its size is a number of the machine.
/// Such a term is always simplified: the rewriting comes to rest and meets
/// no malformed node.
pub fn simplify_orderly(var: &Symbol, term: Term, oracle: &VariableStates) -> (r: Option<Term>)
    ensures
        r is Some <==> is_orderly(Context { this: var@, states: oracle@ }, term@) && 2 * size(
            term@,
        ) <= usize::MAX,
        r matches Some(simplified_term) ==> Ok::<TermView, Failure>(simplified_term@)
            == simplified(var@, oracle@, term@, usize::MAX as nat),
{
    if !is_orderly_term(var, oracle, &term) {
        return None;
    }
    match size_within(&term, usize::MAX / 2) {
        Some(_) => {
            proof {
                lemma_orderly_is_simplified(var@, oracle@, term@, usize::MAX as nat);
            }
            Some(simplify_partial(var, term, oracle))
        },
        None => None,
    }
}

} // verus!
