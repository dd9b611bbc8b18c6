//! Looking at single terms and lists of terms: what the rules ask before
//! they rewrite.
use crate::rules::{
    all_constraints, deduplicated, inverted, is_constraint, is_falsity, is_negation,
    is_self_unification, prepared, variable_name, without_self_unifications, without_truth,
};
use crate::terms::{
    clone_terms, same_term, views, Operation, OperationView, Operator, Symbol, Term, TermView,
    Value,
};
use vstd::prelude::*;

verus! {

/// The name of a variable or rest variable.
pub fn variable_of(term: &Term) -> (r: Option<&Symbol>)
    ensures
        match r {
            Some(name) => variable_name(term@) == Some(name@),
            None => variable_name(term@) is None,
        },
{
    match &term.value {
        Value::Variable(name) => Some(name),
        Value::RestVariable(name) => Some(name),
        _ => None,
    }
}

/// The view of a list with one more term is the view of the list with the
/// view of that term.
pub proof fn lemma_views_push(terms: Seq<Term>, term: Term)
    ensures
        views(terms.push(term)) == views(terms).push(term@),
{
    assert(views(terms.push(term)) =~= views(terms).push(term@));
}

/// What `without_truth` keeps can stand under a conjunction if all of the
/// terms could.
pub proof fn lemma_without_truth_keeps_constraints(terms: Seq<TermView>)
    requires
        all_constraints(terms),
    ensures
        all_constraints(without_truth(terms)),
    decreases terms.len(),
{
    if terms.len() > 0 {
        assert forall|i: int| 0 <= i < terms.drop_last().len() implies is_constraint(
            #[trigger] terms.drop_last()[i],
        ) by {
            assert(terms.drop_last()[i] == terms[i]);
        }
        lemma_without_truth_keeps_constraints(terms.drop_last());
    }
}

/// What `deduplicated` keeps can stand under a conjunction if all of the
/// terms could.
pub proof fn lemma_deduplicated_keeps_constraints(terms: Seq<TermView>)
    requires
        all_constraints(terms),
    ensures
        all_constraints(deduplicated(terms)),
    decreases terms.len(),
{
    if terms.len() > 0 {
        assert forall|i: int| 0 <= i < terms.drop_last().len() implies is_constraint(
            #[trigger] terms.drop_last()[i],
        ) by {
            assert(terms.drop_last()[i] == terms[i]);
        }
        lemma_deduplicated_keeps_constraints(terms.drop_last());
    }
}

/// What `without_self_unifications` keeps can stand under a conjunction if
/// all of the terms could.
pub proof fn lemma_without_self_unifications_keeps_constraints(terms: Seq<TermView>)
    requires
        all_constraints(terms),
    ensures
        all_constraints(without_self_unifications(terms)),
    decreases terms.len(),
{
    if terms.len() > 0 {
        assert forall|i: int| 0 <= i < terms.drop_last().len() implies is_constraint(
            #[trigger] terms.drop_last()[i],
        ) by {
            assert(terms.drop_last()[i] == terms[i]);
        }
        lemma_without_self_unifications_keeps_constraints(terms.drop_last());
    }
}

/// What is left of a conjunction or disjunction of constraints is made of
/// constraints.
pub proof fn lemma_prepared_keeps_constraints(operation: OperationView)
    requires
        all_constraints(operation.args),
    ensures
        all_constraints(prepared(operation)),
{
    lemma_without_truth_keeps_constraints(operation.args);
    lemma_deduplicated_keeps_constraints(without_truth(operation.args));
    lemma_without_self_unifications_keeps_constraints(
        deduplicated(without_truth(operation.args)),
    );
    lemma_without_self_unifications_keeps_constraints(operation.args);
}

/// Whether the term can stand under a conjunction or disjunction.
pub fn is_constraint_term(term: &Term) -> (b: bool)
    ensures
        b == is_constraint(term@),
{
    match &term.value {
        Value::Expression(operation) => {
            assert(operation@.args.len() == operation.args.len());
            !operation.operator.unifies() || operation.args.len() == 2
        },
        _ => false,
    }
}

/// Whether each of the terms can stand under a conjunction or disjunction.
pub fn are_constraints(terms: &Vec<Term>) -> (b: bool)
    ensures
        b == all_constraints(views(terms@)),
{
    let mut i: usize = 0;
    while i < terms.len()
        invariant
            i <= terms.len(),
            forall|j: int| 0 <= j < i ==> is_constraint(#[trigger] views(terms@)[j]),
        decreases terms.len() - i,
    {
        if !is_constraint_term(&terms[i]) {
            assert(!is_constraint(views(terms@)[i as int]));
            return false;
        }
        i = i + 1;
    }
    true
}

/// Whether the term is the constant TRUE.
pub fn is_truth_term(term: &Term) -> (b: bool)
    ensures
        b == (term@ == TermView::truth()),
{
    match &term.value {
        Value::Expression(operation) => operation.is_truth(),
        _ => false,
    }
}

/// Whether the term unifies a term with itself.
pub fn is_self_unification_term(term: &Term) -> (b: bool)
    ensures
        b == is_self_unification(term@),
{
    match &term.value {
        Value::Expression(operation) => {
            assert(operation@.args.len() == operation.args.len());
            if operation.operator.unifies() && operation.args.len() == 2 {
                assert(operation@.args[0] == operation.args[0]@);
                assert(operation@.args[1] == operation.args[1]@);
                same_term(&operation.args[0], &operation.args[1])
            } else {
                false
            }
        },
        _ => false,
    }
}

/// Whether the term is among the terms.
pub fn contains_term(terms: &Vec<Term>, term: &Term) -> (b: bool)
    ensures
        b == views(terms@).contains(term@),
{
    let mut i: usize = 0;
    while i < terms.len()
        invariant
            i <= terms.len(),
            forall|j: int| 0 <= j < i ==> (#[trigger] views(terms@)[j]) != term@,
        decreases terms.len() - i,
    {
        if same_term(&terms[i], term) {
            assert(views(terms@)[i as int] == term@);
            return true;
        }
        i = i + 1;
    }
    false
}

/// The terms without those that are the constant TRUE.
pub fn drop_truth(terms: &Vec<Term>) -> (r: Vec<Term>)
    ensures
        views(r@) == without_truth(views(terms@)),
{
    let mut out: Vec<Term> = Vec::new();
    let mut i: usize = 0;
    assert(views(out@) =~= Seq::empty());
    while i < terms.len()
        invariant
            i <= terms.len(),
            views(out@) == without_truth(views(terms@).take(i as int)),
        decreases terms.len() - i,
    {
        let term = terms[i].clone();
        proof {
            let next = views(terms@).take(i + 1);
            assert(next.drop_last() =~= views(terms@).take(i as int));
            assert(next.last() == term@);
            lemma_views_push(out@, term);
        }
        if !is_truth_term(&term) {
            out.push(term);
        }
        i = i + 1;
    }
    assert(views(terms@).take(terms.len() as int) =~= views(terms@));
    out
}

/// The terms without those that occurred before.
pub fn drop_duplicates(terms: &Vec<Term>) -> (r: Vec<Term>)
    ensures
        views(r@) == deduplicated(views(terms@)),
{
    let mut out: Vec<Term> = Vec::new();
    let mut i: usize = 0;
    assert(views(out@) =~= Seq::empty());
    while i < terms.len()
        invariant
            i <= terms.len(),
            views(out@) == deduplicated(views(terms@).take(i as int)),
        decreases terms.len() - i,
    {
        let term = terms[i].clone();
        proof {
            let next = views(terms@).take(i + 1);
            assert(next.drop_last() =~= views(terms@).take(i as int));
            assert(next.last() == term@);
            lemma_views_push(out@, term);
        }
        if !contains_term(&out, &term) {
            out.push(term);
        }
        i = i + 1;
    }
    assert(views(terms@).take(terms.len() as int) =~= views(terms@));
    out
}

/// The terms without those that unify a term with itself.
pub fn drop_self_unifications(terms: &Vec<Term>) -> (r: Vec<Term>)
    ensures
        views(r@) == without_self_unifications(views(terms@)),
{
    let mut out: Vec<Term> = Vec::new();
    let mut i: usize = 0;
    assert(views(out@) =~= Seq::empty());
    while i < terms.len()
        invariant
            i <= terms.len(),
            views(out@) == without_self_unifications(views(terms@).take(i as int)),
        decreases terms.len() - i,
    {
        let term = terms[i].clone();
        proof {
            let next = views(terms@).take(i + 1);
            assert(next.drop_last() =~= views(terms@).take(i as int));
            assert(next.last() == term@);
            lemma_views_push(out@, term);
        }
        if !is_self_unification_term(&term) {
            out.push(term);
        }
        i = i + 1;
    }
    assert(views(terms@).take(terms.len() as int) =~= views(terms@));
    out
}

/// The arguments that are left of a conjunction or disjunction before its
/// rules are applied, and the arguments of any other operation.
pub fn prepare(operation: &Operation) -> (r: Vec<Term>)
    ensures
        views(r@) == prepared(operation@),
{
    if operation.operator == Operator::And {
        drop_self_unifications(&drop_duplicates(&drop_truth(&operation.args)))
    } else if operation.operator == Operator::Or {
        drop_self_unifications(&operation.args)
    } else {
        clone_terms(&operation.args)
    }
}

/// The operation that a term negates, if the term is a negation.
pub fn negated_by(term: &Term) -> (r: Option<&Operation>)
    ensures
        match r {
            Some(operation) => is_negation(term@) && term@ == TermView::Expression(operation@),
            None => !is_negation(term@),
        },
{
    match &term.value {
        Value::Expression(operation) => if operation.operator == Operator::Not {
            Some(operation)
        } else {
            None
        },
        _ => None,
    }
}

/// The inverse of an expression whose operator has one: the inverse
/// operator on the same arguments.
pub fn invert_operation(term: &Term) -> (r: Option<Operation>)
    ensures
        match r {
            Some(operation) => inverted(term@) == Some(operation@),
            None => inverted(term@) is None,
        },
{
    match &term.value {
        Value::Expression(operation) => match operation.operator.inverse() {
            Some(inverse) => Some(Operation::new(inverse, clone_terms(&operation.args))),
            None => None,
        },
        _ => None,
    }
}

/// Whether the term is the constant FALSE.
pub fn is_falsity_term(term: &Term) -> (b: bool)
    ensures
        b == is_falsity(term@),
{
    match &term.value {
        Value::Expression(operation) => operation.is_falsity(),
        _ => false,
    }
}

} // verus!
