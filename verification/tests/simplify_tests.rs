use partial_simplify::bindings::Bindings;
use partial_simplify::oracle::{VariableState, VariableStates};
use partial_simplify::error::SimplifyError;
use partial_simplify::prepare::{invert_operation, prepare};
use partial_simplify::present::{
    assemble, present, present_bindings, simplify_bindings, simplify_bindings_within,
};
use partial_simplify::simplify::{
    into_conjunction, simplify_partial, simplify_partial_within, simplify_trivial_constraint,
    Simplifier,
};
use partial_simplify::terms::{Operation, Operator, Symbol, Term, Value};

fn sym(name: &str) -> Symbol {
    Symbol::new(name)
}

fn var(name: &str) -> Term {
    Term::new(Value::Variable(sym(name)))
}

fn rest(name: &str) -> Term {
    Term::new(Value::RestVariable(sym(name)))
}

fn num(n: i64) -> Term {
    Term::new(Value::Number(n))
}

fn list(items: Vec<Term>) -> Term {
    Term::new(Value::List(items))
}

fn op(operator: Operator, args: Vec<Term>) -> Term {
    Operation::new(operator, args).into_term()
}

fn and(args: Vec<Term>) -> Term {
    op(Operator::And, args)
}

fn truth() -> Term {
    Operation::truth().into_term()
}

fn falsity() -> Term {
    Operation::falsity().into_term()
}

fn partial(names: &[&str]) -> VariableStates {
    let mut oracle = VariableStates::new();
    for name in names {
        oracle.set(sym(name), VariableState::Partial);
    }
    oracle
}

fn size(term: &Term) -> usize {
    match term.value() {
        Value::List(items) => 1 + items.iter().map(size).sum::<usize>(),
        Value::Expression(operation) => 1 + operation.args.iter().map(size).sum::<usize>(),
        _ => 1,
    }
}

/// Runs passes until one changes nothing, and counts them. Fails if a pass
/// makes the term larger.
fn passes_to_rest(this: &str, term: Term, oracle: &VariableStates) -> (Term, usize) {
    let mut simplifier = Simplifier::new(sym(this), oracle);
    let mut current = term;
    let mut passes = 0;
    loop {
        let new = simplifier.fold_term(&current, 1000).unwrap();
        passes += 1;
        assert!(size(&new) <= size(&current));
        if new == current {
            return (new, passes);
        }
        current = new;
        simplifier.bindings.clear();
    }
}

#[test]
fn trivial_ground_reduction_yields_the_ground_term() {
    let oracle = VariableStates::new();
    let term = op(Operator::Eq, vec![var("this"), num(5)]);
    assert_eq!(simplify_partial(&sym("this"), term, &oracle), num(5));
    let term = op(Operator::Unify, vec![num(5), var("this")]);
    assert_eq!(simplify_partial(&sym("this"), term, &oracle), num(5));
}

#[test]
fn trivial_self_unification_yields_true() {
    let oracle = VariableStates::new();
    let term = op(Operator::Eq, vec![var("this"), var("this")]);
    assert_eq!(simplify_partial(&sym("this"), term, &oracle), truth());
}

#[test]
fn unification_with_a_term_that_is_not_ground_stays() {
    let oracle = VariableStates::new();
    let term = op(Operator::Eq, vec![var("this"), list(vec![var("y")])]);
    let expected = and(vec![op(Operator::Eq, vec![var("this"), list(vec![var("y")])])]);
    assert_eq!(simplify_partial(&sym("this"), term, &oracle), expected);
}

#[test]
fn self_unification_is_dropped_from_a_conjunction() {
    let oracle = VariableStates::new();
    let term = and(vec![
        op(Operator::Eq, vec![var("x"), var("x")]),
        op(Operator::Eq, vec![var("y"), num(5)]),
    ]);
    assert_eq!(simplify_partial(&sym("y"), term, &oracle), num(5));
}

#[test]
fn duplicates_and_true_are_pruned() {
    let oracle = VariableStates::new();
    let term = and(vec![
        truth(),
        op(Operator::Eq, vec![var("x"), num(1)]),
        op(Operator::Eq, vec![var("x"), num(1)]),
    ]);
    let expected = and(vec![op(Operator::Eq, vec![var("x"), num(1)])]);
    assert_eq!(simplify_partial(&sym("y"), term, &oracle), expected);
}

#[test]
fn prepare_keeps_the_first_of_equal_constraints() {
    let a = op(Operator::Gt, vec![var("x"), num(1)]);
    let b = op(Operator::Lt, vec![var("x"), num(9)]);
    let same = op(Operator::Neq, vec![var("x"), var("x")]);
    let conjunction = Operation::new(
        Operator::And,
        vec![truth(), a.clone(), same.clone(), b.clone(), a.clone(), truth()],
    );
    assert_eq!(prepare(&conjunction), vec![a.clone(), b.clone()]);
    let disjunction = Operation::new(
        Operator::Or,
        vec![truth(), a.clone(), same.clone(), a.clone()],
    );
    assert_eq!(prepare(&disjunction), vec![truth(), a.clone(), a.clone()]);
    let other = Operation::new(Operator::Dot, vec![same.clone(), same.clone()]);
    assert_eq!(prepare(&other), vec![same.clone(), same]);
}

#[test]
fn negated_comparison_is_inverted() {
    let oracle = VariableStates::new();
    let term = op(Operator::Not, vec![op(Operator::Gt, vec![var("this"), num(5)])]);
    let expected = and(vec![op(Operator::Leq, vec![var("this"), num(5)])]);
    assert_eq!(simplify_partial(&sym("this"), term, &oracle), expected);
}

#[test]
fn inversion_applied_twice_gives_the_comparison_again() {
    for operator in [
        Operator::Eq,
        Operator::Neq,
        Operator::Gt,
        Operator::Geq,
        Operator::Lt,
        Operator::Leq,
    ] {
        let inverse = operator.inverse().unwrap();
        assert_ne!(inverse, operator);
        assert_eq!(inverse.inverse(), Some(operator));
    }
    assert_eq!(Operator::Eq.inverse(), Some(Operator::Neq));
    assert_eq!(Operator::Gt.inverse(), Some(Operator::Leq));
    assert_eq!(Operator::Geq.inverse(), Some(Operator::Lt));
    assert_eq!(Operator::Unify.inverse(), Some(Operator::Neq));
    assert_eq!(Operator::And.inverse(), None);
    assert_eq!(Operator::Isa.inverse(), None);
}

#[test]
fn double_negation_of_a_comparison_gives_it_again() {
    let oracle = VariableStates::new();
    let inner = op(Operator::Gt, vec![var("x"), num(5)]);
    let term = op(Operator::Not, vec![op(Operator::Not, vec![inner.clone()])]);
    assert_eq!(simplify_partial(&sym("a"), term, &oracle), and(vec![inner]));
}

#[test]
fn invert_operation_keeps_the_arguments() {
    let term = op(Operator::Lt, vec![var("x"), num(2)]);
    let inverse = invert_operation(&term).unwrap();
    assert_eq!(inverse, Operation::new(Operator::Geq, vec![var("x"), num(2)]));
    assert_eq!(invert_operation(&op(Operator::Isa, vec![var("x"), num(2)])), None);
    assert_eq!(invert_operation(&num(2)), None);
}

#[test]
fn comparison_with_a_negated_side_is_inverted() {
    let oracle = VariableStates::new();
    let left = op(
        Operator::Lt,
        vec![op(Operator::Not, vec![var("x")]), num(3)],
    );
    assert_eq!(
        simplify_partial(&sym("a"), left, &oracle),
        and(vec![op(Operator::Geq, vec![var("x"), num(3)])])
    );
    let right = op(
        Operator::Eq,
        vec![num(3), op(Operator::Not, vec![var("x")])],
    );
    assert_eq!(
        simplify_partial(&sym("a"), right, &oracle),
        and(vec![op(Operator::Neq, vec![num(3), var("x")])])
    );
}

#[test]
fn comparison_of_two_negations_stays() {
    let oracle = VariableStates::new();
    let term = op(
        Operator::Eq,
        vec![op(Operator::Not, vec![var("x")]), op(Operator::Not, vec![var("y")])],
    );
    assert_eq!(simplify_partial(&sym("a"), term.clone(), &oracle), and(vec![term]));
}

#[test]
fn negation_without_an_inverse_stays() {
    let oracle = VariableStates::new();
    let term = op(Operator::Not, vec![op(Operator::Isa, vec![var("x"), num(1)])]);
    assert_eq!(simplify_partial(&sym("a"), term.clone(), &oracle), and(vec![term]));
    let term = op(Operator::Not, vec![num(1)]);
    assert_eq!(simplify_partial(&sym("a"), term.clone(), &oracle), and(vec![term]));
}

#[test]
fn constants_true_and_false_are_left_as_they_are() {
    let oracle = VariableStates::new();
    let mut simplifier = Simplifier::new(sym("a"), &oracle);
    assert_eq!(simplifier.simplify_partial(truth()), truth());
    assert_eq!(simplifier.simplify_partial(falsity()), falsity());
    assert_eq!(simplify_partial(&sym("a"), truth(), &oracle), truth());
    assert_eq!(simplify_partial(&sym("a"), falsity(), &oracle), and(vec![falsity()]));
}

#[test]
fn single_argument_connectives_give_way_to_their_argument() {
    let oracle = VariableStates::new();
    let inner = op(Operator::Gt, vec![var("x"), num(1)]);
    let mut simplifier = Simplifier::new(sym("a"), &oracle);
    assert_eq!(simplifier.simplify_partial(and(vec![inner.clone()])), inner);
    assert_eq!(simplifier.simplify_partial(op(Operator::Or, vec![inner.clone()])), inner);
    let pruned = op(
        Operator::Or,
        vec![op(Operator::Eq, vec![var("x"), var("x")]), inner.clone()],
    );
    assert_eq!(simplifier.simplify_partial(pruned), inner);
}

#[test]
fn disjunction_of_several_constraints_stays() {
    let oracle = VariableStates::new();
    let term = op(
        Operator::Or,
        vec![
            op(Operator::Gt, vec![var("x"), num(1)]),
            op(Operator::Lt, vec![var("x"), num(0)]),
        ],
    );
    assert_eq!(simplify_partial(&sym("a"), term.clone(), &oracle), and(vec![term]));
}

#[test]
fn constraint_on_this_variable_is_absorbed() {
    let oracle = VariableStates::new();
    let term = and(vec![
        op(Operator::Eq, vec![var("this"), num(5)]),
        op(Operator::Gt, vec![var("this"), num(3)]),
    ]);
    let expected = and(vec![op(Operator::Gt, vec![num(5), num(3)])]);
    assert_eq!(simplify_partial(&sym("this"), term, &oracle), expected);
    let term = and(vec![
        op(Operator::Gt, vec![var("this"), num(3)]),
        op(Operator::Unify, vec![num(5), var("this")]),
    ]);
    let expected = and(vec![op(Operator::Gt, vec![num(5), num(3)])]);
    assert_eq!(simplify_partial(&sym("this"), term, &oracle), expected);
}

#[test]
fn negated_constraint_on_this_variable_is_absorbed_as_a_negation() {
    let oracle = VariableStates::new();
    let term = and(vec![
        op(Operator::Neq, vec![var("this"), num(5)]),
        op(Operator::Gt, vec![var("this"), num(3)]),
    ]);
    let expected = and(vec![op(Operator::Leq, vec![num(5), num(3)])]);
    assert_eq!(simplify_partial(&sym("this"), term, &oracle), expected);
}

#[test]
fn only_the_first_constraint_is_absorbed_in_a_pass() {
    let oracle = VariableStates::new();
    let term = and(vec![
        op(Operator::Eq, vec![var("this"), num(5)]),
        op(Operator::Eq, vec![var("this"), num(6)]),
        op(Operator::Gt, vec![var("this"), num(3)]),
    ]);
    let mut simplifier = Simplifier::new(sym("this"), &oracle);
    let once = simplifier.fold_term(&term, 100).unwrap();
    let expected = and(vec![
        op(Operator::Eq, vec![num(5), num(6)]),
        op(Operator::Gt, vec![num(5), num(3)]),
    ]);
    assert_eq!(once, expected);
    assert_eq!(simplifier.bindings.len(), 1);
    assert_eq!(simplifier.bindings.get(&sym("this")), Some(&num(5)));
}

#[test]
fn partial_variable_is_bound_to_a_term() {
    let oracle = partial(&["x"]);
    let term = and(vec![
        op(Operator::Eq, vec![var("x"), num(1)]),
        op(Operator::Gt, vec![var("x"), var("y")]),
    ]);
    let expected = and(vec![op(Operator::Gt, vec![num(1), var("y")])]);
    assert_eq!(simplify_partial(&sym("a"), term, &oracle), expected);
    let term = and(vec![
        op(Operator::Eq, vec![num(1), rest("x")]),
        op(Operator::Gt, vec![rest("x"), var("y")]),
    ]);
    let expected = and(vec![op(Operator::Gt, vec![num(1), var("y")])]);
    assert_eq!(simplify_partial(&sym("a"), term, &oracle), expected);
}

#[test]
fn variable_in_another_state_keeps_its_constraint() {
    let term = and(vec![
        op(Operator::Eq, vec![var("x"), num(1)]),
        op(Operator::Gt, vec![var("x"), var("y")]),
    ]);
    let mut oracle = VariableStates::new();
    assert_eq!(simplify_partial(&sym("a"), term.clone(), &oracle), term);
    oracle.set(sym("x"), VariableState::Cycle);
    assert_eq!(simplify_partial(&sym("a"), term.clone(), &oracle), term);
    oracle.set(sym("x"), VariableState::Bound(num(1)));
    assert_eq!(simplify_partial(&sym("a"), term.clone(), &oracle), term);
    oracle.set(sym("x"), VariableState::Partial);
    assert_ne!(simplify_partial(&sym("a"), term.clone(), &oracle), term);
}

#[test]
fn two_partial_variables_are_bound_to_each_other() {
    let oracle = partial(&["x", "y"]);
    let term = and(vec![
        op(Operator::Eq, vec![var("x"), var("y")]),
        op(Operator::Lt, vec![var("x"), num(3)]),
        op(Operator::Lt, vec![var("y"), num(4)]),
    ]);
    let expected = and(vec![
        op(Operator::Lt, vec![var("y"), num(3)]),
        op(Operator::Lt, vec![var("y"), num(4)]),
    ]);
    assert_eq!(simplify_partial(&sym("a"), term.clone(), &oracle), expected);
    let one = partial(&["x"]);
    assert_eq!(simplify_partial(&sym("a"), term.clone(), &one), term);
}

#[test]
fn simplification_is_idempotent() {
    let oracle = partial(&["x"]);
    let terms = vec![
        op(Operator::Eq, vec![var("this"), num(5)]),
        op(Operator::Not, vec![op(Operator::Gt, vec![var("this"), num(5)])]),
        and(vec![
            truth(),
            op(Operator::Eq, vec![var("x"), num(1)]),
            op(Operator::Gt, vec![var("x"), var("y")]),
            op(Operator::Gt, vec![var("x"), var("y")]),
        ]),
        and(vec![
            op(Operator::Neq, vec![var("this"), num(5)]),
            op(Operator::Gt, vec![var("this"), num(3)]),
        ]),
        op(Operator::Or, vec![op(Operator::Gt, vec![var("x"), num(1)])]),
        num(7),
        list(vec![var("x"), num(1)]),
    ];
    for term in terms {
        let once = simplify_partial(&sym("this"), term, &oracle);
        let twice = simplify_partial(&sym("this"), once.clone(), &oracle);
        assert_eq!(twice, once);
    }
}

#[test]
fn unification_of_a_term_with_itself_is_not_idempotent() {
    let oracle = VariableStates::new();
    let term = op(Operator::Unify, vec![num(1), num(1)]);
    let once = simplify_partial(&sym("this"), term.clone(), &oracle);
    assert_eq!(once, and(vec![term]));
    assert_eq!(simplify_partial(&sym("this"), once, &oracle), truth());
}

#[test]
fn the_term_at_rest_is_fixed() {
    let oracle = partial(&["x"]);
    let term = and(vec![
        op(Operator::Eq, vec![var("x"), num(1)]),
        op(Operator::Not, vec![op(Operator::Gt, vec![var("x"), var("y")])]),
        and(vec![op(Operator::Lt, vec![var("y"), num(2)])]),
    ]);
    let mut simplifier = Simplifier::new(sym("this"), &oracle);
    let rest = simplifier.simplify_partial(term);
    let mut again = Simplifier::new(sym("this"), &oracle);
    assert_eq!(again.fold_term(&rest, 100), Ok(rest.clone()));
    assert_eq!(again.simplify_partial(rest.clone()), rest);
}

fn nested(depth: usize, width: usize) -> Term {
    if depth == 0 {
        return op(Operator::Gt, vec![var("x"), num(1)]);
    }
    let mut args = Vec::new();
    for i in 0..width {
        let inner = nested(depth - 1, width);
        args.push(match i % 3 {
            0 => and(vec![inner]),
            1 => op(Operator::Not, vec![inner]),
            _ => op(Operator::Or, vec![truth(), inner]),
        });
    }
    and(args)
}

#[test]
fn rewriting_rests_within_twice_the_depth() {
    let oracle = VariableStates::new();
    for depth in 0..5 {
        for width in 1..4 {
            let term = nested(depth, width);
            let (_, passes) = passes_to_rest("this", term, &oracle);
            assert!(passes <= 2 * (depth + 1));
        }
    }
}

#[test]
fn a_larger_limit_gives_the_same_result() {
    let oracle = partial(&["x"]);
    let term = and(vec![
        op(Operator::Eq, vec![var("x"), num(1)]),
        op(Operator::Not, vec![op(Operator::Gt, vec![var("x"), var("y")])]),
    ]);
    let small = simplify_partial_within(&sym("a"), term.clone(), &oracle, 10);
    assert_eq!(small, Ok(and(vec![op(Operator::Leq, vec![num(1), var("y")])])));
    for limit in [11, 50, usize::MAX] {
        assert_eq!(simplify_partial_within(&sym("a"), term.clone(), &oracle, limit), small);
    }
}

#[test]
fn limit_is_exceeded_below_the_steps_that_are_needed() {
    let oracle = VariableStates::new();
    let term = op(Operator::Eq, vec![var("this"), num(5)]);
    for limit in 0..3 {
        assert_eq!(
            simplify_partial_within(&sym("this"), term.clone(), &oracle, limit),
            Err(SimplifyError::LimitExceeded)
        );
    }
    assert_eq!(simplify_partial_within(&sym("this"), term, &oracle, 3), Ok(num(5)));
    assert_eq!(
        simplify_partial_within(&sym("this"), num(1), &oracle, 0),
        Err(SimplifyError::LimitExceeded)
    );
    assert_eq!(simplify_partial_within(&sym("this"), num(1), &oracle, 2), Ok(num(1)));
}

#[test]
fn substitution_that_holds_its_own_variable_exceeds_every_limit() {
    let oracle = partial(&["x"]);
    let term = and(vec![
        op(Operator::Eq, vec![var("x"), list(vec![var("x")])]),
        op(Operator::Gt, vec![var("x"), num(1)]),
    ]);
    for limit in [5, 50, 500] {
        assert_eq!(
            simplify_partial_within(&sym("a"), term.clone(), &oracle, limit),
            Err(SimplifyError::LimitExceeded)
        );
    }
}

#[test]
fn malformed_nodes_are_reported() {
    let oracle = VariableStates::new();
    let whole = vec![
        and(vec![num(1)]),
        and(vec![op(Operator::Gt, vec![var("x"), num(1)]), var("x")]),
        op(Operator::Or, vec![num(1), num(2)]),
        and(vec![op(Operator::Eq, vec![var("x"), num(1), num(2)])]),
        and(vec![op(Operator::Neq, vec![var("x")])]),
        op(Operator::Gt, vec![var("x")]),
        op(Operator::Leq, vec![var("x"), num(1), num(2)]),
        op(Operator::Not, vec![]),
        op(Operator::Not, vec![var("x"), var("y")]),
        op(Operator::Unify, vec![var("x")]),
    ];
    for term in whole {
        assert_eq!(
            simplify_partial_within(&sym("a"), term.clone(), &oracle, 100),
            Err(SimplifyError::Malformed(term))
        );
    }
    let empty = op(Operator::Not, vec![]);
    let double = op(Operator::Not, vec![num(1), num(2)]);
    let inside = vec![
        (op(Operator::Lt, vec![empty.clone(), num(1)]), empty.clone()),
        (op(Operator::Lt, vec![num(1), double.clone()]), double.clone()),
        (list(vec![num(1), empty.clone()]), empty.clone()),
        (
            op(Operator::Dot, vec![op(Operator::Gt, vec![var("x")]), num(1)]),
            op(Operator::Gt, vec![var("x")]),
        ),
        (and(vec![and(vec![op(Operator::Isa, vec![double.clone()])])]), double.clone()),
    ];
    for (term, node) in inside {
        assert_eq!(
            simplify_partial_within(&sym("a"), term, &oracle, 100),
            Err(SimplifyError::Malformed(node))
        );
    }
}

#[test]
fn other_operations_have_their_arguments_rewritten() {
    let oracle = VariableStates::new();
    let term = op(
        Operator::Dot,
        vec![and(vec![op(Operator::Gt, vec![var("x"), num(1)])]), num(2)],
    );
    let expected = and(vec![op(
        Operator::Dot,
        vec![op(Operator::Gt, vec![var("x"), num(1)]), num(2)],
    )]);
    assert_eq!(simplify_partial(&sym("a"), term, &oracle), expected);
    let term = list(vec![and(vec![op(Operator::Gt, vec![var("x"), num(1)])])]);
    let expected = list(vec![op(Operator::Gt, vec![var("x"), num(1)])]);
    assert_eq!(simplify_partial(&sym("a"), term, &oracle), expected);
}

#[test]
fn bind_and_deref_follow_the_substitution() {
    let oracle = VariableStates::new();
    let mut simplifier = Simplifier::new(sym("this"), &oracle);
    assert!(!simplifier.is_bound(&sym("x")));
    assert_eq!(simplifier.deref(&var("x")), var("x"));
    simplifier.bind(sym("x"), num(1), false);
    assert!(simplifier.is_bound(&sym("x")));
    assert_eq!(simplifier.deref(&var("x")), num(1));
    assert_eq!(simplifier.deref(&rest("x")), num(1));
    assert_eq!(simplifier.deref(&list(vec![var("x")])), list(vec![var("x")]));
    simplifier.bind(sym("y"), var("x"), true);
    assert_eq!(simplifier.deref(&var("y")), op(Operator::Not, vec![num(1)]));
    simplifier.bind(sym("x"), num(2), false);
    assert_eq!(simplifier.deref(&var("x")), num(2));
    assert_eq!(simplifier.deref(&var("y")), op(Operator::Not, vec![num(1)]));
    assert!(simplifier.is_this_var(&var("this")));
    assert!(!simplifier.is_this_var(&rest("this")));
    assert!(!simplifier.is_this_var(&var("x")));
}

#[test]
fn substitution_is_emptied_between_passes() {
    let oracle = VariableStates::new();
    let mut simplifier = Simplifier::new(sym("this"), &oracle);
    let term = and(vec![
        op(Operator::Eq, vec![var("this"), num(5)]),
        op(Operator::Gt, vec![var("this"), num(3)]),
    ]);
    let rest = simplifier.simplify_partial(term);
    assert_eq!(rest, op(Operator::Gt, vec![num(5), num(3)]));
    assert!(simplifier.bindings.is_empty());
}

#[test]
fn trivial_constraint_is_reduced() {
    let this = sym("this");
    let term = op(Operator::Unify, vec![var("this"), var("this")]);
    assert_eq!(simplify_trivial_constraint(this.clone(), term), truth());
    let term = op(Operator::Unify, vec![var("this"), num(1)]);
    assert_eq!(simplify_trivial_constraint(this.clone(), term), num(1));
    let term = op(Operator::Eq, vec![list(vec![num(1)]), var("this")]);
    assert_eq!(simplify_trivial_constraint(this.clone(), term), list(vec![num(1)]));
    let kept = vec![
        op(Operator::Unify, vec![var("this"), var("y")]),
        op(Operator::Unify, vec![var("x"), num(1)]),
        op(Operator::Neq, vec![var("this"), num(1)]),
        op(Operator::Unify, vec![rest("this"), num(1)]),
        op(Operator::Unify, vec![var("this"), num(1), num(2)]),
        num(3),
    ];
    for term in kept {
        assert_eq!(simplify_trivial_constraint(this.clone(), term.clone()), term);
    }
}

#[test]
fn expression_becomes_a_conjunction() {
    let term = op(Operator::Gt, vec![var("x"), num(1)]);
    assert_eq!(into_conjunction(term.clone()), and(vec![term.clone()]));
    assert_eq!(into_conjunction(and(vec![term.clone()])), and(vec![term]));
    assert_eq!(into_conjunction(truth()), truth());
    assert_eq!(into_conjunction(falsity()), and(vec![falsity()]));
    assert_eq!(into_conjunction(num(1)), num(1));
}

#[test]
fn temporary_bindings_are_filtered() {
    let oracle = VariableStates::new();
    let mut bindings = Bindings::new();
    bindings.insert(sym("_a"), num(1));
    bindings.insert(sym("_b"), var("x"));
    bindings.insert(sym("_this"), and(vec![]));
    let simplified = simplify_bindings(bindings, &oracle).unwrap();
    assert!(simplified.is_empty());
    let simplified = simplify_bindings(Bindings::new(), &oracle).unwrap();
    assert!(simplified.is_empty());
}

#[test]
fn bindings_are_simplified_and_written_for_the_placeholder() {
    let oracle = VariableStates::new();
    let mut bindings = Bindings::new();
    bindings.insert(sym("n"), num(1));
    bindings.insert(
        sym("x"),
        and(vec![truth(), op(Operator::Gt, vec![var("x"), num(1)])]),
    );
    bindings.insert(sym("_t"), and(vec![op(Operator::Lt, vec![var("y"), var("x")])]));
    bindings.insert(sym("y"), var("_t"));
    bindings.insert(sym("z"), var("x"));
    bindings.insert(sym("w"), and(vec![op(Operator::Eq, vec![var("w"), num(4)])]));
    let simplified = simplify_bindings(bindings, &oracle).unwrap();
    assert_eq!(simplified.len(), 5);
    assert_eq!(simplified.key_at(0), &sym("n"));
    assert_eq!(simplified.value_at(0), &num(1));
    assert_eq!(simplified.key_at(1), &sym("x"));
    assert_eq!(
        simplified.value_at(1),
        &and(vec![op(Operator::Gt, vec![var("_this"), num(1)])])
    );
    assert_eq!(simplified.key_at(2), &sym("y"));
    assert_eq!(
        simplified.value_at(2),
        &and(vec![op(Operator::Lt, vec![var("_this"), var("x")])])
    );
    assert_eq!(simplified.key_at(3), &sym("z"));
    assert_eq!(simplified.value_at(3), &var("x"));
    assert_eq!(simplified.key_at(4), &sym("w"));
    assert_eq!(simplified.value_at(4), &num(4));
}

#[test]
fn malformed_bindings_are_reported() {
    let oracle = VariableStates::new();
    let mut bindings = Bindings::new();
    let value = op(Operator::Gt, vec![var("x"), num(1)]);
    bindings.insert(sym("x"), value.clone());
    assert_eq!(
        simplify_bindings_within(bindings, &oracle, 100).err(),
        Some(SimplifyError::Malformed(value))
    );
    let mut bindings = Bindings::new();
    bindings.insert(sym("x"), var("_missing"));
    assert_eq!(
        simplify_bindings_within(bindings, &oracle, 100).err(),
        Some(SimplifyError::Malformed(var("_missing")))
    );
    let mut bindings = Bindings::new();
    bindings.insert(sym("n"), num(1));
    bindings.insert(sym("x"), and(vec![op(Operator::Gt, vec![var("x")])]));
    assert_eq!(
        simplify_bindings_within(bindings, &oracle, 100).err(),
        Some(SimplifyError::Malformed(op(Operator::Gt, vec![var("x")])))
    );
    let mut bindings = Bindings::new();
    bindings.insert(sym("x"), and(vec![op(Operator::Gt, vec![var("x"), num(1)])]));
    assert_eq!(
        simplify_bindings_within(bindings, &oracle, 1).err(),
        Some(SimplifyError::LimitExceeded)
    );
    let mut bindings = Bindings::new();
    bindings.insert(sym("_x"), op(Operator::Gt, vec![var("x")]));
    assert!(simplify_bindings_within(bindings, &oracle, 0).unwrap().unwrap().is_empty());
}

#[test]
fn present_simplifies_one_binding() {
    let oracle = VariableStates::new();
    let mut bindings = Bindings::new();
    bindings.insert(sym("x"), and(vec![op(Operator::Gt, vec![var("x"), num(1)])]));
    bindings.insert(sym("_t"), num(3));
    bindings.insert(sym("y"), var("_t"));
    assert_eq!(
        present(&bindings, &oracle, 0, 100),
        Ok(and(vec![op(Operator::Gt, vec![var("_this"), num(1)])]))
    );
    assert_eq!(present(&bindings, &oracle, 2, 100), Ok(num(3)));
    let presented = present_bindings(&bindings, &oracle, 100).unwrap();
    assert_eq!(presented.len(), 2);
    assert_eq!(presented[0].0, sym("x"));
    assert_eq!(presented[1], (sym("y"), num(3)));
}

#[test]
fn false_among_the_presented_values_gives_nothing() {
    let presented = vec![(sym("x"), num(1)), (sym("y"), falsity()), (sym("z"), num(2))];
    assert!(assemble(presented).is_none());
    let presented = vec![(sym("y"), falsity())];
    assert!(assemble(presented).is_none());
}

#[test]
fn presented_values_without_false_give_bindings() {
    let presented = vec![
        (sym("x"), num(1)),
        (sym("y"), and(vec![falsity()])),
        (sym("z"), truth()),
        (sym("x"), num(2)),
    ];
    let bindings = assemble(presented).unwrap();
    assert_eq!(bindings.len(), 3);
    assert_eq!(bindings.key_at(0), &sym("x"));
    assert_eq!(bindings.value_at(0), &num(2));
    assert_eq!(bindings.value_at(1), &and(vec![falsity()]));
    assert_eq!(bindings.value_at(2), &truth());
    assert!(assemble(Vec::new()).unwrap().is_empty());
}
