use partial_simplify::bindings::Bindings;
use partial_simplify::oracle::{VariableState, VariableStates};
use partial_simplify::rename::{
    rename_variable, restore_this, sub_this, VariableSubber,
};
use partial_simplify::terms::{
    clone_terms, same_operation, same_term, same_terms, same_value, Operation, Operator, Symbol,
    Term, Value,
};

fn sym(name: &str) -> Symbol {
    Symbol::new(name)
}

fn var(name: &str) -> Term {
    Term::new(Value::Variable(sym(name)))
}

fn rest(name: &str) -> Term {
    Term::new(Value::RestVariable(sym(name)))
}

fn num(n: i64) -> Term {
    Term::new(Value::Number(n))
}

fn text(s: &str) -> Term {
    Term::new(Value::String(s.to_string()))
}

fn list(items: Vec<Term>) -> Term {
    Term::new(Value::List(items))
}

fn op(operator: Operator, args: Vec<Term>) -> Term {
    Operation::new(operator, args).into_term()
}

#[test]
fn symbols_are_compared_by_name() {
    assert_eq!(sym("x"), sym("x"));
    assert_ne!(sym("x"), sym("y"));
    assert_eq!(sym("x").clone(), sym("x"));
    assert_eq!(Symbol::this(), sym("_this"));
}

#[test]
fn temporary_variables_start_with_an_underscore() {
    assert!(sym("_value_1").is_temporary_var());
    assert!(sym("_").is_temporary_var());
    assert!(Symbol::this().is_temporary_var());
    assert!(!sym("x").is_temporary_var());
    assert!(!sym("x_").is_temporary_var());
    assert!(!sym("").is_temporary_var());
}

#[test]
fn terms_are_compared_part_by_part() {
    let a = op(Operator::Eq, vec![var("x"), num(1)]);
    let b = op(Operator::Eq, vec![var("x"), num(1)]);
    let swapped = op(Operator::Eq, vec![num(1), var("x")]);
    assert_eq!(a, b);
    assert!(same_term(&a, &b));
    assert_ne!(a, swapped);
    assert_ne!(a, op(Operator::Unify, vec![var("x"), num(1)]));
    assert_ne!(a, op(Operator::Eq, vec![var("x"), num(1), num(1)]));
    assert_ne!(var("x"), rest("x"));
    assert_ne!(num(1), text("1"));
    assert_eq!(text("a"), text("a"));
    assert_ne!(list(vec![num(1), num(2)]), list(vec![num(2), num(1)]));
    assert_eq!(list(vec![]), list(vec![]));
    assert_ne!(Term::new(Value::Boolean(true)), Term::new(Value::Boolean(false)));
    assert_eq!(
        Term::new(Value::ExternalInstance(3)),
        Term::new(Value::ExternalInstance(3))
    );
    assert_ne!(
        Term::new(Value::ExternalInstance(3)),
        Term::new(Value::ExternalInstance(4))
    );
    assert!(same_value(a.value(), b.value()));
    assert!(same_terms(&vec![a.clone()], &vec![b.clone()]));
    assert!(!same_terms(&vec![a.clone()], &vec![]));
    assert!(same_operation(
        &Operation::new(Operator::Or, vec![a.clone()]),
        &Operation::new(Operator::Or, vec![b.clone()])
    ));
    assert_eq!(a.clone(), a);
    assert_eq!(clone_terms(&vec![a.clone(), swapped.clone()]), vec![a, swapped]);
}

#[test]
fn ground_terms_hold_no_variable() {
    assert!(num(1).is_ground());
    assert!(text("a").is_ground());
    assert!(Term::new(Value::Boolean(true)).is_ground());
    assert!(Term::new(Value::ExternalInstance(1)).is_ground());
    assert!(list(vec![]).is_ground());
    assert!(list(vec![num(1), list(vec![text("a")])]).is_ground());
    assert!(op(Operator::Gt, vec![num(1), num(2)]).is_ground());
    assert!(Operation::truth().into_term().is_ground());
    assert!(!var("x").is_ground());
    assert!(!rest("x").is_ground());
    assert!(!list(vec![num(1), list(vec![var("x")])]).is_ground());
    assert!(!op(Operator::Gt, vec![num(1), op(Operator::Add, vec![rest("x"), num(1)])])
        .is_ground());
}

#[test]
fn true_and_false_are_the_empty_connectives() {
    assert_eq!(Operation::truth(), Operation::new(Operator::And, vec![]));
    assert_eq!(Operation::falsity(), Operation::new(Operator::Or, vec![]));
    assert!(Operation::truth().is_truth());
    assert!(!Operation::truth().is_falsity());
    assert!(Operation::falsity().is_falsity());
    assert!(!Operation::falsity().is_truth());
    assert!(!Operation::new(Operator::And, vec![num(1)]).is_truth());
    assert!(!Operation::new(Operator::Not, vec![]).is_truth());
}

#[test]
fn operators_are_classified() {
    assert!(Operator::Unify.unifies());
    assert!(Operator::Eq.unifies());
    assert!(Operator::Neq.unifies());
    assert!(!Operator::Gt.unifies());
    assert!(!Operator::Unify.compares());
    for operator in [
        Operator::Eq,
        Operator::Neq,
        Operator::Gt,
        Operator::Geq,
        Operator::Lt,
        Operator::Leq,
    ] {
        assert!(operator.compares());
    }
    assert!(!Operator::And.compares());
    assert!(!Operator::Dot.compares());
}

#[test]
fn bindings_keep_the_order_of_first_insertion() {
    let mut bindings = Bindings::new();
    assert!(bindings.is_empty());
    assert_eq!(bindings.get(&sym("x")), None);
    bindings.insert(sym("x"), num(1));
    bindings.insert(sym("y"), num(2));
    bindings.insert(sym("x"), num(3));
    assert_eq!(bindings.len(), 2);
    assert!(bindings.contains_key(&sym("x")));
    assert!(!bindings.contains_key(&sym("z")));
    assert_eq!(bindings.key_at(0), &sym("x"));
    assert_eq!(bindings.value_at(0), &num(3));
    assert_eq!(bindings.key_at(1), &sym("y"));
    assert_eq!(bindings.get(&sym("y")), Some(&num(2)));
    bindings.clear();
    assert!(bindings.is_empty());
    assert!(!bindings.contains_key(&sym("x")));
}

#[test]
fn variables_are_unbound_until_their_state_is_recorded() {
    let mut oracle = VariableStates::new();
    assert!(matches!(oracle.variable_state(&sym("x")), VariableState::Unbound));
    oracle.set(sym("x"), VariableState::Partial);
    oracle.set(sym("y"), VariableState::Bound(num(1)));
    assert!(matches!(oracle.variable_state(&sym("x")), VariableState::Partial));
    assert!(matches!(
        oracle.variable_state(&sym("y")),
        VariableState::Bound(ref t) if *t == num(1)
    ));
    assert!(matches!(oracle.variable_state(&sym("z")), VariableState::Unbound));
    oracle.set(sym("x"), VariableState::Cycle);
    assert!(matches!(oracle.variable_state(&sym("x")), VariableState::Cycle));
    assert!(matches!(oracle.variable_state(&sym("y")), VariableState::Bound(_)));
    assert!(matches!(VariableState::Partial.clone(), VariableState::Partial));
}

#[test]
fn sub_this_writes_the_placeholder_for_the_variable() {
    let term = op(
        Operator::And,
        vec![
            op(Operator::Gt, vec![var("x"), var("y")]),
            op(Operator::In, vec![rest("x"), list(vec![var("x"), num(1)])]),
        ],
    );
    let expected = op(
        Operator::And,
        vec![
            op(Operator::Gt, vec![var("_this"), var("y")]),
            op(Operator::In, vec![rest("x"), list(vec![var("_this"), num(1)])]),
        ],
    );
    assert_eq!(sub_this(sym("x"), term), expected);
    assert_eq!(sub_this(sym("x"), var("x")), var("_this"));
    assert_eq!(sub_this(sym("x"), var("_this")), var("_this"));
    assert_eq!(sub_this(sym("x"), var("y")), var("y"));
    assert_eq!(sub_this(sym("x"), num(1)), num(1));
}

#[test]
fn placeholder_round_trip_gives_the_term_again() {
    let terms = vec![
        op(
            Operator::And,
            vec![
                op(Operator::Gt, vec![var("x"), var("y")]),
                op(Operator::In, vec![rest("x"), list(vec![var("x"), num(1)])]),
            ],
        ),
        var("x"),
        var("y"),
        list(vec![var("x"), var("x")]),
        text("x"),
    ];
    for term in terms {
        let there = sub_this(sym("x"), term.clone());
        assert_eq!(restore_this(sym("x"), there), term);
    }
    let mentions = op(Operator::Gt, vec![var("x"), var("_this")]);
    let there = sub_this(sym("x"), mentions.clone());
    assert_ne!(restore_this(sym("x"), there), mentions);
}

#[test]
fn variable_subber_renames_one_variable() {
    let subber = VariableSubber::new(sym("x"));
    assert_eq!(subber.fold_variable(sym("x")), sym("_this"));
    assert_eq!(subber.fold_variable(sym("y")), sym("y"));
    assert_eq!(
        subber.fold_term(&list(vec![var("x"), var("y")])),
        list(vec![var("_this"), var("y")])
    );
    assert_eq!(
        rename_variable(&list(vec![var("x"), var("y")]), &sym("y"), &sym("z")),
        list(vec![var("x"), var("z")])
    );
}
