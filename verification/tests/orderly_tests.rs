use partial_simplify::oracle::{VariableState, VariableStates};
use partial_simplify::orderly::{
    are_expressions, are_orderly_terms, is_exposed_among, is_exposed_term, is_orderly_term,
    is_partial_variable, is_well_shaped_operation, simplify_orderly, size_within, sizes_within,
};
use partial_simplify::simplify::{simplify_partial, simplify_partial_within, Simplifier};
use partial_simplify::terms::{Operation, Operator, Symbol, Term, Value};

fn sym(name: &str) -> Symbol {
    Symbol::new(name)
}

fn var(name: &str) -> Term {
    Term::new(Value::Variable(sym(name)))
}

fn rest(name: &str) -> Term {
    Term::new(Value::RestVariable(sym(name)))
}

fn num(n: i64) -> Term {
    Term::new(Value::Number(n))
}

fn list(items: Vec<Term>) -> Term {
    Term::new(Value::List(items))
}

fn op(operator: Operator, args: Vec<Term>) -> Term {
    Operation::new(operator, args).into_term()
}

fn and(args: Vec<Term>) -> Term {
    op(Operator::And, args)
}

fn not(term: Term) -> Term {
    op(Operator::Not, vec![term])
}

fn oracle() -> VariableStates {
    let mut oracle = VariableStates::new();
    oracle.set(sym("p"), VariableState::Partial);
    oracle.set(sym("b"), VariableState::Bound(num(1)));
    oracle
}

fn size(term: &Term) -> usize {
    match term.value() {
        Value::List(items) => 1 + items.iter().map(size).sum::<usize>(),
        Value::Expression(operation) => 1 + operation.args.iter().map(size).sum::<usize>(),
        _ => 1,
    }
}

#[test]
fn size_counts_the_nodes() {
    assert_eq!(size_within(&num(1), 1), Some(0));
    assert_eq!(size_within(&num(1), 0), None);
    assert_eq!(size_within(&var("x"), 10), Some(9));
    let term = and(vec![
        op(Operator::Gt, vec![var("x"), num(1)]),
        not(op(Operator::In, vec![var("x"), list(vec![num(1), num(2)])])),
    ]);
    assert_eq!(size_within(&term, 100), Some(90));
    assert_eq!(size_within(&term, 10), Some(0));
    assert_eq!(size_within(&term, 9), None);
    assert_eq!(size_within(&list(vec![]), 1), Some(0));
    assert_eq!(sizes_within(&vec![num(1), term.clone()], 11), Some(0));
    assert_eq!(sizes_within(&vec![num(1), term], 10), None);
    assert_eq!(sizes_within(&vec![], 0), Some(0));
}

#[test]
fn exposed_terms_are_those_a_conjunction_could_bind() {
    let oracle = oracle();
    let this = sym("this");
    assert!(is_exposed_term(&this, &oracle, &var("this")));
    assert!(is_exposed_term(&this, &oracle, &var("p")));
    assert!(is_exposed_term(&this, &oracle, &rest("p")));
    assert!(!is_exposed_term(&this, &oracle, &rest("this")));
    assert!(!is_exposed_term(&this, &oracle, &var("b")));
    assert!(!is_exposed_term(&this, &oracle, &var("x")));
    assert!(!is_exposed_term(&this, &oracle, &num(1)));
    assert!(is_exposed_term(&this, &oracle, &not(not(var("this")))));
    assert!(!is_exposed_term(&this, &oracle, &op(Operator::Not, vec![var("this"), var("p")])));
    assert!(is_exposed_term(&this, &oracle, &and(vec![num(1), not(var("p"))])));
    assert!(is_exposed_term(&this, &oracle, &op(Operator::Or, vec![var("this")])));
    assert!(!is_exposed_term(&this, &oracle, &and(vec![var("x")])));
    assert!(!is_exposed_term(&this, &oracle, &list(vec![var("this")])));
    assert!(!is_exposed_term(&this, &oracle, &op(Operator::Dot, vec![var("this"), num(1)])));
    assert!(is_exposed_among(&this, &oracle, &vec![num(1), var("p")]));
    assert!(!is_exposed_among(&this, &oracle, &vec![num(1), var("x")]));
    assert!(is_partial_variable(&oracle, &sym("p")));
    assert!(!is_partial_variable(&oracle, &sym("b")));
    assert!(!is_partial_variable(&oracle, &sym("x")));
}

#[test]
fn shapes_are_checked() {
    let gt = op(Operator::Gt, vec![var("x"), num(1)]);
    assert!(is_well_shaped_operation(&Operation::new(Operator::And, vec![])));
    assert!(is_well_shaped_operation(&Operation::new(Operator::And, vec![gt.clone()])));
    assert!(!is_well_shaped_operation(&Operation::new(Operator::Or, vec![gt.clone(), num(1)])));
    assert!(is_well_shaped_operation(&Operation::new(Operator::Leq, vec![num(1), num(2)])));
    assert!(!is_well_shaped_operation(&Operation::new(Operator::Leq, vec![num(1)])));
    assert!(!is_well_shaped_operation(&Operation::new(Operator::Unify, vec![])));
    assert!(is_well_shaped_operation(&Operation::new(Operator::Not, vec![num(1)])));
    assert!(!is_well_shaped_operation(&Operation::new(Operator::Not, vec![num(1), num(2)])));
    assert!(is_well_shaped_operation(&Operation::new(Operator::Dot, vec![num(1)])));
    assert!(are_expressions(&vec![gt.clone(), gt.clone()]));
    assert!(!are_expressions(&vec![gt, var("x")]));
    assert!(are_expressions(&vec![]));
}

#[test]
fn orderly_terms_are_recognised() {
    let oracle = oracle();
    let this = sym("this");
    let orderly = vec![
        num(1),
        var("this"),
        and(vec![
            op(Operator::Gt, vec![var("this"), num(1)]),
            op(Operator::Lt, vec![var("p"), var("this")]),
        ]),
        not(and(vec![op(Operator::Geq, vec![var("this"), num(1)])])),
        op(Operator::Eq, vec![var("x"), num(1)]),
        op(Operator::Neq, vec![op(Operator::Dot, vec![var("this"), num(1)]), num(2)]),
        list(vec![var("p"), op(Operator::Unify, vec![num(1), num(1)])]),
    ];
    for term in &orderly {
        assert!(is_orderly_term(&this, &oracle, term));
    }
    assert!(are_orderly_terms(&this, &oracle, &orderly));
    let disorderly = vec![
        op(Operator::Eq, vec![var("this"), num(1)]),
        op(Operator::Unify, vec![num(1), var("p")]),
        op(Operator::Neq, vec![not(var("this")), num(1)]),
        op(Operator::Eq, vec![and(vec![not(var("p"))]), num(1)]),
        and(vec![num(1)]),
        op(Operator::Gt, vec![num(1)]),
        op(Operator::Not, vec![]),
        list(vec![num(1), op(Operator::Unify, vec![num(1)])]),
        op(Operator::Dot, vec![op(Operator::Eq, vec![rest("p"), num(1)])]),
    ];
    for term in &disorderly {
        assert!(!is_orderly_term(&this, &oracle, term));
    }
    assert!(!are_orderly_terms(&this, &oracle, &disorderly));
    assert!(is_orderly_term(&sym("other"), &VariableStates::new(), &disorderly[0]));
}

#[test]
fn orderly_terms_are_simplified() {
    let oracle = oracle();
    let this = sym("this");
    let term = and(vec![
        Operation::truth().into_term(),
        not(op(Operator::Gt, vec![var("this"), num(1)])),
        and(vec![op(Operator::Lt, vec![not(var("p")), var("this")])]),
        not(op(Operator::Gt, vec![var("this"), num(1)])),
    ]);
    let expected = and(vec![
        op(Operator::Leq, vec![var("this"), num(1)]),
        op(Operator::Geq, vec![var("p"), var("this")]),
    ]);
    assert_eq!(simplify_orderly(&this, term.clone(), &oracle), Some(expected.clone()));
    assert_eq!(simplify_partial(&this, term.clone(), &oracle), expected);
    let limit = 2 * size(&term);
    assert_eq!(simplify_partial_within(&this, term, &oracle, limit), Ok(expected));
    let disorderly = op(Operator::Eq, vec![var("this"), num(1)]);
    assert_eq!(simplify_orderly(&this, disorderly, &oracle), None);
    assert_eq!(simplify_orderly(&this, and(vec![num(1)]), &oracle), None);
}

#[test]
fn a_pass_over_an_orderly_term_binds_nothing_and_does_not_grow_it() {
    let oracle = oracle();
    let term = and(vec![
        not(and(vec![
            op(Operator::Gt, vec![var("this"), num(1)]),
            op(Operator::Or, vec![op(Operator::Neq, vec![not(var("x")), num(2)])]),
        ])),
        op(Operator::Isa, vec![var("p"), num(3)]),
    ]);
    let mut simplifier = Simplifier::new(sym("this"), &oracle);
    let mut current = term;
    loop {
        assert!(is_orderly_term(&sym("this"), &oracle, &current));
        let new = simplifier.fold_term(&current, 2 * size(&current)).unwrap();
        assert!(simplifier.bindings.is_empty());
        assert!(size(&new) <= size(&current));
        if new == current {
            break;
        }
        assert!(size(&new) < size(&current));
        current = new;
    }
    let expected = and(vec![
        not(and(vec![
            op(Operator::Gt, vec![var("this"), num(1)]),
            op(Operator::Eq, vec![var("x"), num(2)]),
        ])),
        op(Operator::Isa, vec![var("p"), num(3)]),
    ]);
    assert_eq!(current, expected);
}

#[test]
fn simplified_orderly_terms_are_left_as_they_are() {
    let oracle = oracle();
    let this = sym("this");
    let terms = vec![
        not(and(vec![
            op(Operator::Gt, vec![var("this"), num(1)]),
            op(Operator::Lt, vec![var("this"), num(5)]),
        ])),
        op(
            Operator::Or,
            vec![
                op(Operator::Gt, vec![var("this"), num(1)]),
                not(op(Operator::Isa, vec![var("this"), num(5)])),
            ],
        ),
        not(op(Operator::Or, vec![op(Operator::Isa, vec![var("this"), num(5)])])),
    ];
    for term in terms {
        let once = simplify_orderly(&this, term, &oracle).unwrap();
        assert!(is_orderly_term(&this, &oracle, &once));
        assert_eq!(simplify_orderly(&this, once.clone(), &oracle), Some(once));
    }
}
