//! To simplify what was simplified changes nothing.
use crate::bindings::has_key;
use crate::laws::{lemma_folded_args_stable, lemma_folded_term_stable, lemma_quiesced_stable};
use crate::oracle::VariableStateView;
use crate::rules::{
    all_constraints, as_conjunction, deduplicated, dereferenced, folded_args,
    folded_operation, folded_term, inverted, is_constraint, is_negation, is_self_unification,
    prepared, quiesced, rebuilt, simplified, without_self_unifications,
    without_trivial_constraint, without_truth, Context, Failure,
};
use crate::termination::{is_orderly, lemma_orderly_fixed, lemma_orderly_rest, size};
use crate::terms::{Operator, OperationView, TermView};
use vstd::prelude::*;

verus! {

/// The term at which a rewriting comes to rest is left as it is by one
/// more pass, and so by a rewriting of its own: the fixed point is fixed.
pub proof fn lemma_rest_is_fixed(context: Context, term: TermView, limit: nat)
    requires
        quiesced(context, Seq::empty(), term, limit) is Ok,
    ensures
        limit > 0,
        ({
            let rest = quiesced(context, Seq::empty(), term, limit)->Ok_0;
            &&& folded_term(context, Seq::empty(), rest.0, (limit - 1) as nat) == Ok::<
                _,
                Failure,
            >(rest)
            &&& quiesced(context, Seq::empty(), rest.0, limit) == Ok::<_, Failure>(rest)
        }),
    decreases limit,
{
    match folded_term(context, Seq::empty(), term, (limit - 1) as nat) {
        Ok((new, _)) => {
            if new != term {
                lemma_rest_is_fixed(context, new, (limit - 1) as nat);
                let rest = quiesced(context, Seq::empty(), new, (limit - 1) as nat)->Ok_0;
                lemma_folded_term_stable(
                    context,
                    Seq::empty(),
                    rest.0,
                    (limit - 2) as nat,
                    (limit - 1) as nat,
                );
            }
        },
        Err(_) => {},
    }
}

/// The conjunction of the term alone.
pub open spec fn conjunction_of(term: TermView) -> TermView {
    TermView::Expression(OperationView { operator: Operator::And, args: seq![term] })
}

/// Whether the term holds no conjunction and no disjunction.
pub open spec fn has_no_connective(term: TermView) -> bool
    decreases term,
{
    match term {
        TermView::List(items) => forall|i: int|
            0 <= i < items.len() ==> has_no_connective(#[trigger] items[i]),
        TermView::Expression(operation) => {
            &&& operation.operator != Operator::And
            &&& operation.operator != Operator::Or
            &&& forall|i: int|
                0 <= i < operation.args.len() ==> has_no_connective(#[trigger] operation.args[i])
        },
        _ => true,
    }
}

/// Whether each of the terms holds no conjunction and no disjunction.
pub open spec fn have_no_connective(terms: Seq<TermView>) -> bool {
    forall|i: int| 0 <= i < terms.len() ==> has_no_connective(#[trigger] terms[i])
}

/// A pass that starts without a substitution over a term without
/// connectives ends without a substitution, in a term without connectives:
/// only a conjunction binds a variable.
pub proof fn lemma_no_connective_term(context: Context, term: TermView, limit: nat)
    requires
        has_no_connective(term),
        folded_term(context, Seq::empty(), term, limit) is Ok,
    ensures
        folded_term(context, Seq::empty(), term, limit)->Ok_0.1 == Seq::<
            (Seq<char>, TermView),
        >::empty(),
        has_no_connective(folded_term(context, Seq::empty(), term, limit)->Ok_0.0),
    decreases limit, 0nat, 0nat,
{
    let empty = Seq::<(Seq<char>, TermView)>::empty();
    assert(dereferenced(empty, term) == term) by {
        assert(forall|name: Seq<char>| !has_key(empty, name));
    }
    match term {
        TermView::List(items) => {
            lemma_no_connective_args(context, items, items.len(), (limit - 1) as nat);
        },
        TermView::Expression(operation) => {
            lemma_no_connective_operation(context, operation, (limit - 1) as nat);
        },
        _ => {},
    }
}

/// A pass that starts without a substitution over arguments without
/// connectives ends without a substitution, in as many arguments without
/// connectives.
pub proof fn lemma_no_connective_args(
    context: Context,
    terms: Seq<TermView>,
    count: nat,
    limit: nat,
)
    requires
        have_no_connective(terms),
        count <= terms.len(),
        folded_args(context, Seq::empty(), terms, count, limit) is Ok,
    ensures
        folded_args(context, Seq::empty(), terms, count, limit)->Ok_0.1 == Seq::<
            (Seq<char>, TermView),
        >::empty(),
        folded_args(context, Seq::empty(), terms, count, limit)->Ok_0.0.len() == count,
        have_no_connective(folded_args(context, Seq::empty(), terms, count, limit)->Ok_0.0),
    decreases limit, 1nat, count,
{
    if count > 0 {
        lemma_no_connective_args(context, terms, (count - 1) as nat, limit);
        lemma_no_connective_term(context, terms[count - 1], limit);
    }
}

/// A rewriting to rest that starts without a substitution over a term
/// without connectives ends without a substitution, in a term without
/// connectives.
pub proof fn lemma_no_connective_rest(context: Context, term: TermView, limit: nat)
    requires
        has_no_connective(term),
        quiesced(context, Seq::empty(), term, limit) is Ok,
    ensures
        quiesced(context, Seq::empty(), term, limit)->Ok_0.1 == Seq::<
            (Seq<char>, TermView),
        >::empty(),
        has_no_connective(quiesced(context, Seq::empty(), term, limit)->Ok_0.0),
    decreases limit, 2nat, 0nat,
{
    lemma_no_connective_term(context, term, (limit - 1) as nat);
    let new = folded_term(context, Seq::empty(), term, (limit - 1) as nat)->Ok_0.0;
    if new != term {
        lemma_no_connective_rest(context, new, (limit - 1) as nat);
    }
}

/// A pass that starts without a substitution over an operation without
/// connectives ends without a substitution, in an operation without
/// connectives.
pub proof fn lemma_no_connective_operation(
    context: Context,
    operation: OperationView,
    limit: nat,
)
    requires
        has_no_connective(TermView::Expression(operation)),
        folded_operation(context, Seq::empty(), operation, limit) is Ok,
    ensures
        folded_operation(context, Seq::empty(), operation, limit)->Ok_0.1 == Seq::<
            (Seq<char>, TermView),
        >::empty(),
        has_no_connective(
            TermView::Expression(
                folded_operation(context, Seq::empty(), operation, limit)->Ok_0.0,
            ),
        ),
    decreases limit, 3nat, 0nat,
{
    let empty = Seq::<(Seq<char>, TermView)>::empty();
    let operator = operation.operator;
    let args = operation.args;
    assert(prepared(operation) == args);
    assert(have_no_connective(args));
    if operator.is_comparison() {
        if is_negation(args[0]) != is_negation(args[1]) {
            let negated = if is_negation(args[0]) {
                args[0]->Expression_0
            } else {
                args[1]->Expression_0
            };
            assert(has_no_connective(args[0]) && has_no_connective(args[1]));
            assert(has_no_connective(negated.args[0]));
        } else {
            lemma_no_connective_args(context, args, args.len(), limit);
        }
    } else if operator == Operator::Not {
        lemma_no_connective_rest(context, args[0], limit);
        let inner = quiesced(context, empty, args[0], limit)->Ok_0.0;
        match inverted(inner) {
            Some(inverse) => {
                assert(have_no_connective(inverse.args));
                lemma_no_connective_args(context, inverse.args, inverse.args.len(), limit);
            },
            None => {
                lemma_no_connective_args(context, args, args.len(), limit);
            },
        }
    } else {
        lemma_no_connective_args(context, args, args.len(), limit);
    }
}

/// Terms none of which unifies a term with itself are all kept.
pub proof fn lemma_nothing_to_drop(terms: Seq<TermView>)
    requires
        forall|i: int| 0 <= i < terms.len() ==> !is_self_unification(#[trigger] terms[i]),
    ensures
        without_self_unifications(terms) == terms,
    decreases terms.len(),
{
    if terms.len() > 0 {
        assert forall|i: int| 0 <= i < terms.drop_last().len() implies !is_self_unification(
            #[trigger] terms.drop_last()[i],
        ) by {
            assert(terms.drop_last()[i] == terms[i]);
        }
        lemma_nothing_to_drop(terms.drop_last());
        assert(terms.drop_last().push(terms.last()) =~= terms);
    }
}

/// Whether the term is an expression that a conjunction of it alone is
/// known to give way to in one pass, its arguments rewritten as in a pass
/// over the expression itself. That is: any expression but a conjunction
/// and the unification of a term with itself; of the disjunctions, those
/// that have not one argument and none that unifies a term with itself;
/// and of the negations, those of a term without connectives.
pub open spec fn is_plain_constraint(term: TermView) -> bool {
    let operation = term->Expression_0;
    &&& term is Expression
    &&& !is_self_unification(term)
    &&& operation.operator != Operator::And
    &&& operation.operator == Operator::Or ==> {
        &&& operation.args.len() != 1
        &&& forall|i: int|
            0 <= i < operation.args.len() ==> !is_self_unification(#[trigger] operation.args[i])
    }
    &&& operation.operator == Operator::Not ==> have_no_connective(operation.args)
}

/// The pass that leaves a plain constraint as it is rewrote its arguments
/// and did nothing else.
pub proof fn lemma_plain_fixed(context: Context, operation: OperationView, limit: nat)
    requires
        is_plain_constraint(TermView::Expression(operation)),
        folded_operation(context, Seq::empty(), operation, limit) is Ok,
        folded_operation(context, Seq::empty(), operation, limit)->Ok_0.0 == operation,
    ensures
        rebuilt(
            operation.operator,
            folded_args(context, Seq::empty(), operation.args, operation.args.len(), limit),
        ) == folded_operation(context, Seq::empty(), operation, limit),
{
    let operator = operation.operator;
    let args = operation.args;
    if operator == Operator::Or {
        lemma_nothing_to_drop(args);
        assert(prepared(operation) == args);
        if args.len() == 0 {
            assert(args =~= Seq::<TermView>::empty());
        }
    } else if operator == Operator::Not {
        lemma_no_connective_rest(context, args[0], limit);
    } else if operator.is_comparison() {
        assert(operator.inverse_spec()->Some_0 != operator);
    }
}

/// Of an expression that a pass leaves as it is by rewriting its
/// arguments, and that is no conjunction and does not unify a term with
/// itself, the conjunction of it alone comes to rest at the expression.
pub proof fn lemma_single_conjunct_rests(context: Context, term: TermView, limit: nat)
    requires
        term is Expression,
        term->Expression_0.operator != Operator::And,
        !is_self_unification(term),
        folded_term(context, Seq::empty(), term, limit) is Ok,
        folded_term(context, Seq::empty(), term, limit)->Ok_0.0 == term,
        limit > 0 ==> rebuilt(
            term->Expression_0.operator,
            folded_args(
                context,
                Seq::empty(),
                term->Expression_0.args,
                term->Expression_0.args.len(),
                (limit - 1) as nat,
            ),
        ) == folded_operation(context, Seq::empty(), term->Expression_0, (limit - 1) as nat),
    ensures
        quiesced(context, Seq::empty(), conjunction_of(term), limit + 2) == folded_term(
            context,
            Seq::empty(),
            term,
            limit,
        ),
{
    let empty = Seq::<(Seq<char>, TermView)>::empty();
    let operation = term->Expression_0;
    let operator = operation.operator;
    let args = operation.args;
    let whole = OperationView { operator: Operator::And, args: seq![term] };
    let after = folded_term(context, empty, term, limit)->Ok_0.1;
    assert(limit > 0);
    let inner = (limit - 1) as nat;
    assert(folded_operation(context, empty, operation, inner) == Ok::<_, Failure>(
        (operation, after),
    ));
    assert(is_constraint(term));
    lemma_folded_args_stable(context, empty, args, args.len(), inner, limit);
    // The conjunction is made of this one constraint, and nothing is dropped.
    assert(prepared(whole) =~= seq![term]) by {
        let one = seq![term];
        assert(one.drop_last() =~= Seq::<TermView>::empty());
        assert(one.last() == term);
        reveal_with_fuel(without_truth, 2);
        reveal_with_fuel(deduplicated, 2);
        reveal_with_fuel(without_self_unifications, 2);
        assert(without_truth(one) =~= one);
        assert(!Seq::<TermView>::empty().contains(term));
        assert(deduplicated(one) =~= one);
        assert(without_self_unifications(one) =~= one);
    }
    assert(all_constraints(whole.args));
    assert(folded_operation(context, empty, whole, limit) == Ok::<_, Failure>(
        (operation, after),
    ));
    assert(folded_term(context, empty, conjunction_of(term), limit + 1) == Ok::<_, Failure>(
        (term, after),
    ));
    assert(conjunction_of(term) != term);
    lemma_folded_term_stable(context, empty, term, limit, limit);
    assert(quiesced(context, empty, term, limit + 1) == Ok::<_, Failure>((term, after)));
}

/// One pass leaves the constant TRUE as it is.
pub proof fn lemma_truth_rests(context: Context, limit: nat)
    requires
        limit >= 2,
    ensures
        quiesced(context, Seq::empty(), TermView::truth(), limit) == Ok::<_, Failure>(
            (TermView::truth(), Seq::<(Seq<char>, TermView)>::empty()),
        ),
{
    let empty = Seq::<(Seq<char>, TermView)>::empty();
    let truth = OperationView::truth();
    assert(prepared(truth) =~= Seq::<TermView>::empty());
    assert(folded_operation(context, empty, truth, (limit - 2) as nat) == Ok::<
        _,
        Failure,
    >((truth, empty)));
    assert(folded_term(context, empty, TermView::truth(), (limit - 1) as nat) == Ok::<
        _,
        Failure,
    >((TermView::truth(), empty)));
}

/// A ground term is no trivial constraint: it holds no variable.
pub proof fn lemma_ground_is_not_trivial(this: Seq<char>, term: TermView)
    requires
        term.is_ground(),
    ensures
        without_trivial_constraint(this, term) == term,
{
    if term is Expression && term->Expression_0.args.len() == 2 {
        let operation = term->Expression_0;
        assert(operation.args[0].is_ground());
        assert(operation.args[1].is_ground());
    }
}

/// Whether the term is the conjunction of nothing but the unification of
/// a term with itself. Simplified again, it becomes the constant TRUE.
pub open spec fn unifies_alone(term: TermView) -> bool {
    &&& term is Expression
    &&& term->Expression_0.operator == Operator::And
    &&& term->Expression_0.args.len() == 1
    &&& is_self_unification(term->Expression_0.args[0])
}

/// The conjunction of nothing but the unification of a term with itself
/// is simplified to the constant TRUE, and so is not left as it is.
pub proof fn lemma_unification_alone_becomes_truth(
    this: Seq<char>,
    states: Map<Seq<char>, VariableStateView>,
    term: TermView,
    limit: nat,
)
    requires
        unifies_alone(term),
        limit >= 3,
    ensures
        simplified(this, states, term, limit) == Ok::<_, Failure>(TermView::truth()),
        term != TermView::truth(),
{
    let context = Context { this, states };
    let empty = Seq::<(Seq<char>, TermView)>::empty();
    let operation = term->Expression_0;
    let only = operation.args[0];
    assert(all_constraints(operation.args));
    assert(prepared(operation) =~= Seq::<TermView>::empty()) by {
        let one = operation.args;
        assert(one.drop_last() =~= Seq::<TermView>::empty());
        assert(one.last() == only);
        reveal_with_fuel(without_truth, 2);
        reveal_with_fuel(deduplicated, 2);
        reveal_with_fuel(without_self_unifications, 2);
        assert(without_truth(one) =~= one);
        assert(!Seq::<TermView>::empty().contains(only));
        assert(deduplicated(one) =~= one);
    }
    assert(folded_operation(context, empty, operation, (limit - 2) as nat) == Ok::<
        _,
        Failure,
    >((OperationView::truth(), empty)));
    assert(folded_term(context, empty, term, (limit - 1) as nat) == Ok::<_, Failure>(
        (TermView::truth(), empty),
    ));
    lemma_truth_rests(context, (limit - 1) as nat);
}

/// Whether a simplified term is known to be left as it is when it is
/// simplified again, whatever it was made from: every term but the
/// conjunction of a single expression that is no plain constraint.
pub open spec fn is_settled(term: TermView) -> bool {
    let only = term->Expression_0.args[0];
    (term is Expression && term->Expression_0.operator == Operator::And
        && term->Expression_0.args.len() == 1 && only is Expression
        && only->Expression_0.operator != Operator::And) ==> is_plain_constraint(only)
}

/// The pass that leaves an expression as it is rewrote its arguments and
/// did nothing else, if the expression is a plain constraint or orderly
/// and no conjunction.
proof fn lemma_fixed(context: Context, term: TermView, limit: nat)
    requires
        term is Expression,
        term->Expression_0.operator != Operator::And,
        is_plain_constraint(term) || is_orderly(context, term),
        folded_term(context, Seq::empty(), term, limit) is Ok,
        folded_term(context, Seq::empty(), term, limit)->Ok_0.0 == term,
    ensures
        limit > 0,
        rebuilt(
            term->Expression_0.operator,
            folded_args(
                context,
                Seq::empty(),
                term->Expression_0.args,
                term->Expression_0.args.len(),
                (limit - 1) as nat,
            ),
        ) == folded_operation(context, Seq::empty(), term->Expression_0, (limit - 1) as nat),
{
    if is_plain_constraint(term) {
        lemma_plain_fixed(context, term->Expression_0, (limit - 1) as nat);
    } else {
        lemma_orderly_fixed(context, term->Expression_0, (limit - 1) as nat);
    }
}

/// To simplify what was simplified changes nothing: under every limit
/// above that of the first simplification, the second gives the term
/// again. This holds where the simplified term is settled; and where the
/// term that was simplified is orderly, unless what came out is the
/// conjunction of the unification of a term with itself alone.
pub proof fn lemma_simplified_idempotent(
    this: Seq<char>,
    states: Map<Seq<char>, VariableStateView>,
    term: TermView,
    limit: nat,
    larger: nat,
)
    requires
        simplified(this, states, term, limit) is Ok,
        is_settled(simplified(this, states, term, limit)->Ok_0) || (is_orderly(
            Context { this, states },
            term,
        ) && !unifies_alone(simplified(this, states, term, limit)->Ok_0)),
        larger > limit,
    ensures
        simplified(this, states, simplified(this, states, term, limit)->Ok_0, larger)
            == simplified(this, states, term, limit),
{
    let context = Context { this, states };
    let empty = Seq::<(Seq<char>, TermView)>::empty();
    lemma_rest_is_fixed(context, term, limit);
    let rest = quiesced(context, empty, term, limit)->Ok_0;
    let r = rest.0;
    let t = without_trivial_constraint(this, r);
    let s = as_conjunction(t);
    assert(simplified(this, states, term, limit) == Ok::<_, Failure>(s));
    let orderly = is_orderly(context, term) && !is_settled(s);
    if orderly {
        // What an orderly term comes to rest at is orderly.
        let enough = 2 * size(term);
        let most = if limit >= enough {
            limit
        } else {
            enough
        };
        lemma_quiesced_stable(context, empty, term, limit, most);
        lemma_orderly_rest(context, term, most);
        assert(is_orderly(context, r));
    }
    if t == r {
        if s == r {
            lemma_quiesced_stable(context, empty, r, limit, larger);
        } else {
            assert(s == conjunction_of(r));
            assert(s->Expression_0.args[0] == r);
            lemma_fixed(context, r, (limit - 1) as nat);
            lemma_single_conjunct_rests(context, r, (limit - 1) as nat);
            lemma_quiesced_stable(context, empty, s, limit + 1, larger);
        }
    } else {
        let operation = r->Expression_0;
        let left = operation.args[0];
        let right = operation.args[1];
        let variable = TermView::Variable(this);
        if left == variable && right == variable {
            lemma_truth_rests(context, larger);
        } else {
            // The pass that left the unification as it is left its ground side
            // as it is.
            assert(limit >= 2);
            let inner = (limit - 2) as nat;
            assert(folded_operation(context, empty, operation, inner) == Ok::<_, Failure>(
                (operation, rest.1),
            ));
            assert(prepared(operation) == operation.args);
            assert(rebuilt(
                operation.operator,
                folded_args(context, empty, operation.args, 2, inner),
            ) == Ok::<_, Failure>((operation, rest.1))) by {
                if operation.operator.is_comparison() {
                    assert(operation.operator.inverse_spec()->Some_0 != operation.operator);
                }
            }
            reveal_with_fuel(folded_args, 3);
            let first = folded_term(context, empty, left, inner);
            assert(first is Ok);
            let second = folded_term(context, first->Ok_0.1, right, inner);
            assert(second is Ok);
            let folded = folded_args(context, empty, operation.args, 2, inner)->Ok_0.0;
            assert(folded == Seq::<TermView>::empty().push(first->Ok_0.0).push(second->Ok_0.0));
            assert(folded[0] == left && folded[1] == right);
            assert(folded_term(context, empty, t, inner) is Ok && folded_term(
                context,
                empty,
                t,
                inner,
            )->Ok_0.0 == t) by {
                if left == variable {
                    assert(!has_key(empty, this));
                    assert(first == Ok::<_, Failure>((variable, empty)));
                }
            }
            let ground = folded_term(context, empty, t, inner);
            lemma_ground_is_not_trivial(this, t);
            if s == t {
                assert(quiesced(context, empty, t, inner + 1) == ground);
                lemma_quiesced_stable(context, empty, t, inner + 1, larger);
            } else {
                assert(s == conjunction_of(t));
                assert(s->Expression_0.args[0] == t);
                if orderly {
                    assert(is_orderly(context, operation.args[0]));
                    assert(is_orderly(context, operation.args[1]));
                }
                lemma_fixed(context, t, inner);
                lemma_single_conjunct_rests(context, t, inner);
                lemma_quiesced_stable(context, empty, s, inner + 2, larger);
            }
        }
    }
}

} // verus!
