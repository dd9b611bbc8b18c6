//! What holds of the rewriting rules whatever the term.
use crate::bindings::{distinct_keys, has_key};
use crate::oracle::VariableStateView;
use crate::rules::{
    absorbed, all_constraints, assembled, bound_in_order, deduplicated, dereferenced,
    first_absorbed, folded_args, folded_operation, folded_term, inverted, is_falsity,
    is_negation, is_self_unification, prepared, presented_prefix, quiesced, simplified,
    simplified_bindings, without_self_unifications, without_truth, Context, Failure,
};
use crate::terms::{is_temporary_name, Operator, OperationView, TermView};
use vstd::prelude::*;

verus! {

/// Whether the rewriting had steps enough: it ended in a term or at a
/// malformed node.
pub open spec fn within_limit<T>(result: Result<T, Failure>) -> bool {
    !(result matches Err(Failure::LimitExceeded))
}

/// A pass over a term that had steps enough ends in the same way under
/// every larger limit.
pub proof fn lemma_folded_term_stable(
    context: Context,
    bindings: Seq<(Seq<char>, TermView)>,
    term: TermView,
    limit: nat,
    larger: nat,
)
    requires
        limit <= larger,
        within_limit(folded_term(context, bindings, term, limit)),
    ensures
        folded_term(context, bindings, term, larger) == folded_term(
            context,
            bindings,
            term,
            limit,
        ),
    decreases limit, 0nat, 0nat,
{
    match dereferenced(bindings, term) {
        TermView::List(items) => {
            lemma_folded_args_stable(
                context,
                bindings,
                items,
                items.len(),
                (limit - 1) as nat,
                (larger - 1) as nat,
            );
        },
        TermView::Expression(operation) => {
            lemma_folded_operation_stable(
                context,
                bindings,
                operation,
                (limit - 1) as nat,
                (larger - 1) as nat,
            );
        },
        _ => {},
    }
}

/// A pass over arguments that had steps enough ends in the same way under
/// every larger limit.
pub proof fn lemma_folded_args_stable(
    context: Context,
    bindings: Seq<(Seq<char>, TermView)>,
    terms: Seq<TermView>,
    count: nat,
    limit: nat,
    larger: nat,
)
    requires
        limit <= larger,
        within_limit(folded_args(context, bindings, terms, count, limit)),
    ensures
        folded_args(context, bindings, terms, count, larger) == folded_args(
            context,
            bindings,
            terms,
            count,
            limit,
        ),
    decreases limit, 1nat, count,
{
    if count == 0 || count > terms.len() {
    } else {
        lemma_folded_args_stable(context, bindings, terms, (count - 1) as nat, limit, larger);
        match folded_args(context, bindings, terms, (count - 1) as nat, limit) {
            Ok((_, after)) => {
                lemma_folded_term_stable(context, after, terms[count - 1], limit, larger);
            },
            Err(_) => {},
        }
    }
}

/// A rewriting to rest that had steps enough ends in the same way under
/// every larger limit.
pub proof fn lemma_quiesced_stable(
    context: Context,
    bindings: Seq<(Seq<char>, TermView)>,
    term: TermView,
    limit: nat,
    larger: nat,
)
    requires
        limit <= larger,
        within_limit(quiesced(context, bindings, term, limit)),
    ensures
        quiesced(context, bindings, term, larger) == quiesced(context, bindings, term, limit),
    decreases limit, 2nat, 0nat,
{
    lemma_folded_term_stable(context, bindings, term, (limit - 1) as nat, (larger - 1) as nat);
    match folded_term(context, bindings, term, (limit - 1) as nat) {
        Ok((new, _)) => {
            if new != term {
                lemma_quiesced_stable(
                    context,
                    Seq::empty(),
                    new,
                    (limit - 1) as nat,
                    (larger - 1) as nat,
                );
            }
        },
        Err(_) => {},
    }
}

/// A pass over an operation that had steps enough ends in the same way
/// under every larger limit.
pub proof fn lemma_folded_operation_stable(
    context: Context,
    bindings: Seq<(Seq<char>, TermView)>,
    operation: OperationView,
    limit: nat,
    larger: nat,
)
    requires
        limit <= larger,
        within_limit(folded_operation(context, bindings, operation, limit)),
    ensures
        folded_operation(context, bindings, operation, larger) == folded_operation(
            context,
            bindings,
            operation,
            limit,
        ),
    decreases limit, 3nat, 0nat,
{
    let operator = operation.operator;
    let args = prepared(operation);
    if operator == Operator::And || operator == Operator::Or {
        if !all_constraints(operation.args) {
        } else if args.len() == 0 {
        } else if args.len() == 1 {
            let only = args[0]->Expression_0;
            lemma_folded_args_stable(
                context,
                bindings,
                only.args,
                only.args.len(),
                limit,
                larger,
            );
        } else if operator == Operator::And {
            let chosen = first_absorbed(context, bindings, args, 0);
            if chosen < args.len() {
                let rest = args.remove(chosen);
                lemma_folded_args_stable(
                    context,
                    absorbed(context, bindings, args[chosen])->Some_0,
                    rest,
                    rest.len(),
                    limit,
                    larger,
                );
            } else {
                lemma_folded_args_stable(context, bindings, args, args.len(), limit, larger);
            }
        } else {
            lemma_folded_args_stable(context, bindings, args, args.len(), limit, larger);
        }
    } else if operator.is_comparison() {
        if args.len() == 2 && is_negation(args[0]) == is_negation(args[1]) {
            lemma_folded_args_stable(context, bindings, args, args.len(), limit, larger);
        }
    } else if operator == Operator::Not {
        if args.len() == 1 {
            lemma_quiesced_stable(context, bindings, args[0], limit, larger);
            match quiesced(context, bindings, args[0], limit) {
                Ok((inner, after)) => match inverted(inner) {
                    Some(inverse) => {
                        lemma_folded_args_stable(
                            context,
                            after,
                            inverse.args,
                            inverse.args.len(),
                            limit,
                            larger,
                        );
                    },
                    None => {
                        lemma_folded_args_stable(
                            context,
                            after,
                            args,
                            args.len(),
                            limit,
                            larger,
                        );
                    },
                },
                Err(_) => {},
            }
        }
    } else if operator == Operator::Unify && args.len() != 2 {
    } else {
        lemma_folded_args_stable(context, bindings, args, args.len(), limit, larger);
    }
}

/// A simplification that had steps enough ends in the same way under every
/// larger limit: the limit decides only whether it ends.
pub proof fn lemma_simplified_stable(
    this: Seq<char>,
    states: Map<Seq<char>, VariableStateView>,
    term: TermView,
    limit: nat,
    larger: nat,
)
    requires
        limit <= larger,
        within_limit(simplified(this, states, term, limit)),
    ensures
        simplified(this, states, term, larger) == simplified(this, states, term, limit),
{
    lemma_quiesced_stable(Context { this, states }, Seq::empty(), term, limit, larger);
}

/// The inverse of the inverse of a comparison is the comparison.
pub proof fn lemma_inverse_is_involution(operator: Operator)
    requires
        operator.is_comparison(),
    ensures
        operator.inverse_spec() is Some,
        operator.inverse_spec()->Some_0.is_comparison(),
        operator.inverse_spec()->Some_0.inverse_spec() == Some(operator),
{
}

/// A simplified term that is an expression is a conjunction.
pub proof fn lemma_simplified_is_conjunction(
    this: Seq<char>,
    states: Map<Seq<char>, VariableStateView>,
    term: TermView,
    limit: nat,
)
    requires
        simplified(this, states, term, limit) is Ok,
    ensures
        simplified(this, states, term, limit)->Ok_0 matches TermView::Expression(operation)
            ==> operation.operator == Operator::And,
{
}

/// Presented values of which one is the constant FALSE make no bindings:
/// they cannot be satisfied.
pub proof fn lemma_falsity_gives_nothing(presented: Seq<(Seq<char>, TermView)>, place: int)
    requires
        0 <= place < presented.len(),
        is_falsity(presented[place].1),
    ensures
        assembled(presented) is None,
{
}

/// Presented values none of which is the constant FALSE make bindings.
pub proof fn lemma_bindings_without_falsity(presented: Seq<(Seq<char>, TermView)>)
    requires
        forall|i: int| 0 <= i < presented.len() ==> !is_falsity((#[trigger] presented[i]).1),
    ensures
        assembled(presented) is Some,
{
}

/// Of bindings of temporary variables alone, any number of the first come
/// out as no bindings.
pub proof fn lemma_temporaries_leave_nothing(
    entries: Seq<(Seq<char>, TermView)>,
    states: Map<Seq<char>, VariableStateView>,
    count: nat,
    limit: nat,
)
    requires
        forall|i: int| 0 <= i < entries.len() ==> is_temporary_name((#[trigger] entries[i]).0),
    ensures
        presented_prefix(entries, states, count, limit) == Ok::<_, Failure>(
            Seq::<(Seq<char>, TermView)>::empty(),
        ),
    decreases count,
{
    if count > 0 && count <= entries.len() {
        lemma_temporaries_leave_nothing(entries, states, (count - 1) as nat, limit);
    }
}

/// Bindings of temporary variables alone come out as no bindings, which
/// can be satisfied.
pub proof fn lemma_temporaries_are_filtered(
    entries: Seq<(Seq<char>, TermView)>,
    states: Map<Seq<char>, VariableStateView>,
    limit: nat,
)
    requires
        forall|i: int| 0 <= i < entries.len() ==> is_temporary_name((#[trigger] entries[i]).0),
    ensures
        simplified_bindings(entries, states, limit) == Ok::<_, Failure>(
            Some(Seq::<(Seq<char>, TermView)>::empty()),
        ),
{
    lemma_temporaries_leave_nothing(entries, states, entries.len(), limit);
}

/// What `without_truth` keeps: the terms that are not the constant TRUE,
/// and no other.
pub proof fn lemma_without_truth_keeps(terms: Seq<TermView>)
    ensures
        forall|x: TermView|
            #![trigger without_truth(terms).contains(x)]
            without_truth(terms).contains(x) <==> terms.contains(x) && x != TermView::truth(),
        terms.no_duplicates() ==> without_truth(terms).no_duplicates(),
    decreases terms.len(),
{
    let kept = without_truth(terms);
    if terms.len() > 0 {
        let front = terms.drop_last();
        let last = terms.last();
        lemma_without_truth_keeps(front);
        assert forall|x: TermView|
            #![trigger kept.contains(x)]
            kept.contains(x) <==> terms.contains(x) && x != TermView::truth() by {
            if kept.contains(x) {
                let i = choose|i: int| 0 <= i < kept.len() && kept[i] == x;
                if last != TermView::truth() && i == kept.len() - 1 {
                    assert(terms[terms.len() - 1] == x);
                } else {
                    assert(without_truth(front)[i] == x);
                    assert(without_truth(front).contains(x));
                    assert(front.contains(x));
                    let j = choose|j: int| 0 <= j < front.len() && front[j] == x;
                    assert(terms[j] == x);
                }
            }
            if terms.contains(x) && x != TermView::truth() {
                let j = choose|j: int| 0 <= j < terms.len() && terms[j] == x;
                if j == terms.len() - 1 {
                    assert(kept[kept.len() - 1] == x);
                } else {
                    assert(front[j] == x);
                    assert(without_truth(front).contains(x));
                    let i = choose|i: int|
                        0 <= i < without_truth(front).len() && without_truth(front)[i] == x;
                    assert(kept[i] == x);
                }
            }
        }
        if terms.no_duplicates() {
            assert(front.no_duplicates());
            if last != TermView::truth() {
                assert(!front.contains(last)) by {
                    if front.contains(last) {
                        let j = choose|j: int| 0 <= j < front.len() && front[j] == last;
                        assert(terms[j] == terms[terms.len() - 1]);
                    }
                }
                assert(!without_truth(front).contains(last));
            }
        }
    }
}

/// What `without_self_unifications` keeps: the terms that do not unify a
/// term with itself, and no other.
pub proof fn lemma_without_self_unifications_keeps(terms: Seq<TermView>)
    ensures
        forall|x: TermView|
            #![trigger without_self_unifications(terms).contains(x)]
            without_self_unifications(terms).contains(x) <==> terms.contains(x)
                && !is_self_unification(x),
        terms.no_duplicates() ==> without_self_unifications(terms).no_duplicates(),
    decreases terms.len(),
{
    let kept = without_self_unifications(terms);
    if terms.len() > 0 {
        let front = terms.drop_last();
        let last = terms.last();
        lemma_without_self_unifications_keeps(front);
        assert forall|x: TermView|
            #![trigger kept.contains(x)]
            kept.contains(x) <==> terms.contains(x) && !is_self_unification(x) by {
            if kept.contains(x) {
                let i = choose|i: int| 0 <= i < kept.len() && kept[i] == x;
                if !is_self_unification(last) && i == kept.len() - 1 {
                    assert(terms[terms.len() - 1] == x);
                } else {
                    assert(without_self_unifications(front)[i] == x);
                    assert(without_self_unifications(front).contains(x));
                    assert(front.contains(x));
                    let j = choose|j: int| 0 <= j < front.len() && front[j] == x;
                    assert(terms[j] == x);
                }
            }
            if terms.contains(x) && !is_self_unification(x) {
                let j = choose|j: int| 0 <= j < terms.len() && terms[j] == x;
                if j == terms.len() - 1 {
                    assert(kept[kept.len() - 1] == x);
                } else {
                    assert(front[j] == x);
                    assert(without_self_unifications(front).contains(x));
                    let i = choose|i: int|
                        0 <= i < without_self_unifications(front).len()
                            && without_self_unifications(front)[i] == x;
                    assert(kept[i] == x);
                }
            }
        }
        if terms.no_duplicates() {
            assert(front.no_duplicates());
            if !is_self_unification(last) {
                assert(!front.contains(last)) by {
                    if front.contains(last) {
                        let j = choose|j: int| 0 <= j < front.len() && front[j] == last;
                        assert(terms[j] == terms[terms.len() - 1]);
                    }
                }
                assert(!without_self_unifications(front).contains(last));
            }
        }
    }
}

/// What `deduplicated` keeps: each of the terms once.
pub proof fn lemma_deduplicated_keeps(terms: Seq<TermView>)
    ensures
        forall|x: TermView|
            #![trigger deduplicated(terms).contains(x)]
            deduplicated(terms).contains(x) <==> terms.contains(x),
        deduplicated(terms).no_duplicates(),
    decreases terms.len(),
{
    let kept = deduplicated(terms);
    if terms.len() > 0 {
        let front = terms.drop_last();
        let last = terms.last();
        lemma_deduplicated_keeps(front);
        assert forall|x: TermView|
            #![trigger kept.contains(x)]
            kept.contains(x) <==> terms.contains(x) by {
            if kept.contains(x) {
                let i = choose|i: int| 0 <= i < kept.len() && kept[i] == x;
                if !deduplicated(front).contains(last) && i == kept.len() - 1 {
                    assert(terms[terms.len() - 1] == x);
                } else {
                    assert(deduplicated(front)[i] == x);
                    assert(deduplicated(front).contains(x));
                    assert(front.contains(x));
                    let j = choose|j: int| 0 <= j < front.len() && front[j] == x;
                    assert(terms[j] == x);
                }
            }
            if terms.contains(x) {
                let j = choose|j: int| 0 <= j < terms.len() && terms[j] == x;
                if j == terms.len() - 1 && !deduplicated(front).contains(last) {
                    assert(kept[kept.len() - 1] == x);
                } else {
                    if j < terms.len() - 1 {
                        assert(front[j] == x);
                    }
                    assert(deduplicated(front).contains(x));
                    let i = choose|i: int|
                        0 <= i < deduplicated(front).len() && deduplicated(front)[i] == x;
                    assert(kept[i] == x);
                }
            }
        }
    }
}

/// What is left of a conjunction before its rules are applied: each
/// argument once, but for the constant TRUE and what unifies a term with
/// itself.
pub proof fn lemma_prepared_conjunction(operation: OperationView)
    requires
        operation.operator == Operator::And,
    ensures
        prepared(operation).no_duplicates(),
        forall|x: TermView|
            #![trigger prepared(operation).contains(x)]
            prepared(operation).contains(x) <==> operation.args.contains(x) && x
                != TermView::truth() && !is_self_unification(x),
{
    let first = without_truth(operation.args);
    let second = deduplicated(first);
    lemma_without_truth_keeps(operation.args);
    lemma_deduplicated_keeps(first);
    lemma_without_self_unifications_keeps(second);
    assert forall|x: TermView|
        #![trigger prepared(operation).contains(x)]
        prepared(operation).contains(x) <==> operation.args.contains(x) && x
            != TermView::truth() && !is_self_unification(x) by {
        assert(second.contains(x) <==> first.contains(x));
        assert(first.contains(x) <==> operation.args.contains(x) && x != TermView::truth());
    }
}

/// What is left of a disjunction before its rules are applied: its
/// arguments, but for what unifies a term with itself.
pub proof fn lemma_prepared_disjunction(operation: OperationView)
    requires
        operation.operator == Operator::Or,
    ensures
        forall|x: TermView|
            #![trigger prepared(operation).contains(x)]
            prepared(operation).contains(x) <==> operation.args.contains(x)
                && !is_self_unification(x),
{
    lemma_without_self_unifications_keeps(operation.args);
}

/// A pass leaves the constants TRUE and FALSE as they are, and the
/// substitution with them.
pub proof fn lemma_constants_are_kept(
    context: Context,
    bindings: Seq<(Seq<char>, TermView)>,
    limit: nat,
)
    requires
        limit >= 2,
    ensures
        folded_term(context, bindings, TermView::truth(), limit) == Ok::<_, Failure>(
            (TermView::truth(), bindings),
        ),
        folded_term(context, bindings, TermView::Expression(OperationView::falsity()), limit)
            == Ok::<_, Failure>(
            (TermView::Expression(OperationView::falsity()), bindings),
        ),
{
    let truth = OperationView::truth();
    let falsity = OperationView::falsity();
    assert(prepared(truth) =~= Seq::<TermView>::empty());
    assert(prepared(falsity) =~= Seq::<TermView>::empty());
    assert(folded_operation(context, bindings, truth, (limit - 1) as nat) == Ok::<
        _,
        Failure,
    >((truth, bindings)));
    assert(folded_operation(context, bindings, falsity, (limit - 1) as nat) == Ok::<
        _,
        Failure,
    >((falsity, bindings)));
}

/// Every binding that is presented is that of a variable among the first
/// `count` that is not temporary; and if no variable is bound twice, none
/// is presented twice.
pub proof fn lemma_presented_keys(
    entries: Seq<(Seq<char>, TermView)>,
    states: Map<Seq<char>, VariableStateView>,
    count: nat,
    limit: nat,
)
    requires
        count <= entries.len(),
        presented_prefix(entries, states, count, limit) is Ok,
    ensures
        forall|i: int|
            #![trigger presented_prefix(entries, states, count, limit)->Ok_0[i]]
            0 <= i < presented_prefix(entries, states, count, limit)->Ok_0.len() ==> {
                let name = presented_prefix(entries, states, count, limit)->Ok_0[i].0;
                &&& !is_temporary_name(name)
                &&& exists|j: int| 0 <= j < count && (#[trigger] entries[j]).0 == name
            },
        distinct_keys(entries) ==> distinct_keys(
            presented_prefix(entries, states, count, limit)->Ok_0,
        ),
    decreases count,
{
    if count > 0 {
        let before = (count - 1) as nat;
        lemma_presented_keys(entries, states, before, limit);
        let done = presented_prefix(entries, states, before, limit)->Ok_0;
        let all = presented_prefix(entries, states, count, limit)->Ok_0;
        let name = entries[count - 1].0;
        assert forall|i: int| #![trigger all[i]] 0 <= i < all.len() implies {
            &&& !is_temporary_name(all[i].0)
            &&& exists|j: int| 0 <= j < count && (#[trigger] entries[j]).0 == all[i].0
        } by {
            if i < done.len() {
                assert(all[i] == done[i]);
                let j = choose|j: int| 0 <= j < before && (#[trigger] entries[j]).0 == done[i].0;
                assert(entries[j].0 == all[i].0);
            } else {
                assert(entries[count - 1].0 == all[i].0);
            }
        }
        if distinct_keys(entries) && !is_temporary_name(name) {
            assert forall|i: int, k: int| 0 <= i < k < all.len() implies (#[trigger] all[i]).0 != (
            #[trigger] all[k]).0 by {
                if k == all.len() - 1 {
                    assert(all[i] == done[i]);
                    let j = choose|j: int|
                        0 <= j < before && (#[trigger] entries[j]).0 == done[i].0;
                    assert(entries[j].0 != entries[count - 1].0);
                } else {
                    assert(all[i] == done[i] && all[k] == done[k]);
                }
            }
        }
    }
}

/// Values of which no variable has two make the bindings they are: each
/// variable keeps its place.
pub proof fn lemma_bound_in_order_keeps(presented: Seq<(Seq<char>, TermView)>, count: nat)
    requires
        distinct_keys(presented),
        count <= presented.len(),
    ensures
        bound_in_order(presented, count) == presented.take(count as int),
    decreases count,
{
    if count == 0 {
        assert(presented.take(0) =~= Seq::empty());
    } else {
        lemma_bound_in_order_keeps(presented, (count - 1) as nat);
        let front = presented.take(count - 1);
        let name = presented[count - 1].0;
        assert(!has_key(front, name)) by {
            if has_key(front, name) {
                let i = choose|i: int| 0 <= i < front.len() && (#[trigger] front[i]).0 == name;
                assert(presented[i].0 == presented[count - 1].0);
            }
        }
        assert(front.push(presented[count - 1]) =~= presented.take(count as int));
    }
}

/// Of bindings in which no variable is bound twice, those that come out
/// are the bindings of the variables that are not temporary, each as it is
/// presented, in the order in which they went in.
pub proof fn lemma_simplified_bindings_keep_order(
    entries: Seq<(Seq<char>, TermView)>,
    states: Map<Seq<char>, VariableStateView>,
    limit: nat,
)
    requires
        distinct_keys(entries),
        simplified_bindings(entries, states, limit) matches Ok(Some(_)),
    ensures
        simplified_bindings(entries, states, limit) == Ok::<_, Failure>(
            Some(presented_prefix(entries, states, entries.len(), limit)->Ok_0),
        ),
        distinct_keys(simplified_bindings(entries, states, limit)->Ok_0->Some_0),
{
    let presented = presented_prefix(entries, states, entries.len(), limit)->Ok_0;
    lemma_presented_keys(entries, states, entries.len(), limit);
    lemma_bound_in_order_keeps(presented, presented.len());
    assert(presented.take(presented.len() as int) =~= presented);
}

} // verus!
