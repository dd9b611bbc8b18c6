//! Terms on which the rewriting is known to come to rest.
//!
//! The rules can make a term larger only by putting a bound term in the
//! place of a variable. Where no variable is ever bound, every pass leaves
//! the term as it is or makes it smaller, so that the rewriting comes to
//! rest within a limit that the size of the term gives.
use crate::bindings::has_key;
use crate::laws::{
    lemma_folded_operation_stable, lemma_prepared_conjunction, lemma_prepared_disjunction,
    lemma_quiesced_stable,
};
use crate::oracle::VariableStateView;
use crate::rules::{
    absorbed, all_constraints, deduplicated, dereferenced, first_absorbed, folded_args,
    folded_operation, folded_term, inverted, is_constraint, is_negation, is_partial,
    is_self_unification, prepared, quiesced, rebuilt, simplified, without_self_unifications,
    without_truth, Context,
};
use crate::terms::{Operator, OperationView, TermView};
use vstd::prelude::*;

verus! {

/// The number of nodes of a term.
pub open spec fn size(term: TermView) -> nat
    decreases term, 0nat,
{
    match term {
        TermView::List(items) => 1 + sizes(items, items.len()),
        TermView::Expression(operation) => 1 + sizes(operation.args, operation.args.len()),
        _ => 1,
    }
}

/// The number of nodes of the first `count` of the terms together.
pub open spec fn sizes(terms: Seq<TermView>, count: nat) -> nat
    decreases terms, count,
{
    if count == 0 || count > terms.len() {
        0
    } else {
        sizes(terms, (count - 1) as nat) + size(terms[count - 1])
    }
}

/// Whether a conjunction could bind a variable when the term stands on one
/// side of a unification, now or after some passes: the term is the
/// constrained variable or a variable whose constraints are pending, or
/// the negation of such a term, or a conjunction or disjunction that holds
/// one.
pub open spec fn is_exposed(context: Context, term: TermView) -> bool
    decreases term,
{
    match term {
        TermView::Variable(name) => name == context.this || is_partial(context, name),
        TermView::RestVariable(name) => is_partial(context, name),
        TermView::Expression(operation) => {
            if operation.operator == Operator::Not {
                operation.args.len() == 1 && is_exposed(context, operation.args[0])
            } else if operation.operator == Operator::And || operation.operator
                == Operator::Or {
                exists|i: int|
                    0 <= i < operation.args.len() && is_exposed(
                        context,
                        #[trigger] operation.args[i],
                    )
            } else {
                false
            }
        },
        _ => false,
    }
}

/// Whether the operation has the shape that its operator asks for: a
/// conjunction or disjunction is made of expressions, a comparison and a
/// unification have two sides, a negation has one argument.
pub open spec fn is_well_shaped(operation: OperationView) -> bool {
    &&& operation.operator == Operator::And || operation.operator == Operator::Or
        ==> forall|i: int|
        0 <= i < operation.args.len() ==> (#[trigger] operation.args[i]) is Expression
    &&& operation.operator.is_comparison() || operation.operator == Operator::Unify
        ==> operation.args.len() == 2
    &&& operation.operator == Operator::Not ==> operation.args.len() == 1
}

/// Whether the term is orderly: every operation in it is well shaped, and
/// no unification in it has an exposed side. No pass over such a term
/// binds a variable.
pub open spec fn is_orderly(context: Context, term: TermView) -> bool
    decreases term,
{
    match term {
        TermView::List(items) => forall|i: int|
            0 <= i < items.len() ==> is_orderly(context, #[trigger] items[i]),
        TermView::Expression(operation) => {
            &&& is_well_shaped(operation)
            &&& operation.operator.is_unification() ==> !is_exposed(context, operation.args[0])
                && !is_exposed(context, operation.args[1])
            &&& forall|i: int|
                0 <= i < operation.args.len() ==> is_orderly(
                    context,
                    #[trigger] operation.args[i],
                )
        },
        _ => true,
    }
}

/// Whether each of the terms is orderly.
pub open spec fn are_orderly(context: Context, terms: Seq<TermView>) -> bool {
    forall|i: int| 0 <= i < terms.len() ==> is_orderly(context, #[trigger] terms[i])
}

/// Every term has a node.
pub proof fn lemma_size_is_positive(term: TermView)
    ensures
        size(term) >= 1,
{
}

/// The size of one term and of two terms together.
pub proof fn lemma_sizes_of_few(terms: Seq<TermView>)
    ensures
        terms.len() >= 1 ==> sizes(terms, 1) == size(terms[0]),
        terms.len() >= 2 ==> sizes(terms, 2) == size(terms[0]) + size(terms[1]),
{
    assert(sizes(terms, 0) == 0);
    if terms.len() >= 1 {
        assert(sizes(terms, 1) == sizes(terms, 0) + size(terms[0]));
    }
    if terms.len() >= 2 {
        assert(sizes(terms, 2) == sizes(terms, 1) + size(terms[1]));
    }
}

/// Each of the first `count` terms is no larger than they are together.
pub proof fn lemma_size_within_sizes(terms: Seq<TermView>, count: nat, i: int)
    requires
        0 <= i < count <= terms.len(),
    ensures
        size(terms[i]) <= sizes(terms, count),
    decreases count,
{
    if i < count - 1 {
        lemma_size_within_sizes(terms, (count - 1) as nat, i);
    }
}

/// Two lists that agree on their first `count` terms have the same size
/// there.
pub proof fn lemma_sizes_agree(left: Seq<TermView>, right: Seq<TermView>, count: nat)
    requires
        count <= left.len(),
        count <= right.len(),
        forall|i: int| 0 <= i < count ==> left[i] == right[i],
    ensures
        sizes(left, count) == sizes(right, count),
    decreases count,
{
    if count > 0 {
        lemma_sizes_agree(left, right, (count - 1) as nat);
    }
}

/// Terms that are each no larger than the term in the same place of another
/// list are together no larger; and smaller, if some term differs and
/// every term that differs is smaller.
pub proof fn lemma_sizes_pointwise(after: Seq<TermView>, before: Seq<TermView>, count: nat)
    requires
        count <= after.len(),
        count <= before.len(),
        forall|i: int| 0 <= i < count ==> size(#[trigger] after[i]) <= size(before[i]),
        forall|i: int|
            0 <= i < count && (#[trigger] after[i]) != before[i] ==> size(after[i]) < size(
                before[i],
            ),
    ensures
        sizes(after, count) <= sizes(before, count),
        (exists|i: int| 0 <= i < count && (#[trigger] after[i]) != before[i]) ==> sizes(
            after,
            count,
        ) < sizes(before, count),
    decreases count,
{
    if count > 0 {
        lemma_sizes_pointwise(after, before, (count - 1) as nat);
        if exists|i: int| 0 <= i < count && (#[trigger] after[i]) != before[i] {
            let i = choose|i: int| 0 <= i < count && (#[trigger] after[i]) != before[i];
            if i < count - 1 {
                assert(sizes(after, (count - 1) as nat) < sizes(before, (count - 1) as nat));
            } else {
                assert(size(after[count - 1]) < size(before[count - 1]));
            }
        }
    }
}

/// What `without_truth` keeps is no larger than the terms, and smaller if a
/// term is dropped.
pub proof fn lemma_without_truth_sizes(terms: Seq<TermView>)
    ensures
        without_truth(terms).len() <= terms.len(),
        sizes(without_truth(terms), without_truth(terms).len()) <= sizes(terms, terms.len()),
        without_truth(terms) != terms ==> sizes(
            without_truth(terms),
            without_truth(terms).len(),
        ) < sizes(terms, terms.len()),
    decreases terms.len(),
{
    if terms.len() > 0 {
        let front = terms.drop_last();
        let last = terms.last();
        let kept = without_truth(front);
        lemma_without_truth_sizes(front);
        lemma_sizes_agree(front, terms, front.len());
        lemma_size_is_positive(last);
        if last == TermView::truth() {
        } else {
            let all = kept.push(last);
            lemma_sizes_agree(kept, all, kept.len());
            if kept == front {
                assert(all =~= terms);
            }
        }
    } else {
        assert(terms =~= Seq::<TermView>::empty());
    }
}

/// What `deduplicated` keeps is no larger than the terms, and smaller if a
/// term is dropped.
pub proof fn lemma_deduplicated_sizes(terms: Seq<TermView>)
    ensures
        deduplicated(terms).len() <= terms.len(),
        sizes(deduplicated(terms), deduplicated(terms).len()) <= sizes(terms, terms.len()),
        deduplicated(terms) != terms ==> sizes(
            deduplicated(terms),
            deduplicated(terms).len(),
        ) < sizes(terms, terms.len()),
    decreases terms.len(),
{
    if terms.len() > 0 {
        let front = terms.drop_last();
        let last = terms.last();
        let kept = deduplicated(front);
        lemma_deduplicated_sizes(front);
        lemma_sizes_agree(front, terms, front.len());
        lemma_size_is_positive(last);
        if kept.contains(last) {
        } else {
            let all = kept.push(last);
            lemma_sizes_agree(kept, all, kept.len());
            if kept == front {
                assert(all =~= terms);
            }
        }
    } else {
        assert(terms =~= Seq::<TermView>::empty());
    }
}

/// What `without_self_unifications` keeps is no larger than the terms, and
/// smaller if a term is dropped.
pub proof fn lemma_without_self_unifications_sizes(terms: Seq<TermView>)
    ensures
        without_self_unifications(terms).len() <= terms.len(),
        sizes(without_self_unifications(terms), without_self_unifications(terms).len()) <= sizes(
            terms,
            terms.len(),
        ),
        without_self_unifications(terms) != terms ==> sizes(
            without_self_unifications(terms),
            without_self_unifications(terms).len(),
        ) < sizes(terms, terms.len()),
    decreases terms.len(),
{
    if terms.len() > 0 {
        let front = terms.drop_last();
        let last = terms.last();
        let kept = without_self_unifications(front);
        lemma_without_self_unifications_sizes(front);
        lemma_sizes_agree(front, terms, front.len());
        lemma_size_is_positive(last);
        if is_self_unification(last) {
        } else {
            let all = kept.push(last);
            lemma_sizes_agree(kept, all, kept.len());
            if kept == front {
                assert(all =~= terms);
            }
        }
    } else {
        assert(terms =~= Seq::<TermView>::empty());
    }
}

/// What is left of an operation before its rules are applied is no larger
/// than its arguments, and smaller if an argument is dropped.
pub proof fn lemma_prepared_sizes(operation: OperationView)
    ensures
        prepared(operation).len() <= operation.args.len(),
        sizes(prepared(operation), prepared(operation).len()) <= sizes(
            operation.args,
            operation.args.len(),
        ),
        prepared(operation) != operation.args ==> sizes(
            prepared(operation),
            prepared(operation).len(),
        ) < sizes(operation.args, operation.args.len()),
{
    let first = without_truth(operation.args);
    let second = deduplicated(first);
    lemma_without_truth_sizes(operation.args);
    lemma_deduplicated_sizes(first);
    lemma_without_self_unifications_sizes(second);
    lemma_without_self_unifications_sizes(operation.args);
}

/// Every term that is left of a conjunction or disjunction before its
/// rules are applied is one of its arguments; of a conjunction, none is
/// the constant TRUE; and none unifies a term with itself.
pub proof fn lemma_prepared_are_arguments(operation: OperationView, i: int)
    requires
        operation.operator == Operator::And || operation.operator == Operator::Or,
        0 <= i < prepared(operation).len(),
    ensures
        operation.args.contains(prepared(operation)[i]),
        operation.operator == Operator::And ==> prepared(operation)[i] != TermView::truth(),
        !is_self_unification(prepared(operation)[i]),
{
    let kept = prepared(operation);
    assert(kept.contains(kept[i]));
    if operation.operator == Operator::And {
        lemma_prepared_conjunction(operation);
    } else {
        lemma_prepared_disjunction(operation);
    }
}

/// A conjunction hands no orderly constraint over to the substitution,
/// unless the constraint is trivially true.
pub proof fn lemma_orderly_is_not_absorbed(
    context: Context,
    bindings: Seq<(Seq<char>, TermView)>,
    constraint: TermView,
)
    requires
        is_orderly(context, constraint),
        constraint != TermView::truth(),
        !is_self_unification(constraint),
    ensures
        absorbed(context, bindings, constraint) is None,
{
}

/// Where no constraint is handed over, none is the first.
pub proof fn lemma_nothing_is_absorbed(
    context: Context,
    bindings: Seq<(Seq<char>, TermView)>,
    constraints: Seq<TermView>,
    from: int,
)
    requires
        0 <= from <= constraints.len(),
        forall|i: int|
            from <= i < constraints.len() ==> absorbed(
                context,
                bindings,
                #[trigger] constraints[i],
            ) is None,
    ensures
        first_absorbed(context, bindings, constraints, from) == constraints.len(),
    decreases constraints.len() - from,
{
    if from < constraints.len() {
        lemma_nothing_is_absorbed(context, bindings, constraints, from + 1);
    }
}

/// What a pass may make of an orderly term: an orderly term that is no
/// larger, and smaller if it is another; that is exposed only if the term
/// was; and that is an expression if the term was.
pub open spec fn shrinks_to(context: Context, before: TermView, after: TermView) -> bool {
    &&& is_orderly(context, after)
    &&& size(after) <= size(before)
    &&& after != before ==> size(after) < size(before)
    &&& is_exposed(context, after) ==> is_exposed(context, before)
    &&& before is Expression ==> after is Expression
}

/// Whether each of the terms `after` is what a pass may make of the term
/// in the same place of `before`.
pub open spec fn shrink_to(context: Context, before: Seq<TermView>, after: Seq<TermView>) -> bool {
    &&& after.len() == before.len()
    &&& forall|i: int|
        0 <= i < before.len() ==> shrinks_to(context, #[trigger] before[i], after[i])
}

/// An orderly operation whose arguments each became what a pass may make
/// of them is, with the new arguments, what a pass may make of it. For a
/// conjunction or disjunction the arguments may first have been thinned
/// out.
pub proof fn lemma_rebuilt_shrinks(
    context: Context,
    operation: OperationView,
    kept: Seq<TermView>,
    folded: Seq<TermView>,
)
    requires
        is_orderly(context, TermView::Expression(operation)),
        operation.operator != Operator::And && operation.operator != Operator::Or ==> kept
            == operation.args,
        forall|i: int| 0 <= i < kept.len() ==> operation.args.contains(#[trigger] kept[i]),
        sizes(kept, kept.len()) <= sizes(operation.args, operation.args.len()),
        kept != operation.args ==> sizes(kept, kept.len()) < sizes(
            operation.args,
            operation.args.len(),
        ),
        shrink_to(context, kept, folded),
    ensures
        shrinks_to(
            context,
            TermView::Expression(operation),
            TermView::Expression(OperationView { operator: operation.operator, args: folded }),
        ),
        kept != operation.args ==> size(
            TermView::Expression(OperationView { operator: operation.operator, args: folded }),
        ) < size(TermView::Expression(operation)),
{
    let operator = operation.operator;
    let args = operation.args;
    let before = TermView::Expression(operation);
    let result = OperationView { operator, args: folded };
    let after = TermView::Expression(result);
    assert forall|i: int| 0 <= i < folded.len() implies is_orderly(
        context,
        #[trigger] folded[i],
    ) by {
        assert(shrinks_to(context, kept[i], folded[i]));
    }
    if operator == Operator::And || operator == Operator::Or {
        assert forall|i: int| 0 <= i < folded.len() implies (#[trigger] folded[i])
            is Expression by {
            assert(shrinks_to(context, kept[i], folded[i]));
            assert(args.contains(kept[i]));
            let j = choose|j: int| 0 <= j < args.len() && args[j] == kept[i];
            assert(args[j] is Expression);
        }
        if is_exposed(context, after) {
            let i = choose|i: int| 0 <= i < folded.len() && is_exposed(context, folded[i]);
            assert(shrinks_to(context, kept[i], folded[i]));
            assert(args.contains(kept[i]));
            let j = choose|j: int| 0 <= j < args.len() && args[j] == kept[i];
            assert(is_exposed(context, args[j]));
        }
    } else {
        if args.len() > 0 {
            assert(shrinks_to(context, kept[0], folded[0]));
            assert(args.contains(kept[0]));
        }
        if args.len() > 1 {
            assert(shrinks_to(context, kept[1], folded[1]));
        }
    }
    assert(is_well_shaped(result));
    assert(is_orderly(context, after));
    assert forall|i: int| 0 <= i < kept.len() implies size(#[trigger] folded[i]) <= size(
        kept[i],
    ) by {
        assert(shrinks_to(context, kept[i], folded[i]));
    }
    assert forall|i: int| 0 <= i < kept.len() && (#[trigger] folded[i]) != kept[i] implies size(
        folded[i],
    ) < size(kept[i]) by {
        assert(shrinks_to(context, kept[i], folded[i]));
    }
    lemma_sizes_pointwise(folded, kept, kept.len());
    if after != before {
        if kept == args {
            assert(folded != kept);
            assert(exists|i: int| 0 <= i < kept.len() && (#[trigger] folded[i]) != kept[i]) by {
                if forall|i: int| 0 <= i < kept.len() ==> (#[trigger] folded[i]) == kept[i] {
                    assert(folded =~= kept);
                }
            }
        }
    }
}

/// A list whose items each became what a pass may make of them is, with
/// the new items, what a pass may make of it.
pub proof fn lemma_list_shrinks(context: Context, items: Seq<TermView>, folded: Seq<TermView>)
    requires
        shrink_to(context, items, folded),
    ensures
        shrinks_to(context, TermView::List(items), TermView::List(folded)),
{
    assert forall|i: int| 0 <= i < folded.len() implies is_orderly(
        context,
        #[trigger] folded[i],
    ) by {
        assert(shrinks_to(context, items[i], folded[i]));
    }
    assert forall|i: int| 0 <= i < items.len() implies size(#[trigger] folded[i]) <= size(
        items[i],
    ) by {
        assert(shrinks_to(context, items[i], folded[i]));
    }
    assert forall|i: int|
        0 <= i < items.len() && (#[trigger] folded[i]) != items[i] implies size(folded[i])
        < size(items[i]) by {
        assert(shrinks_to(context, items[i], folded[i]));
    }
    lemma_sizes_pointwise(folded, items, items.len());
    if folded != items {
        assert(exists|i: int| 0 <= i < items.len() && (#[trigger] folded[i]) != items[i]) by {
            if forall|i: int| 0 <= i < items.len() ==> (#[trigger] folded[i]) == items[i] {
                assert(folded =~= items);
            }
        }
    }
}

/// What two passes may make of a term, one after the other, one pass may.
pub proof fn lemma_shrinks_twice(
    context: Context,
    first: TermView,
    second: TermView,
    third: TermView,
)
    requires
        shrinks_to(context, first, second),
        shrinks_to(context, second, third),
    ensures
        shrinks_to(context, first, third),
{
}

/// A pass over an orderly term, without a substitution and under a limit of
/// twice the size of the term, ends without a substitution in what a pass
/// may make of the term.
pub proof fn lemma_orderly_term(context: Context, term: TermView, limit: nat)
    requires
        is_orderly(context, term),
        limit + 1 >= 2 * size(term),
    ensures
        folded_term(context, Seq::empty(), term, limit) is Ok,
        folded_term(context, Seq::empty(), term, limit)->Ok_0.1 == Seq::<
            (Seq<char>, TermView),
        >::empty(),
        shrinks_to(context, term, folded_term(context, Seq::empty(), term, limit)->Ok_0.0),
    decreases limit, 0nat, 0nat,
{
    let empty = Seq::<(Seq<char>, TermView)>::empty();
    lemma_size_is_positive(term);
    assert(dereferenced(empty, term) == term) by {
        assert(forall|name: Seq<char>| !has_key(empty, name));
    }
    match term {
        TermView::List(items) => {
            assert forall|i: int| 0 <= i < items.len() implies limit >= 2 * size(
                #[trigger] items[i],
            ) by {
                lemma_size_within_sizes(items, items.len(), i);
            }
            lemma_orderly_args(context, items, items.len(), (limit - 1) as nat);
            let folded = folded_args(
                context,
                empty,
                items,
                items.len(),
                (limit - 1) as nat,
            )->Ok_0.0;
            lemma_list_shrinks(context, items, folded);
        },
        TermView::Expression(operation) => {
            lemma_orderly_operation(context, operation, (limit - 1) as nat);
        },
        _ => {},
    }
}

/// A pass over orderly arguments, without a substitution and under a limit
/// of twice the size of each, ends without a substitution in what a pass
/// may make of each.
pub proof fn lemma_orderly_args(context: Context, terms: Seq<TermView>, count: nat, limit: nat)
    requires
        are_orderly(context, terms),
        count <= terms.len(),
        forall|i: int| 0 <= i < terms.len() ==> limit + 1 >= 2 * size(#[trigger] terms[i]),
    ensures
        folded_args(context, Seq::empty(), terms, count, limit) is Ok,
        folded_args(context, Seq::empty(), terms, count, limit)->Ok_0.1 == Seq::<
            (Seq<char>, TermView),
        >::empty(),
        folded_args(context, Seq::empty(), terms, count, limit)->Ok_0.0.len() == count,
        forall|i: int|
            0 <= i < count ==> shrinks_to(
                context,
                #[trigger] terms[i],
                folded_args(context, Seq::empty(), terms, count, limit)->Ok_0.0[i],
            ),
        count == terms.len() ==> shrink_to(
            context,
            terms,
            folded_args(context, Seq::empty(), terms, count, limit)->Ok_0.0,
        ),
    decreases limit, 1nat, count,
{
    if count > 0 {
        lemma_orderly_args(context, terms, (count - 1) as nat, limit);
        lemma_orderly_term(context, terms[count - 1], limit);
    }
}

/// The rewriting of an orderly term, without a substitution and under a
/// limit of twice the size of the term, comes to rest without a
/// substitution, at what a pass may make of the term.
pub proof fn lemma_orderly_rest(context: Context, term: TermView, limit: nat)
    requires
        is_orderly(context, term),
        limit >= 2 * size(term),
    ensures
        quiesced(context, Seq::empty(), term, limit) is Ok,
        quiesced(context, Seq::empty(), term, limit)->Ok_0.1 == Seq::<
            (Seq<char>, TermView),
        >::empty(),
        shrinks_to(context, term, quiesced(context, Seq::empty(), term, limit)->Ok_0.0),
    decreases limit, 2nat, 0nat,
{
    let empty = Seq::<(Seq<char>, TermView)>::empty();
    lemma_size_is_positive(term);
    lemma_orderly_term(context, term, (limit - 1) as nat);
    let new = folded_term(context, empty, term, (limit - 1) as nat)->Ok_0.0;
    if new != term {
        lemma_orderly_rest(context, new, (limit - 1) as nat);
        let rest = quiesced(context, empty, new, (limit - 1) as nat)->Ok_0.0;
        lemma_shrinks_twice(context, term, new, rest);
    }
}

/// A pass over an orderly operation, without a substitution and under a
/// limit of twice the size of the operation, ends without a substitution in
/// what a pass may make of the operation.
pub proof fn lemma_orderly_operation(context: Context, operation: OperationView, limit: nat)
    requires
        is_orderly(context, TermView::Expression(operation)),
        limit + 2 >= 2 * size(TermView::Expression(operation)),
    ensures
        folded_operation(context, Seq::empty(), operation, limit) is Ok,
        folded_operation(context, Seq::empty(), operation, limit)->Ok_0.1 == Seq::<
            (Seq<char>, TermView),
        >::empty(),
        shrinks_to(
            context,
            TermView::Expression(operation),
            TermView::Expression(
                folded_operation(context, Seq::empty(), operation, limit)->Ok_0.0,
            ),
        ),
    decreases limit, 3nat, 0nat,
{
    let empty = Seq::<(Seq<char>, TermView)>::empty();
    let operator = operation.operator;
    let args = operation.args;
    if operator == Operator::And || operator == Operator::Or {
        lemma_orderly_connective(context, operation, limit);
    } else if operator.is_comparison() {
        lemma_orderly_comparison(context, operation, limit);
    } else if operator == Operator::Not {
        lemma_orderly_negation(context, operation, limit);
    } else {
        lemma_arguments_fit(operation, limit);
        lemma_orderly_args(context, args, args.len(), limit);
        let folded = folded_args(context, empty, args, args.len(), limit)->Ok_0.0;
        lemma_arguments_are_contained(args);
        lemma_rebuilt_shrinks(context, operation, args, folded);
    }
}

/// The limit that is enough for an operation is enough for each of its
/// arguments.
pub proof fn lemma_arguments_fit(operation: OperationView, limit: nat)
    requires
        limit + 2 >= 2 * size(TermView::Expression(operation)),
    ensures
        forall|i: int|
            0 <= i < operation.args.len() ==> limit >= 2 * size(#[trigger] operation.args[i]),
{
    assert forall|i: int| 0 <= i < operation.args.len() implies limit >= 2 * size(
        #[trigger] operation.args[i],
    ) by {
        lemma_size_within_sizes(operation.args, operation.args.len(), i);
    }
}

/// Each of the terms is among them.
pub proof fn lemma_arguments_are_contained(terms: Seq<TermView>)
    ensures
        forall|i: int| 0 <= i < terms.len() ==> terms.contains(#[trigger] terms[i]),
{
}

/// A pass over an orderly conjunction or disjunction ends in what a pass
/// may make of it, and binds nothing.
pub proof fn lemma_orderly_connective(context: Context, operation: OperationView, limit: nat)
    requires
        operation.operator == Operator::And || operation.operator == Operator::Or,
        is_orderly(context, TermView::Expression(operation)),
        limit + 2 >= 2 * size(TermView::Expression(operation)),
    ensures
        folded_operation(context, Seq::empty(), operation, limit) is Ok,
        folded_operation(context, Seq::empty(), operation, limit)->Ok_0.1 == Seq::<
            (Seq<char>, TermView),
        >::empty(),
        shrinks_to(
            context,
            TermView::Expression(operation),
            TermView::Expression(
                folded_operation(context, Seq::empty(), operation, limit)->Ok_0.0,
            ),
        ),
        prepared(operation).len() == 1 || prepared(operation) != operation.args ==> size(
            TermView::Expression(
                folded_operation(context, Seq::empty(), operation, limit)->Ok_0.0,
            ),
        ) < size(TermView::Expression(operation)),
    decreases limit, 2nat, 0nat,
{
    let empty = Seq::<(Seq<char>, TermView)>::empty();
    let operator = operation.operator;
    let args = operation.args;
    let kept = prepared(operation);
    let before = TermView::Expression(operation);
    lemma_arguments_fit(operation, limit);
    assert(all_constraints(args)) by {
        assert forall|i: int| 0 <= i < args.len() implies is_constraint(#[trigger] args[i]) by {
            assert(is_orderly(context, args[i]));
        }
    }
    lemma_prepared_sizes(operation);
    assert forall|i: int| 0 <= i < kept.len() implies {
        &&& args.contains(#[trigger] kept[i])
        &&& is_orderly(context, kept[i])
        &&& limit >= 2 * size(kept[i])
        &&& kept[i] is Expression
        &&& operator == Operator::And ==> absorbed(context, empty, kept[i]) is None
    } by {
        lemma_prepared_are_arguments(operation, i);
        let j = choose|j: int| 0 <= j < args.len() && args[j] == kept[i];
        assert(is_orderly(context, args[j]));
        if operator == Operator::And {
            lemma_orderly_is_not_absorbed(context, empty, kept[i]);
        }
    }
    if kept.len() == 0 {
        assert(shrink_to(context, kept, kept));
        lemma_rebuilt_shrinks(context, operation, kept, kept);
    } else if kept.len() == 1 {
        let only = kept[0]->Expression_0;
        assert(args.contains(kept[0]));
        lemma_arguments_fit(only, limit);
        lemma_orderly_args(context, only.args, only.args.len(), limit);
        let folded = folded_args(context, empty, only.args, only.args.len(), limit)->Ok_0.0;
        lemma_arguments_are_contained(only.args);
        lemma_rebuilt_shrinks(context, only, only.args, folded);
        let after = TermView::Expression(OperationView { operator: only.operator, args: folded });
        lemma_size_within_sizes(kept, 1, 0);
        assert(size(kept[0]) < size(before));
        if is_exposed(context, after) {
            let j = choose|j: int| 0 <= j < args.len() && args[j] == kept[0];
            assert(is_exposed(context, args[j]));
        }
    } else {
        if operator == Operator::And {
            lemma_nothing_is_absorbed(context, empty, kept, 0);
        }
        lemma_orderly_args(context, kept, kept.len(), limit);
        let folded = folded_args(context, empty, kept, kept.len(), limit)->Ok_0.0;
        lemma_rebuilt_shrinks(context, operation, kept, folded);
    }
}

/// A pass over an orderly comparison ends in what a pass may make of it,
/// and binds nothing.
pub proof fn lemma_orderly_comparison(context: Context, operation: OperationView, limit: nat)
    requires
        operation.operator.is_comparison(),
        is_orderly(context, TermView::Expression(operation)),
        limit + 2 >= 2 * size(TermView::Expression(operation)),
    ensures
        folded_operation(context, Seq::empty(), operation, limit) is Ok,
        folded_operation(context, Seq::empty(), operation, limit)->Ok_0.1 == Seq::<
            (Seq<char>, TermView),
        >::empty(),
        shrinks_to(
            context,
            TermView::Expression(operation),
            TermView::Expression(
                folded_operation(context, Seq::empty(), operation, limit)->Ok_0.0,
            ),
        ),
    decreases limit, 2nat, 0nat,
{
    let empty = Seq::<(Seq<char>, TermView)>::empty();
    let operator = operation.operator;
    let args = operation.args;
    let before = TermView::Expression(operation);
    assert(prepared(operation) == args);
    assert(is_orderly(context, args[0]) && is_orderly(context, args[1]));
    if is_negation(args[0]) != is_negation(args[1]) {
        let negated = if is_negation(args[0]) {
            args[0]->Expression_0
        } else {
            args[1]->Expression_0
        };
        let sides = if is_negation(args[0]) {
            seq![negated.args[0], args[1]]
        } else {
            seq![args[0], negated.args[0]]
        };
        let result = OperationView { operator: operator.inverse_spec()->Some_0, args: sides };
        let after = TermView::Expression(result);
        assert(is_orderly(context, negated.args[0]));
        assert(is_orderly(context, after));
        lemma_sizes_of_few(negated.args);
        lemma_sizes_of_few(sides);
        lemma_sizes_of_few(args);
        assert(size(TermView::Expression(negated)) == 1 + size(negated.args[0]));
        assert(size(after) == 1 + size(sides[0]) + size(sides[1]));
        assert(size(before) == 1 + size(args[0]) + size(args[1]));
    } else {
        lemma_arguments_fit(operation, limit);
        lemma_orderly_args(context, args, args.len(), limit);
        let folded = folded_args(context, empty, args, args.len(), limit)->Ok_0.0;
        lemma_arguments_are_contained(args);
        lemma_rebuilt_shrinks(context, operation, args, folded);
    }
}

/// A pass over an orderly negation ends in what a pass may make of it, and
/// binds nothing.
pub proof fn lemma_orderly_negation(context: Context, operation: OperationView, limit: nat)
    requires
        operation.operator == Operator::Not,
        is_orderly(context, TermView::Expression(operation)),
        limit + 2 >= 2 * size(TermView::Expression(operation)),
    ensures
        folded_operation(context, Seq::empty(), operation, limit) is Ok,
        folded_operation(context, Seq::empty(), operation, limit)->Ok_0.1 == Seq::<
            (Seq<char>, TermView),
        >::empty(),
        shrinks_to(
            context,
            TermView::Expression(operation),
            TermView::Expression(
                folded_operation(context, Seq::empty(), operation, limit)->Ok_0.0,
            ),
        ),
    decreases limit, 2nat, 1nat,
{
    let empty = Seq::<(Seq<char>, TermView)>::empty();
    let args = operation.args;
    let before = TermView::Expression(operation);
    assert(prepared(operation) == args);
    assert(is_orderly(context, args[0]));
    lemma_arguments_fit(operation, limit);
    lemma_sizes_of_few(args);
    assert(size(before) == 1 + size(args[0]));
    lemma_orderly_rest(context, args[0], limit);
    let inner = quiesced(context, empty, args[0], limit)->Ok_0.0;
    match inverted(inner) {
        Some(inverse) => {
            let relation = inner->Expression_0;
            assert(is_orderly(context, TermView::Expression(inverse))) by {
                assert(is_well_shaped(relation));
                assert(forall|i: int|
                    0 <= i < inverse.args.len() ==> is_orderly(
                        context,
                        #[trigger] inverse.args[i],
                    ));
            }
            assert(size(TermView::Expression(inverse)) == size(inner));
            lemma_arguments_fit(inverse, limit);
            lemma_orderly_args(context, inverse.args, inverse.args.len(), limit);
            let folded = folded_args(
                context,
                empty,
                inverse.args,
                inverse.args.len(),
                limit,
            )->Ok_0.0;
            lemma_arguments_are_contained(inverse.args);
            lemma_rebuilt_shrinks(context, inverse, inverse.args, folded);
        },
        None => {
            lemma_orderly_args(context, args, args.len(), limit);
            let folded = folded_args(context, empty, args, args.len(), limit)->Ok_0.0;
            lemma_arguments_are_contained(args);
            lemma_rebuilt_shrinks(context, operation, args, folded);
        },
    }
}

/// The pass that leaves an orderly expression as it is, and that is no
/// conjunction, rewrote its arguments and did nothing else.
pub proof fn lemma_orderly_fixed(context: Context, operation: OperationView, limit: nat)
    requires
        is_orderly(context, TermView::Expression(operation)),
        operation.operator != Operator::And,
        folded_operation(context, Seq::empty(), operation, limit) is Ok,
        folded_operation(context, Seq::empty(), operation, limit)->Ok_0.0 == operation,
    ensures
        rebuilt(
            operation.operator,
            folded_args(context, Seq::empty(), operation.args, operation.args.len(), limit),
        ) == folded_operation(context, Seq::empty(), operation, limit),
{
    let empty = Seq::<(Seq<char>, TermView)>::empty();
    let operator = operation.operator;
    let args = operation.args;
    let before = TermView::Expression(operation);
    let enough = 2 * size(before);
    let larger = if limit >= enough {
        limit
    } else {
        enough
    };
    lemma_folded_operation_stable(context, empty, operation, limit, larger);
    if operator == Operator::Or {
        lemma_orderly_connective(context, operation, larger);
        assert(prepared(operation) == args && args.len() != 1);
        if args.len() == 0 {
            assert(args =~= Seq::<TermView>::empty());
        }
    } else if operator.is_comparison() {
        assert(operator.inverse_spec()->Some_0 != operator);
    } else if operator == Operator::Not {
        lemma_sizes_of_few(args);
        lemma_orderly_rest(context, args[0], larger);
        lemma_quiesced_stable(context, empty, args[0], limit, larger);
    }
}

/// The constraints in an orderly term are simplified under every limit of
/// at least twice the size of the term: the rewriting comes to rest, meets
/// no malformed node, and ends at a term that is no larger.
pub proof fn lemma_orderly_is_simplified(
    this: Seq<char>,
    states: Map<Seq<char>, VariableStateView>,
    term: TermView,
    limit: nat,
)
    requires
        is_orderly(Context { this, states }, term),
        limit >= 2 * size(term),
    ensures
        simplified(this, states, term, limit) is Ok,
        quiesced(Context { this, states }, Seq::empty(), term, limit) is Ok,
        shrinks_to(
            Context { this, states },
            term,
            quiesced(Context { this, states }, Seq::empty(), term, limit)->Ok_0.0,
        ),
{
    lemma_orderly_rest(Context { this, states }, term, limit);
}

} // verus!
