//! The rewriting rules, as mathematical functions on the views of terms.
//!
//! One pass rewrites a term from the root down. A variable that the local
//! substitution binds is first replaced by what it is bound to. Conjunctions
//! lose what is trivially true and hand one constraint over to the
//! substitution; negated comparisons are inverted. Passes are repeated until
//! one of them changes nothing.
//!
//! The rules do not shrink every term, and a substitution can lead back
//! to its own variable; so each function counts its nested steps against a
//! limit and reports when the limit is used up. Every pass uses one step,
//! and so does every descent from a term to its parts.
use crate::bindings::{has_key, value_of, with_binding};
use crate::oracle::{state_in, VariableStateView};
use crate::rename::renamed;
use crate::terms::{is_temporary_name, this_name, Operator, OperationView, TermView};
use vstd::prelude::*;

verus! {

/// Why a term could not be simplified, as a mathematical value.
pub enum Failure {
    /// The node does not have the shape that its operator asks for.
    Malformed(TermView),
    /// The rewriting did not come to rest within the limit.
    LimitExceeded,
}

/// What stays the same while one term is simplified.
pub struct Context {
    /// The name of the variable that the constraints are about.
    pub this: Seq<char>,
    /// The state of each variable.
    pub states: Map<Seq<char>, VariableStateView>,
}

/// The negation of a term.
pub open spec fn negation(term: TermView) -> TermView {
    TermView::Expression(OperationView { operator: Operator::Not, args: seq![term] })
}

/// The name of a variable or rest variable.
pub open spec fn variable_name(term: TermView) -> Option<Seq<char>> {
    match term {
        TermView::Variable(name) => Some(name),
        TermView::RestVariable(name) => Some(name),
        _ => None,
    }
}

/// What a term stands for under the substitution: the term bound to it, if
/// it is a bound variable, and the term itself otherwise.
pub open spec fn dereferenced(bindings: Seq<(Seq<char>, TermView)>, term: TermView) -> TermView {
    match variable_name(term) {
        Some(name) => if has_key(bindings, name) {
            value_of(bindings, name)
        } else {
            term
        },
        None => term,
    }
}

/// The substitution after the variable is bound to what the value stands
/// for, or to its negation.
pub open spec fn bound(
    bindings: Seq<(Seq<char>, TermView)>,
    name: Seq<char>,
    value: TermView,
    invert: bool,
) -> Seq<(Seq<char>, TermView)> {
    let value = dereferenced(bindings, value);
    with_binding(
        bindings,
        name,
        if invert {
            negation(value)
        } else {
            value
        },
    )
}

/// Whether the term is `Unify`, `Eq` or `Neq` of a term with itself.
pub open spec fn is_self_unification(term: TermView) -> bool {
    term matches TermView::Expression(operation) && operation.operator.is_unification()
        && operation.args.len() == 2 && operation.args[0] == operation.args[1]
}

/// Whether the term can stand under a conjunction or disjunction: it is an
/// expression, with two sides if it is `Unify`, `Eq` or `Neq`.
pub open spec fn is_constraint(term: TermView) -> bool {
    term matches TermView::Expression(operation) && (operation.operator.is_unification()
        ==> operation.args.len() == 2)
}

/// Whether each of the terms can stand under a conjunction or disjunction.
pub open spec fn all_constraints(terms: Seq<TermView>) -> bool {
    forall|i: int| 0 <= i < terms.len() ==> is_constraint(#[trigger] terms[i])
}

/// The terms without those that are the constant TRUE.
pub open spec fn without_truth(terms: Seq<TermView>) -> Seq<TermView>
    decreases terms.len(),
{
    if terms.len() == 0 {
        Seq::empty()
    } else if terms.last() == TermView::truth() {
        without_truth(terms.drop_last())
    } else {
        without_truth(terms.drop_last()).push(terms.last())
    }
}

/// The terms without those that occurred before: of equal terms the first
/// stays.
pub open spec fn deduplicated(terms: Seq<TermView>) -> Seq<TermView>
    decreases terms.len(),
{
    if terms.len() == 0 {
        Seq::empty()
    } else if deduplicated(terms.drop_last()).contains(terms.last()) {
        deduplicated(terms.drop_last())
    } else {
        deduplicated(terms.drop_last()).push(terms.last())
    }
}

/// The terms without those that unify a term with itself.
pub open spec fn without_self_unifications(terms: Seq<TermView>) -> Seq<TermView>
    decreases terms.len(),
{
    if terms.len() == 0 {
        Seq::empty()
    } else if is_self_unification(terms.last()) {
        without_self_unifications(terms.drop_last())
    } else {
        without_self_unifications(terms.drop_last()).push(terms.last())
    }
}

/// The arguments that are left of a conjunction or disjunction before its
/// rules are applied. A conjunction loses the constant TRUE and repeated
/// arguments; both lose what unifies a term with itself. Any other
/// operation keeps its arguments.
pub open spec fn prepared(operation: OperationView) -> Seq<TermView> {
    if operation.operator == Operator::And {
        without_self_unifications(deduplicated(without_truth(operation.args)))
    } else if operation.operator == Operator::Or {
        without_self_unifications(operation.args)
    } else {
        operation.args
    }
}

/// Whether a variable's constraints are still pending.
pub open spec fn is_partial(context: Context, name: Seq<char>) -> bool {
    state_in(context.states, name) is Partial
}

/// The substitution after a conjunction has handed the constraint over to
/// it, or nothing if the constraint has to stay in the conjunction.
///
/// The constant TRUE and the unification of a term with itself are dropped
/// and bind nothing. Of `Unify`, `Eq` or `Neq` with the constrained variable
/// on one side, the variable is bound to the other side. Between two other
/// variables, both have to be partial; each that is not bound yet is bound
/// to the other. Between one other variable and a term that is no variable,
/// the variable has to be partial and is bound to the term. `Neq` binds to
/// the negation. A variable in any other state leaves the constraint where
/// it is.
pub open spec fn absorbed(
    context: Context,
    bindings: Seq<(Seq<char>, TermView)>,
    constraint: TermView,
) -> Option<Seq<(Seq<char>, TermView)>> {
    if constraint == TermView::truth() {
        Some(bindings)
    } else if constraint matches TermView::Expression(operation)
        && operation.operator.is_unification() && operation.args.len() == 2 {
        let operation = constraint->Expression_0;
        let left = operation.args[0];
        let right = operation.args[1];
        let invert = operation.operator == Operator::Neq;
        if left == right {
            Some(bindings)
        } else if left == TermView::Variable(context.this) {
            Some(bound(bindings, context.this, right, invert))
        } else if right == TermView::Variable(context.this) {
            Some(bound(bindings, context.this, left, invert))
        } else {
            match (variable_name(left), variable_name(right)) {
                (Some(l), Some(r)) => if is_partial(context, l) && is_partial(context, r) {
                    let first = if has_key(bindings, l) {
                        bindings
                    } else {
                        bound(bindings, l, right, invert)
                    };
                    Some(
                        if has_key(first, r) {
                            first
                        } else {
                            bound(first, r, left, invert)
                        },
                    )
                } else {
                    None
                },
                (Some(l), None) => if is_partial(context, l) {
                    Some(bound(bindings, l, right, invert))
                } else {
                    None
                },
                (None, Some(r)) => if is_partial(context, r) {
                    Some(bound(bindings, r, left, invert))
                } else {
                    None
                },
                (None, None) => None,
            }
        }
    } else {
        None
    }
}

/// The place, at `from` or after it, of the first constraint that the
/// conjunction hands over to the substitution; the number of constraints if
/// there is none.
pub open spec fn first_absorbed(
    context: Context,
    bindings: Seq<(Seq<char>, TermView)>,
    constraints: Seq<TermView>,
    from: int,
) -> int
    decreases constraints.len() - from,
{
    if from < 0 || from >= constraints.len() {
        constraints.len() as int
    } else if absorbed(context, bindings, constraints[from]) is Some {
        from
    } else {
        first_absorbed(context, bindings, constraints, from + 1)
    }
}

/// Whether the term is a negation.
pub open spec fn is_negation(term: TermView) -> bool {
    term matches TermView::Expression(operation) && operation.operator == Operator::Not
}

/// The inverse of an expression whose operator has one: the inverse
/// operator on the same arguments.
pub open spec fn inverted(term: TermView) -> Option<OperationView> {
    match term {
        TermView::Expression(operation) => match operation.operator.inverse_spec() {
            Some(inverse) => Some(OperationView { operator: inverse, args: operation.args }),
            None => None,
        },
        _ => None,
    }
}

/// The operation with the given operator on arguments that were rewritten.
pub open spec fn rebuilt(
    operator: Operator,
    args: Result<(Seq<TermView>, Seq<(Seq<char>, TermView)>), Failure>,
) -> Result<(OperationView, Seq<(Seq<char>, TermView)>), Failure> {
    match args {
        Ok((args, bindings)) => Ok((OperationView { operator, args }, bindings)),
        Err(error) => Err(error),
    }
}

/// One pass over a term: the rewritten term and the substitution after it.
pub open spec fn folded_term(
    context: Context,
    bindings: Seq<(Seq<char>, TermView)>,
    term: TermView,
    limit: nat,
) -> Result<(TermView, Seq<(Seq<char>, TermView)>), Failure>
    decreases limit, 0nat, 0nat,
{
    if limit == 0 {
        Err(Failure::LimitExceeded)
    } else {
        match dereferenced(bindings, term) {
            TermView::List(items) => match folded_args(
                context,
                bindings,
                items,
                items.len(),
                (limit - 1) as nat,
            ) {
                Ok((items, bindings)) => Ok((TermView::List(items), bindings)),
                Err(error) => Err(error),
            },
            TermView::Expression(operation) => match folded_operation(
                context,
                bindings,
                operation,
                (limit - 1) as nat,
            ) {
                Ok((operation, bindings)) => Ok((TermView::Expression(operation), bindings)),
                Err(error) => Err(error),
            },
            other => Ok((other, bindings)),
        }
    }
}

/// One pass over the first `count` of the terms, from left to right: the
/// rewritten terms and the substitution after them.
pub open spec fn folded_args(
    context: Context,
    bindings: Seq<(Seq<char>, TermView)>,
    terms: Seq<TermView>,
    count: nat,
    limit: nat,
) -> Result<(Seq<TermView>, Seq<(Seq<char>, TermView)>), Failure>
    decreases limit, 1nat, count,
{
    if count == 0 || count > terms.len() {
        Ok((Seq::empty(), bindings))
    } else {
        match folded_args(context, bindings, terms, (count - 1) as nat, limit) {
            Ok((done, bindings)) => match folded_term(
                context,
                bindings,
                terms[count - 1],
                limit,
            ) {
                Ok((term, bindings)) => Ok((done.push(term), bindings)),
                Err(error) => Err(error),
            },
            Err(error) => Err(error),
        }
    }
}

/// Passes over a term until one of them changes nothing: the term at rest
/// and the substitution after the last pass. The substitution is emptied
/// after every pass that changed the term.
pub open spec fn quiesced(
    context: Context,
    bindings: Seq<(Seq<char>, TermView)>,
    term: TermView,
    limit: nat,
) -> Result<(TermView, Seq<(Seq<char>, TermView)>), Failure>
    decreases limit, 2nat, 0nat,
{
    if limit == 0 {
        Err(Failure::LimitExceeded)
    } else {
        match folded_term(context, bindings, term, (limit - 1) as nat) {
            Ok((new, bindings)) => if new == term {
                Ok((new, bindings))
            } else {
                quiesced(context, Seq::empty(), new, (limit - 1) as nat)
            },
            Err(error) => Err(error),
        }
    }
}

/// One pass over an operation: the rewritten operation and the substitution
/// after it.
///
/// A conjunction or disjunction is made of constraints. What `prepared`
/// leaves of it decides: if nothing is left, the operation stays without
/// arguments; a single constraint takes the place of the operation, its
/// arguments rewritten; a conjunction of more hands the first constraint
/// that `absorbed` accepts over to the substitution, and the arguments that
/// are left are rewritten in both.
///
/// A comparison has two sides. Where exactly one side is a negation, which
/// has one argument, the inverse comparison of what is negated and the
/// other side takes its place. Otherwise, also where both sides are
/// negations, the comparison stays and its arguments are rewritten.
/// `Unify` has two sides as well, and its arguments are rewritten.
///
/// A negation has one argument, which is brought to rest first. If that is
/// an expression whose operator has an inverse, the inverse takes the place
/// of the negation, its arguments rewritten; if not, the negation stays and
/// its argument is rewritten.
///
/// Any other operation has its arguments rewritten.
///
/// An operation that does not have the shape asked for here is malformed,
/// and the pass ends with it.
pub open spec fn folded_operation(
    context: Context,
    bindings: Seq<(Seq<char>, TermView)>,
    operation: OperationView,
    limit: nat,
) -> Result<(OperationView, Seq<(Seq<char>, TermView)>), Failure>
    decreases limit, 3nat, 0nat,
{
    let operator = operation.operator;
    let args = prepared(operation);
    if operator == Operator::And || operator == Operator::Or {
        if !all_constraints(operation.args) {
            Err(Failure::Malformed(TermView::Expression(operation)))
        } else if args.len() == 0 {
            Ok((OperationView { operator, args }, bindings))
        } else if args.len() == 1 {
            let only = args[0]->Expression_0;
            rebuilt(
                only.operator,
                folded_args(context, bindings, only.args, only.args.len(), limit),
            )
        } else if operator == Operator::And {
            let chosen = first_absorbed(context, bindings, args, 0);
            if chosen < args.len() {
                let rest = args.remove(chosen);
                rebuilt(
                    operator,
                    folded_args(
                        context,
                        absorbed(context, bindings, args[chosen])->Some_0,
                        rest,
                        rest.len(),
                        limit,
                    ),
                )
            } else {
                rebuilt(operator, folded_args(context, bindings, args, args.len(), limit))
            }
        } else {
            rebuilt(operator, folded_args(context, bindings, args, args.len(), limit))
        }
    } else if operator.is_comparison() {
        if args.len() != 2 {
            Err(Failure::Malformed(TermView::Expression(operation)))
        } else if is_negation(args[0]) != is_negation(args[1]) {
            let negated = if is_negation(args[0]) {
                args[0]->Expression_0
            } else {
                args[1]->Expression_0
            };
            if negated.args.len() != 1 {
                Err(Failure::Malformed(TermView::Expression(negated)))
            } else {
                let sides = if is_negation(args[0]) {
                    seq![negated.args[0], args[1]]
                } else {
                    seq![args[0], negated.args[0]]
                };
                Ok(
                    (
                        OperationView { operator: operator.inverse_spec()->Some_0, args: sides },
                        bindings,
                    ),
                )
            }
        } else {
            rebuilt(operator, folded_args(context, bindings, args, args.len(), limit))
        }
    } else if operator == Operator::Not {
        if args.len() != 1 {
            Err(Failure::Malformed(TermView::Expression(operation)))
        } else {
            match quiesced(context, bindings, args[0], limit) {
                Ok((inner, bindings)) => match inverted(inner) {
                    Some(inverse) => rebuilt(
                        inverse.operator,
                        folded_args(context, bindings, inverse.args, inverse.args.len(), limit),
                    ),
                    None => rebuilt(
                        operator,
                        folded_args(context, bindings, args, args.len(), limit),
                    ),
                },
                Err(error) => Err(error),
            }
        }
    } else if operator == Operator::Unify && args.len() != 2 {
        Err(Failure::Malformed(TermView::Expression(operation)))
    } else {
        rebuilt(operator, folded_args(context, bindings, args, args.len(), limit))
    }
}

/// The term without a trivial constraint: the unification of the
/// constrained variable with itself is TRUE, and its unification with a
/// ground term is that term.
pub open spec fn without_trivial_constraint(this: Seq<char>, term: TermView) -> TermView {
    if term matches TermView::Expression(operation) && (operation.operator == Operator::Unify
        || operation.operator == Operator::Eq) && operation.args.len() == 2 {
        let operation = term->Expression_0;
        let left = operation.args[0];
        let right = operation.args[1];
        let variable = TermView::Variable(this);
        if left == variable && right == variable {
            TermView::truth()
        } else if left == variable && right.is_ground() {
            right
        } else if right == variable && left.is_ground() {
            left
        } else {
            term
        }
    } else {
        term
    }
}

/// The term as a conjunction: an expression that is no conjunction becomes
/// the conjunction of itself alone.
pub open spec fn as_conjunction(term: TermView) -> TermView {
    if term matches TermView::Expression(operation) && operation.operator != Operator::And {
        TermView::Expression(OperationView { operator: Operator::And, args: seq![term] })
    } else {
        term
    }
}

/// The canonical form of the constraints on the variable `this`: the term
/// brought to rest, without a trivial constraint, as a conjunction.
pub open spec fn simplified(
    this: Seq<char>,
    states: Map<Seq<char>, VariableStateView>,
    term: TermView,
    limit: nat,
) -> Result<TermView, Failure> {
    match quiesced(Context { this, states }, Seq::empty(), term, limit) {
        Ok((rest, _)) => Ok(as_conjunction(without_trivial_constraint(this, rest))),
        Err(error) => Err(error),
    }
}

/// The constraints that are simplified for a binding to the given value,
/// or nothing where the value is handed on as it is.
///
/// An expression is simplified, and has to be a conjunction. A temporary
/// variable is looked through: what is simplified is the value that the
/// bindings give to it, and they have to give one. Any other value is
/// handed on.
pub open spec fn constraints_of(
    entries: Seq<(Seq<char>, TermView)>,
    value: TermView,
) -> Option<Result<TermView, Failure>> {
    match value {
        TermView::Expression(operation) => Some(
            if operation.operator == Operator::And {
                Ok(value)
            } else {
                Err(Failure::Malformed(value))
            },
        ),
        TermView::Variable(name) => if is_temporary_name(name) {
            Some(
                if has_key(entries, name) {
                    Ok(value_of(entries, name))
                } else {
                    Err(Failure::Malformed(value))
                },
            )
        } else {
            None
        },
        _ => None,
    }
}

/// Whether the term is the constant FALSE.
pub open spec fn is_falsity(term: TermView) -> bool {
    term == TermView::Expression(OperationView::falsity())
}

/// The value under which the binding at the given place is presented.
/// Constraints are simplified for the bound variable and then written for
/// the placeholder `_this`.
pub open spec fn presented(
    entries: Seq<(Seq<char>, TermView)>,
    states: Map<Seq<char>, VariableStateView>,
    place: int,
    limit: nat,
) -> Result<TermView, Failure> {
    let name = entries[place].0;
    let value = entries[place].1;
    match constraints_of(entries, value) {
        None => Ok(value),
        Some(Err(error)) => Err(error),
        Some(Ok(constraints)) => match simplified(name, states, constraints, limit) {
            Ok(term) => Ok(renamed(term, name, this_name())),
            Err(error) => Err(error),
        },
    }
}

/// The first `count` bindings as they are presented, in order, without
/// those of temporary variables.
pub open spec fn presented_prefix(
    entries: Seq<(Seq<char>, TermView)>,
    states: Map<Seq<char>, VariableStateView>,
    count: nat,
    limit: nat,
) -> Result<Seq<(Seq<char>, TermView)>, Failure>
    decreases count,
{
    if count == 0 || count > entries.len() {
        Ok(Seq::empty())
    } else {
        match presented_prefix(entries, states, (count - 1) as nat, limit) {
            Ok(done) => if is_temporary_name(entries[count - 1].0) {
                Ok(done)
            } else {
                match presented(entries, states, count - 1, limit) {
                    Ok(value) => Ok(done.push((entries[count - 1].0, value))),
                    Err(error) => Err(error),
                }
            },
            Err(error) => Err(error),
        }
    }
}

/// Whether one of the presented values is the constant FALSE: the
/// bindings cannot be satisfied.
pub open spec fn is_unsatisfiable(presented: Seq<(Seq<char>, TermView)>) -> bool {
    exists|i: int| 0 <= i < presented.len() && is_falsity((#[trigger] presented[i]).1)
}

/// The bindings that the first `count` of the presented values make, bound
/// in order.
pub open spec fn bound_in_order(presented: Seq<(Seq<char>, TermView)>, count: nat) -> Seq<
    (Seq<char>, TermView),
>
    decreases count,
{
    if count == 0 || count > presented.len() {
        Seq::empty()
    } else {
        with_binding(
            bound_in_order(presented, (count - 1) as nat),
            presented[count - 1].0,
            presented[count - 1].1,
        )
    }
}

/// The bindings that the presented values make, or nothing if they cannot
/// be satisfied.
pub open spec fn assembled(presented: Seq<(Seq<char>, TermView)>) -> Option<
    Seq<(Seq<char>, TermView)>,
> {
    if is_unsatisfiable(presented) {
        None
    } else {
        Some(bound_in_order(presented, presented.len()))
    }
}

/// The bindings as they are handed to a consumer: each presented, and
/// nothing if one of them shows that they cannot be satisfied.
pub open spec fn simplified_bindings(
    entries: Seq<(Seq<char>, TermView)>,
    states: Map<Seq<char>, VariableStateView>,
    limit: nat,
) -> Result<Option<Seq<(Seq<char>, TermView)>>, Failure> {
    match presented_prefix(entries, states, entries.len(), limit) {
        Ok(presented) => Ok(assembled(presented)),
        Err(error) => Err(error),
    }
}

} // verus!
