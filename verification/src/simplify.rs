//! The simplifier: the rewriting rules as they are run.
use crate::bindings::{has_key, Bindings};
use crate::error::SimplifyError;
use crate::oracle::{VariableState, VariableStates};
use crate::prepare::{
    are_constraints, invert_operation, lemma_prepared_keeps_constraints, lemma_views_push,
    negated_by, prepare, variable_of,
};
use crate::rules::{
    absorbed, as_conjunction, bound, dereferenced, first_absorbed, folded_args,
    folded_operation, folded_term, is_constraint, is_partial, quiesced, simplified,
    without_trivial_constraint, Context, Failure,
};
use crate::terms::{
    same_term, views, Operation, OperationView, Operator, Symbol, Term, TermView, Value,
};
use vstd::prelude::*;

verus! {

/// What a rewritten term and the substitution after it amount to.
pub open spec fn term_outcome(
    result: Result<Term, SimplifyError>,
    bindings: Seq<(Seq<char>, TermView)>,
) -> Result<(TermView, Seq<(Seq<char>, TermView)>), Failure> {
    match result {
        Ok(term) => Ok((term@, bindings)),
        Err(error) => Err(error@),
    }
}

/// What a rewritten operation and the substitution after it amount to.
pub open spec fn operation_outcome(
    result: Result<Operation, SimplifyError>,
    bindings: Seq<(Seq<char>, TermView)>,
) -> Result<(OperationView, Seq<(Seq<char>, TermView)>), Failure> {
    match result {
        Ok(operation) => Ok((operation@, bindings)),
        Err(error) => Err(error@),
    }
}

/// What rewritten terms and the substitution after them amount to.
pub open spec fn terms_outcome(
    result: Result<Vec<Term>, SimplifyError>,
    bindings: Seq<(Seq<char>, TermView)>,
) -> Result<(Seq<TermView>, Seq<(Seq<char>, TermView)>), Failure> {
    match result {
        Ok(terms) => Ok((views(terms@), bindings)),
        Err(error) => Err(error@),
    }
}

/// Once the rewriting of a prefix of the arguments has failed, the
/// rewriting of every longer prefix fails in the same way.
pub proof fn lemma_folded_args_fails(
    context: Context,
    bindings: Seq<(Seq<char>, TermView)>,
    terms: Seq<TermView>,
    failed: nat,
    count: nat,
    limit: nat,
)
    requires
        folded_args(context, bindings, terms, failed, limit) is Err,
        failed <= count <= terms.len(),
    ensures
        folded_args(context, bindings, terms, count, limit) == folded_args(
            context,
            bindings,
            terms,
            failed,
            limit,
        ),
    decreases count,
{
    if failed < count {
        lemma_folded_args_fails(context, bindings, terms, failed, (count - 1) as nat, limit);
    }
}

/// Rewrites the constraints on one variable. It is made for one variable,
/// used for one term and then dropped; the substitution it holds is its
/// working state.
pub struct Simplifier<'a> {
    /// The local substitution.
    pub bindings: Bindings,
    /// The variable that the constraints are about.
    pub this_var: Symbol,
    /// The state of each variable.
    pub oracle: &'a VariableStates,
}

impl<'a> Simplifier<'a> {
    /// What stays the same while the simplifier works.
    pub open spec fn context(&self) -> Context {
        Context { this: self.this_var@, states: self.oracle@ }
    }

    /// A simplifier for the constraints on `this_var`, with nothing
    /// substituted yet.
    pub fn new(this_var: Symbol, oracle: &'a VariableStates) -> (r: Self)
        ensures
            r.context() == (Context { this: this_var@, states: oracle@ }),
            r.bindings@ == Seq::<(Seq<char>, TermView)>::empty(),
    {
        Simplifier { bindings: Bindings::new(), this_var, oracle }
    }

    /// Binds the variable to what the value stands for, or to its negation
    /// if `invert` is set.
    pub fn bind(&mut self, var: Symbol, value: Term, invert: bool)
        ensures
            final(self).bindings@ == bound(old(self).bindings@, var@, value@, invert),
            final(self).context() == old(self).context(),
    {
        let value = self.deref(&value);
        if invert {
            let mut args: Vec<Term> = Vec::new();
            args.push(value);
            let negated = Operation::new(Operator::Not, args).into_term();
            assert(negated@->Expression_0.args =~= seq![value@]);
            self.bindings.insert(var, negated);
        } else {
            self.bindings.insert(var, value);
        }
    }

    /// What the term stands for: the term bound to it, if it is a bound
    /// variable, and the term itself otherwise.
    pub fn deref(&self, term: &Term) -> (r: Term)
        ensures
            r@ == dereferenced(self.bindings@, term@),
    {
        match variable_of(term) {
            Some(name) => match self.bindings.get(name) {
                Some(value) => value.clone(),
                None => term.clone(),
            },
            None => term.clone(),
        }
    }

    /// Whether the substitution binds the variable.
    pub fn is_bound(&self, var: &Symbol) -> (b: bool)
        ensures
            b == has_key(self.bindings@, var@),
    {
        self.bindings.contains_key(var)
    }

    /// Whether the term is the variable that the constraints are about.
    pub fn is_this_var(&self, term: &Term) -> (b: bool)
        ensures
            b == (term@ == TermView::Variable(self.this_var@)),
    {
        match &term.value {
            Value::Variable(name) => *name == self.this_var,
            _ => false,
        }
    }

    /// Whether the constraints on the variable are still pending.
    fn is_partial(&self, var: &Symbol) -> (b: bool)
        ensures
            b == is_partial(self.context(), var@),
    {
        match self.oracle.variable_state(var) {
            VariableState::Partial => true,
            _ => false,
        }
    }

    /// Hands the constraint over to the substitution if the rules allow
    /// it, and says whether it did.
    fn absorb(&mut self, constraint: &Term) -> (taken: bool)
        ensures
            final(self).context() == old(self).context(),
            match absorbed(old(self).context(), old(self).bindings@, constraint@) {
                Some(bindings) => taken && final(self).bindings@ == bindings,
                None => !taken && final(self).bindings@ == old(self).bindings@,
            },
    {
        let operation = match &constraint.value {
            Value::Expression(operation) => operation,
            _ => {
                return false;
            },
        };
        assert(operation@.args.len() == operation.args.len());
        if operation.is_truth() {
            return true;
        }
        if !operation.operator.unifies() || operation.args.len() != 2 {
            return false;
        }
        let left = &operation.args[0];
        let right = &operation.args[1];
        assert(operation@.args[0] == left@ && operation@.args[1] == right@);
        let invert = operation.operator == Operator::Neq;
        if same_term(left, right) {
            return true;
        }
        if self.is_this_var(left) {
            self.bind(self.this_var.clone(), right.clone(), invert);
            return true;
        }
        if self.is_this_var(right) {
            self.bind(self.this_var.clone(), left.clone(), invert);
            return true;
        }
        match (variable_of(left), variable_of(right)) {
            (Some(l), Some(r)) => {
                if self.is_partial(l) && self.is_partial(r) {
                    if !self.is_bound(l) {
                        self.bind(l.clone(), right.clone(), invert);
                    }
                    if !self.is_bound(r) {
                        self.bind(r.clone(), left.clone(), invert);
                    }
                    true
                } else {
                    false
                }
            },
            (Some(l), None) => {
                if self.is_partial(l) {
                    self.bind(l.clone(), right.clone(), invert);
                    true
                } else {
                    false
                }
            },
            (None, Some(r)) => {
                if self.is_partial(r) {
                    self.bind(r.clone(), left.clone(), invert);
                    true
                } else {
                    false
                }
            },
            (None, None) => false,
        }
    }

    /// Looks for the first constraint that can be handed over to the
    /// substitution, hands it over and gives its place.
    fn choose_constraint(&mut self, constraints: &Vec<Term>) -> (r: Option<usize>)
        ensures
            final(self).context() == old(self).context(),
            match r {
                Some(chosen) => {
                    &&& chosen < constraints.len()
                    &&& chosen == first_absorbed(
                        old(self).context(),
                        old(self).bindings@,
                        views(constraints@),
                        0,
                    )
                    &&& Some(final(self).bindings@) == absorbed(
                        old(self).context(),
                        old(self).bindings@,
                        views(constraints@)[chosen as int],
                    )
                },
                None => {
                    &&& first_absorbed(
                        old(self).context(),
                        old(self).bindings@,
                        views(constraints@),
                        0,
                    ) == constraints.len()
                    &&& final(self).bindings@ == old(self).bindings@
                },
            },
    {
        let mut i: usize = 0;
        while i < constraints.len()
            invariant
                i <= constraints.len(),
                views(constraints@).len() == constraints.len(),
                self.context() == old(self).context(),
                self.bindings@ == old(self).bindings@,
                first_absorbed(old(self).context(), old(self).bindings@, views(constraints@), 0)
                    == first_absorbed(
                    old(self).context(),
                    old(self).bindings@,
                    views(constraints@),
                    i as int,
                ),
            decreases constraints.len() - i,
        {
            if self.absorb(&constraints[i]) {
                return Some(i);
            }
            i = i + 1;
        }
        None
    }

    /// One pass over each of the terms, from left to right.
    pub fn fold_args(&mut self, terms: &Vec<Term>, limit: usize) -> (r: Result<
        Vec<Term>,
        SimplifyError,
    >)
        ensures
            final(self).context() == old(self).context(),
            terms_outcome(r, final(self).bindings@) == folded_args(
                old(self).context(),
                old(self).bindings@,
                views(terms@),
                terms.len() as nat,
                limit as nat,
            ),
        decreases limit, 1nat, 0nat,
    {
        let mut out: Vec<Term> = Vec::new();
        let mut i: usize = 0;
        assert(views(out@) =~= Seq::empty());
        while i < terms.len()
            invariant
                i <= terms.len(),
                views(terms@).len() == terms.len(),
                self.context() == old(self).context(),
                folded_args(
                    old(self).context(),
                    old(self).bindings@,
                    views(terms@),
                    i as nat,
                    limit as nat,
                ) == Ok::<_, Failure>((views(out@), self.bindings@)),
            decreases terms.len() - i,
        {
            match self.fold_term(&terms[i], limit) {
                Ok(term) => {
                    proof {
                        lemma_views_push(out@, term);
                    }
                    out.push(term);
                },
                Err(error) => {
                    proof {
                        lemma_folded_args_fails(
                            old(self).context(),
                            old(self).bindings@,
                            views(terms@),
                            (i + 1) as nat,
                            terms.len() as nat,
                            limit as nat,
                        );
                    }
                    return Err(error);
                },
            }
            i = i + 1;
        }
        Ok(out)
    }

    /// One pass over a term.
    pub fn fold_term(&mut self, term: &Term, limit: usize) -> (r: Result<Term, SimplifyError>)
        ensures
            final(self).context() == old(self).context(),
            term_outcome(r, final(self).bindings@) == folded_term(
                old(self).context(),
                old(self).bindings@,
                term@,
                limit as nat,
            ),
        decreases limit, 0nat, 0nat,
    {
        if limit == 0 {
            return Err(SimplifyError::LimitExceeded);
        }
        let term = self.deref(term);
        match &term.value {
            Value::List(items) => match self.fold_args(items, limit - 1) {
                Ok(items) => Ok(Term::new(Value::List(items))),
                Err(error) => Err(error),
            },
            Value::Expression(operation) => match self.fold_operation(operation, limit - 1) {
                Ok(operation) => Ok(operation.into_term()),
                Err(error) => Err(error),
            },
            _ => Ok(term.clone()),
        }
    }

    /// Passes over a term until one of them changes nothing. The
    /// substitution is emptied after every pass that changed the term.
    pub fn simplify_partial_within(&mut self, term: Term, limit: usize) -> (r: Result<
        Term,
        SimplifyError,
    >)
        ensures
            final(self).context() == old(self).context(),
            term_outcome(r, final(self).bindings@) == quiesced(
                old(self).context(),
                old(self).bindings@,
                term@,
                limit as nat,
            ),
        decreases limit, 2nat, 0nat,
    {
        let ghost start = term@;
        let mut current = term;
        let mut left = limit;
        loop
            invariant
                left <= limit,
                start == term@,
                self.context() == old(self).context(),
                quiesced(old(self).context(), old(self).bindings@, start, limit as nat)
                    == quiesced(self.context(), self.bindings@, current@, left as nat),
            decreases left,
        {
            if left == 0 {
                return Err(SimplifyError::LimitExceeded);
            }
            let new = match self.fold_term(&current, left - 1) {
                Ok(new) => new,
                Err(error) => {
                    return Err(error);
                },
            };
            if same_term(&new, &current) {
                return Ok(new);
            }
            current = new;
            self.bindings.clear();
            left = left - 1;
        }
    }

    /// Passes over a term until one of them changes nothing, for a term
    /// whose rewriting comes to rest and meets no malformed node.
    /// `simplify_partial_within` makes no such demand.
    pub fn simplify_partial(&mut self, term: Term) -> (r: Term)
        requires
            quiesced(old(self).context(), old(self).bindings@, term@, usize::MAX as nat) is Ok,
        ensures
            final(self).context() == old(self).context(),
            Ok::<_, Failure>((r@, final(self).bindings@)) == quiesced(
                old(self).context(),
                old(self).bindings@,
                term@,
                usize::MAX as nat,
            ),
    {
        match self.simplify_partial_within(term, usize::MAX) {
            Ok(rest) => rest,
            Err(_) => vstd::pervasive::unreached(),
        }
    }

    /// One pass over an operation.
    pub fn fold_operation(&mut self, operation: &Operation, limit: usize) -> (r: Result<
        Operation,
        SimplifyError,
    >)
        ensures
            final(self).context() == old(self).context(),
            operation_outcome(r, final(self).bindings@) == folded_operation(
                old(self).context(),
                old(self).bindings@,
                operation@,
                limit as nat,
            ),
        decreases limit, 3nat, 0nat,
    {
        let operator = operation.operator;
        if operator == Operator::And || operator == Operator::Or {
            self.fold_connective(operation, limit)
        } else if operator.compares() {
            self.fold_comparison(operation, limit)
        } else if operator == Operator::Not {
            self.fold_negation(operation, limit)
        } else if operator == Operator::Unify && operation.args.len() != 2 {
            assert(operation@.args.len() == operation.args.len());
            Err(SimplifyError::Malformed(operation.clone().into_term()))
        } else {
            assert(operation@.args.len() == operation.args.len());
            match self.fold_args(&operation.args, limit) {
                Ok(args) => Ok(Operation::new(operator, args)),
                Err(error) => Err(error),
            }
        }
    }

    /// One pass over a conjunction or disjunction.
    fn fold_connective(&mut self, operation: &Operation, limit: usize) -> (r: Result<
        Operation,
        SimplifyError,
    >)
        requires
            operation.operator == Operator::And || operation.operator == Operator::Or,
        ensures
            final(self).context() == old(self).context(),
            operation_outcome(r, final(self).bindings@) == folded_operation(
                old(self).context(),
                old(self).bindings@,
                operation@,
                limit as nat,
            ),
        decreases limit, 2nat, 0nat,
    {
        let operator = operation.operator;
        if !are_constraints(&operation.args) {
            return Err(SimplifyError::Malformed(operation.clone().into_term()));
        }
        let mut args = prepare(operation);
        proof {
            lemma_prepared_keeps_constraints(operation@);
            assert(views(args@).len() == args.len());
        }
        if args.len() == 0 {
            return Ok(Operation::new(operator, args));
        }
        if args.len() == 1 {
            assert(is_constraint(views(args@)[0]));
            assert(views(args@)[0] == args[0]@);
            return match &args[0].value {
                Value::Expression(only) => {
                    assert(args[0]@->Expression_0 == only@);
                    match self.fold_args(&only.args, limit) {
                        Ok(folded) => Ok(Operation::new(only.operator, folded)),
                        Err(error) => Err(error),
                    }
                },
                _ => vstd::pervasive::unreached(),
            };
        }
        if operator == Operator::And {
            let ghost before = views(args@);
            match self.choose_constraint(&args) {
                Some(chosen) => {
                    args.remove(chosen);
                    assert(views(args@) =~= before.remove(chosen as int));
                },
                None => {},
            }
        }
        match self.fold_args(&args, limit) {
            Ok(folded) => Ok(Operation::new(operator, folded)),
            Err(error) => Err(error),
        }
    }

    /// One pass over a comparison.
    fn fold_comparison(&mut self, operation: &Operation, limit: usize) -> (r: Result<
        Operation,
        SimplifyError,
    >)
        requires
            operation.operator.is_comparison(),
        ensures
            final(self).context() == old(self).context(),
            operation_outcome(r, final(self).bindings@) == folded_operation(
                old(self).context(),
                old(self).bindings@,
                operation@,
                limit as nat,
            ),
        decreases limit, 2nat, 0nat,
    {
        let operator = operation.operator;
        assert(operation@.args.len() == operation.args.len());
        if operation.args.len() != 2 {
            return Err(SimplifyError::Malformed(operation.clone().into_term()));
        }
        let left = &operation.args[0];
        let right = &operation.args[1];
        assert(operation@.args[0] == left@ && operation@.args[1] == right@);
        let inverse = match operator.inverse() {
            Some(inverse) => inverse,
            None => vstd::pervasive::unreached(),
        };
        match (negated_by(left), negated_by(right)) {
            (Some(negated), None) => {
                assert(negated@.args.len() == negated.args.len());
                if negated.args.len() != 1 {
                    return Err(SimplifyError::Malformed(negated.clone().into_term()));
                }
                let mut sides: Vec<Term> = Vec::new();
                sides.push(negated.args[0].clone());
                sides.push(right.clone());
                assert(views(sides@) =~= seq![negated@.args[0], right@]);
                Ok(Operation::new(inverse, sides))
            },
            (None, Some(negated)) => {
                assert(negated@.args.len() == negated.args.len());
                if negated.args.len() != 1 {
                    return Err(SimplifyError::Malformed(negated.clone().into_term()));
                }
                let mut sides: Vec<Term> = Vec::new();
                sides.push(left.clone());
                sides.push(negated.args[0].clone());
                assert(views(sides@) =~= seq![left@, negated@.args[0]]);
                Ok(Operation::new(inverse, sides))
            },
            _ => match self.fold_args(&operation.args, limit) {
                Ok(args) => Ok(Operation::new(operator, args)),
                Err(error) => Err(error),
            },
        }
    }

    /// One pass over a negation.
    fn fold_negation(&mut self, operation: &Operation, limit: usize) -> (r: Result<
        Operation,
        SimplifyError,
    >)
        requires
            operation.operator == Operator::Not,
        ensures
            final(self).context() == old(self).context(),
            operation_outcome(r, final(self).bindings@) == folded_operation(
                old(self).context(),
                old(self).bindings@,
                operation@,
                limit as nat,
            ),
        decreases limit, 2nat, 1nat,
    {
        assert(operation@.args.len() == operation.args.len());
        if operation.args.len() != 1 {
            return Err(SimplifyError::Malformed(operation.clone().into_term()));
        }
        assert(operation@.args[0] == operation.args[0]@);
        let inner = match self.simplify_partial_within(operation.args[0].clone(), limit) {
            Ok(inner) => inner,
            Err(error) => {
                return Err(error);
            },
        };
        match invert_operation(&inner) {
            Some(inverse) => match self.fold_args(&inverse.args, limit) {
                Ok(args) => Ok(Operation::new(inverse.operator, args)),
                Err(error) => Err(error),
            },
            None => match self.fold_args(&operation.args, limit) {
                Ok(args) => Ok(Operation::new(Operator::Not, args)),
                Err(error) => Err(error),
            },
        }
    }
}

/// The term without a trivial constraint: the unification of the variable
/// `this` with itself is TRUE, and its unification with a ground term is
/// that term.
pub fn simplify_trivial_constraint(this: Symbol, term: Term) -> (r: Term)
    ensures
        r@ == without_trivial_constraint(this@, term@),
{
    let operation = match &term.value {
        Value::Expression(operation) => operation,
        _ => {
            return term;
        },
    };
    assert(operation@.args.len() == operation.args.len());
    if !(operation.operator == Operator::Unify || operation.operator == Operator::Eq)
        || operation.args.len() != 2 {
        return term;
    }
    let left = &operation.args[0];
    let right = &operation.args[1];
    assert(operation@.args[0] == left@ && operation@.args[1] == right@);
    let left_is_this = match &left.value {
        Value::Variable(name) => *name == this,
        _ => false,
    };
    let right_is_this = match &right.value {
        Value::Variable(name) => *name == this,
        _ => false,
    };
    if left_is_this && right_is_this {
        Operation::truth().into_term()
    } else if left_is_this && right.is_ground() {
        right.clone()
    } else if right_is_this && left.is_ground() {
        left.clone()
    } else {
        term
    }
}

/// The term as a conjunction: an expression that is no conjunction becomes
/// the conjunction of itself alone.
pub fn into_conjunction(term: Term) -> (r: Term)
    ensures
        r@ == as_conjunction(term@),
{
    let wrap = match &term.value {
        Value::Expression(operation) => operation.operator != Operator::And,
        _ => false,
    };
    if wrap {
        let ghost inner = term@;
        let mut args: Vec<Term> = Vec::new();
        args.push(term);
        let r = Operation::new(Operator::And, args).into_term();
        assert(r@->Expression_0.args =~= seq![inner]);
        r
    } else {
        term
    }
}

/// What a simplified term amounts to.
pub open spec fn simplify_outcome(result: Result<Term, SimplifyError>) -> Result<
    TermView,
    Failure,
> {
    match result {
        Ok(term) => Ok(term@),
        Err(error) => Err(error@),
    }
}

/// The canonical form of the constraints `term` on the variable `var`: the
/// term brought to rest, without a trivial constraint, as a conjunction.
///
/// `limit` bounds the nested steps of the rewriting: each descent into a
/// term or an operation and each further pass uses one. The result is
/// `LimitExceeded` when the rewriting needs more, and `Malformed` when it
/// meets a node that does not have the shape its operator asks for.
pub fn simplify_partial_within(
    var: &Symbol,
    term: Term,
    oracle: &VariableStates,
    limit: usize,
) -> (r: Result<Term, SimplifyError>)
    ensures
        simplify_outcome(r) == simplified(var@, oracle@, term@, limit as nat),
{
    let mut simplifier = Simplifier::new(var.clone(), oracle);
    match simplifier.simplify_partial_within(term, limit) {
        Ok(rest) => Ok(into_conjunction(simplify_trivial_constraint(var.clone(), rest))),
        Err(error) => Err(error),
    }
}

/// The canonical form of the constraints `term` on the variable `var`, for
/// a term whose rewriting comes to rest and meets no malformed node.
/// `simplify_partial_within` makes no such demand, and `simplify_orderly`
/// tells of a term beforehand whether it meets this one.
pub fn simplify_partial(var: &Symbol, term: Term, oracle: &VariableStates) -> (r: Term)
    requires
        simplified(var@, oracle@, term@, usize::MAX as nat) is Ok,
    ensures
        Ok::<TermView, Failure>(r@) == simplified(
            var@,
            oracle@,
            term@,
            usize::MAX as nat,
        ),
{
    match simplify_partial_within(var, term, oracle, usize::MAX) {
        Ok(simplified) => simplified,
        Err(_) => vstd::pervasive::unreached(),
    }
}

} // verus!
