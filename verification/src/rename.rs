//! Renaming a variable throughout a term, and the placeholder `_this`.
use crate::terms::{
    this_name, views, Operation, OperationView, Symbol, Term, TermView, Value,
};
use vstd::prelude::*;

verus! {

/// The term with every variable `from` renamed to `to`. A rest variable
/// keeps its name.
pub open spec fn renamed(term: TermView, from: Seq<char>, to: Seq<char>) -> TermView
    decreases term,
{
    match term {
        TermView::Variable(name) => TermView::Variable(
            if name == from {
                to
            } else {
                name
            },
        ),
        TermView::List(items) => TermView::List(renamed_all(items, from, to)),
        TermView::Expression(operation) => TermView::Expression(
            OperationView {
                operator: operation.operator,
                args: renamed_all(operation.args, from, to),
            },
        ),
        _ => term,
    }
}

/// Each of the terms with every variable `from` renamed to `to`.
pub open spec fn renamed_all(terms: Seq<TermView>, from: Seq<char>, to: Seq<char>) -> Seq<
    TermView,
>
    decreases terms,
{
    Seq::new(
        terms.len(),
        |i: int|
            if 0 <= i < terms.len() {
                renamed(terms[i], from, to)
            } else {
                arbitrary()
            },
    )
}

/// Whether the name occurs in the term as a variable.
pub open spec fn mentions(term: TermView, name: Seq<char>) -> bool
    decreases term,
{
    match term {
        TermView::Variable(n) => n == name,
        TermView::List(items) => exists|i: int|
            0 <= i < items.len() && mentions(#[trigger] items[i], name),
        TermView::Expression(operation) => exists|i: int|
            0 <= i < operation.args.len() && mentions(#[trigger] operation.args[i], name),
        _ => false,
    }
}

/// Each of the terms with every variable `from` renamed to `to`.
pub fn rename_terms(terms: &Vec<Term>, from: &Symbol, to: &Symbol) -> (r: Vec<Term>)
    ensures
        views(r@) == renamed_all(views(terms@), from@, to@),
    decreases terms,
{
    let mut out: Vec<Term> = Vec::new();
    let mut i: usize = 0;
    while i < terms.len()
        invariant
            i <= terms.len(),
            out.len() == i,
            forall|j: int| 0 <= j < i ==> out[j]@ == renamed(terms[j]@, from@, to@),
        decreases terms.len() - i,
    {
        out.push(rename_variable(&terms[i], from, to));
        i = i + 1;
    }
    assert(views(out@) =~= renamed_all(views(terms@), from@, to@));
    out
}

/// The term with every variable `from` renamed to `to`.
pub fn rename_variable(term: &Term, from: &Symbol, to: &Symbol) -> (r: Term)
    ensures
        r@ == renamed(term@, from@, to@),
    decreases term,
{
    match &term.value {
        Value::Variable(name) => {
            if *name == *from {
                Term::new(Value::Variable(to.clone()))
            } else {
                term.clone()
            }
        },
        Value::List(items) => Term::new(Value::List(rename_terms(items, from, to))),
        Value::Expression(operation) => Term::new(
            Value::Expression(
                Operation::new(operation.operator, rename_terms(&operation.args, from, to)),
            ),
        ),
        _ => term.clone(),
    }
}

/// Renames one variable to the placeholder `_this`.
pub struct VariableSubber {
    pub this_var: Symbol,
}

impl VariableSubber {
    /// The renaming of `this_var` to the placeholder.
    pub fn new(this_var: Symbol) -> (r: VariableSubber)
        ensures
            r.this_var@ == this_var@,
    {
        VariableSubber { this_var }
    }

    /// The placeholder for `this_var`, and any other variable as it is.
    pub fn fold_variable(&self, v: Symbol) -> (r: Symbol)
        ensures
            r@ == if v@ == self.this_var@ {
                this_name()
            } else {
                v@
            },
    {
        if v == self.this_var {
            Symbol::this()
        } else {
            v
        }
    }

    /// The term with `this_var` renamed to the placeholder.
    pub fn fold_term(&self, term: &Term) -> (r: Term)
        ensures
            r@ == renamed(term@, self.this_var@, this_name()),
    {
        rename_variable(term, &self.this_var, &Symbol::this())
    }
}

/// The term with the variable `this` renamed to the placeholder `_this`.
pub fn sub_this(this: Symbol, term: Term) -> (r: Term)
    ensures
        r@ == renamed(term@, this@, this_name()),
{
    let placeholder = Symbol::this();
    let unchanged = match &term.value {
        Value::Variable(name) => *name == placeholder,
        _ => false,
    };
    if unchanged {
        return term;
    }
    VariableSubber::new(this).fold_term(&term)
}

/// The term with the placeholder `_this` renamed to the given variable:
/// what undoes `sub_this`.
pub fn restore_this(variable: Symbol, term: Term) -> (r: Term)
    ensures
        r@ == renamed(term@, this_name(), variable@),
{
    rename_variable(&term, &Symbol::this(), &variable)
}

/// Renaming a variable to a name that the term does not mention, and then
/// that name back to the variable, gives the term again.
pub proof fn lemma_rename_round_trip(term: TermView, from: Seq<char>, to: Seq<char>)
    requires
        !mentions(term, to),
    ensures
        renamed(renamed(term, from, to), to, from) == term,
    decreases term,
{
    match term {
        TermView::List(items) => {
            assert forall|i: int| 0 <= i < items.len() implies renamed(
                renamed(items[i], from, to),
                to,
                from,
            ) == items[i] by {
                lemma_rename_round_trip(items[i], from, to);
            }
            assert(renamed_all(renamed_all(items, from, to), to, from) =~= items);
        },
        TermView::Expression(operation) => {
            let args = operation.args;
            assert forall|i: int| 0 <= i < args.len() implies renamed(
                renamed(args[i], from, to),
                to,
                from,
            ) == args[i] by {
                lemma_rename_round_trip(args[i], from, to);
            }
            assert(renamed_all(renamed_all(args, from, to), to, from) =~= args);
        },
        _ => {},
    }
}

/// Writing the placeholder for a variable and the variable for the
/// placeholder again gives back a term that did not mention the
/// placeholder.
pub proof fn lemma_placeholder_round_trip(term: TermView, variable: Seq<char>)
    requires
        !mentions(term, this_name()),
    ensures
        renamed(renamed(term, variable, this_name()), this_name(), variable) == term,
{
    lemma_rename_round_trip(term, variable, this_name());
}

} // verus!
