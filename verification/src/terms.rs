//! Terms, values and operations, with their mathematical views.
use vstd::prelude::*;

verus! {

/// The name of a variable.
#[derive(Debug)]
pub struct Symbol {
    pub name: String,
}

/// Whether a name belongs to a variable that the engine introduced for its
/// own use: such names start with an underscore.
pub open spec fn is_temporary_name(name: Seq<char>) -> bool {
    name.len() > 0 && name[0] == '_'
}

/// The name under which the constrained variable is shown to a consumer.
pub open spec fn this_name() -> Seq<char> {
    "_this"@
}

impl View for Symbol {
    type V = Seq<char>;

    open spec fn view(&self) -> Seq<char> {
        self.name@
    }
}

impl Symbol {
    /// The symbol with the given name.
    pub fn new(name: &str) -> (s: Symbol)
        ensures
            s@ == name@,
    {
        Symbol { name: name.to_owned() }
    }

    /// The placeholder symbol `_this`.
    pub fn this() -> (s: Symbol)
        ensures
            s@ == this_name(),
    {
        Symbol::new("_this")
    }

    /// Whether the variable is one the engine introduced for its own use.
    pub fn is_temporary_var(&self) -> (b: bool)
        ensures
            b == is_temporary_name(self@),
    {
        let s = self.name.as_str();
        !s.is_empty() && s.get_char(0) == '_'
    }
}

impl Clone for Symbol {
    fn clone(&self) -> (s: Symbol)
        ensures
            s@ == self@,
    {
        Symbol { name: self.name.clone() }
    }
}

impl PartialEq for Symbol {
    fn eq(&self, other: &Symbol) -> (r: bool) {
        self.name == other.name
    }
}

impl vstd::std_specs::cmp::PartialEqSpecImpl for Symbol {
    open spec fn obeys_eq_spec() -> bool {
        true
    }

    open spec fn eq_spec(&self, other: &Symbol) -> bool {
        self@ == other@
    }
}

/// The operator of an operation. The rules know the connectives `And`,
/// `Or` and `Not` and the relations from `Unify` to `Leq`; they rewrite the
/// arguments of any other operation and leave the operation as it is.
#[derive(Clone, Copy, Debug, PartialEq, Eq, Structural)]
pub enum Operator {
    /// Conjunction; of no arguments, the constant TRUE.
    And,
    /// Disjunction; of no arguments, the constant FALSE.
    Or,
    /// Negation of one argument.
    Not,
    /// Unification; to the rules the same as `Eq`.
    Unify,
    Eq,
    Neq,
    Gt,
    Geq,
    Lt,
    Leq,
    Isa,
    In,
    Dot,
    New,
    Cut,
    ForAll,
    Assign,
    Add,
    Sub,
    Mul,
    Div,
    Mod,
    Rem,
}

impl Operator {
    /// Whether the operator states that its two sides are, or are not, the
    /// same: `Unify`, `Eq` or `Neq`.
    pub open spec fn is_unification(self) -> bool {
        self == Operator::Unify || self == Operator::Eq || self == Operator::Neq
    }

    /// Whether the operator is one of the six comparisons whose negated
    /// arguments are rewritten: `Eq`, `Neq`, `Gt`, `Geq`, `Lt`, `Leq`.
    pub open spec fn is_comparison(self) -> bool {
        self == Operator::Eq || self == Operator::Neq || self == Operator::Gt
            || self == Operator::Geq || self == Operator::Lt || self == Operator::Leq
    }

    /// The logical inverse of a relational operator, and nothing for any
    /// other operator. `Unify` stands for `Eq`.
    pub open spec fn inverse_spec(self) -> Option<Operator> {
        match self {
            Operator::Unify | Operator::Eq => Some(Operator::Neq),
            Operator::Neq => Some(Operator::Eq),
            Operator::Gt => Some(Operator::Leq),
            Operator::Leq => Some(Operator::Gt),
            Operator::Geq => Some(Operator::Lt),
            Operator::Lt => Some(Operator::Geq),
            _ => None,
        }
    }

    /// Whether the operator is `Unify`, `Eq` or `Neq`.
    pub fn unifies(self) -> (b: bool)
        ensures
            b == self.is_unification(),
    {
        matches!(self, Operator::Unify | Operator::Eq | Operator::Neq)
    }

    /// Whether the operator is one of the six comparisons.
    pub fn compares(self) -> (b: bool)
        ensures
            b == self.is_comparison(),
    {
        matches!(
            self,
            Operator::Eq | Operator::Neq | Operator::Gt | Operator::Geq | Operator::Lt
                | Operator::Leq
        )
    }

    /// The logical inverse of a relational operator.
    pub fn inverse(self) -> (r: Option<Operator>)
        ensures
            r == self.inverse_spec(),
    {
        match self {
            Operator::Unify | Operator::Eq => Some(Operator::Neq),
            Operator::Neq => Some(Operator::Eq),
            Operator::Gt => Some(Operator::Leq),
            Operator::Leq => Some(Operator::Gt),
            Operator::Geq => Some(Operator::Lt),
            Operator::Lt => Some(Operator::Geq),
            _ => None,
        }
    }
}

/// A value: a constant, a list of terms, a variable or an expression.
#[derive(Debug)]
pub enum Value {
    /// A truth value.
    Boolean(bool),
    /// A whole number.
    Number(i64),
    /// A piece of text.
    String(String),
    /// Terms in a fixed order.
    List(Vec<Term>),
    /// An instance that lives outside, known by its number alone.
    ExternalInstance(u64),
    /// A variable.
    Variable(Symbol),
    /// A variable that stands for the rest of a list.
    RestVariable(Symbol),
    /// An operation.
    Expression(Operation),
}

/// An operator applied to an ordered list of arguments.
#[derive(Debug)]
pub struct Operation {
    pub operator: Operator,
    pub args: Vec<Term>,
}

/// A term: a value that is never changed once it is made.
#[derive(Debug)]
pub struct Term {
    pub value: Value,
}

/// What a term is, as a mathematical value.
pub enum TermView {
    Boolean(bool),
    Number(i64),
    String(Seq<char>),
    List(Seq<TermView>),
    ExternalInstance(u64),
    Variable(Seq<char>),
    RestVariable(Seq<char>),
    Expression(OperationView),
}

/// What an operation is, as a mathematical value.
pub struct OperationView {
    pub operator: Operator,
    pub args: Seq<TermView>,
}

/// The views of a sequence of terms, in order.
pub open spec fn views(terms: Seq<Term>) -> Seq<TermView>
    decreases terms,
{
    Seq::new(
        terms.len(),
        |i: int|
            if 0 <= i < terms.len() {
                terms[i]@
            } else {
                arbitrary()
            },
    )
}

impl View for Value {
    type V = TermView;

    open spec fn view(&self) -> TermView
        decreases self,
    {
        match self {
            Value::Boolean(b) => TermView::Boolean(*b),
            Value::Number(n) => TermView::Number(*n),
            Value::String(s) => TermView::String(s@),
            Value::List(items) => TermView::List(views(items@)),
            Value::ExternalInstance(id) => TermView::ExternalInstance(*id),
            Value::Variable(name) => TermView::Variable(name@),
            Value::RestVariable(name) => TermView::RestVariable(name@),
            Value::Expression(operation) => TermView::Expression(operation@),
        }
    }
}

impl View for Operation {
    type V = OperationView;

    open spec fn view(&self) -> OperationView
        decreases self,
    {
        OperationView { operator: self.operator, args: views(self.args@) }
    }
}

impl View for Term {
    type V = TermView;

    open spec fn view(&self) -> TermView
        decreases self,
    {
        self.value@
    }
}

impl TermView {
    /// Whether no variable occurs anywhere in the term.
    pub open spec fn is_ground(self) -> bool
        decreases self,
    {
        match self {
            TermView::Variable(_) | TermView::RestVariable(_) => false,
            TermView::List(items) => forall|i: int|
                0 <= i < items.len() ==> (#[trigger] items[i]).is_ground(),
            TermView::Expression(operation) => forall|i: int|
                0 <= i < operation.args.len() ==> (#[trigger] operation.args[i]).is_ground(),
            _ => true,
        }
    }

    /// The constant TRUE: the conjunction of nothing.
    pub open spec fn truth() -> TermView {
        TermView::Expression(OperationView::truth())
    }
}

impl OperationView {
    /// The constant TRUE: the conjunction of nothing.
    pub open spec fn truth() -> OperationView {
        OperationView { operator: Operator::And, args: Seq::empty() }
    }

    /// The constant FALSE: the disjunction of nothing.
    pub open spec fn falsity() -> OperationView {
        OperationView { operator: Operator::Or, args: Seq::empty() }
    }
}

/// A copy of each term, in order.
pub fn clone_terms(terms: &Vec<Term>) -> (r: Vec<Term>)
    ensures
        views(r@) == views(terms@),
    decreases terms,
{
    let mut out: Vec<Term> = Vec::new();
    let mut i: usize = 0;
    while i < terms.len()
        invariant
            i <= terms.len(),
            out.len() == i,
            forall|j: int| 0 <= j < i ==> out[j]@ == terms[j]@,
        decreases terms.len() - i,
    {
        out.push(terms[i].clone());
        i = i + 1;
    }
    assert(views(out@) =~= views(terms@));
    out
}

/// Whether two lists hold the same terms in the same order.
pub fn same_terms(left: &Vec<Term>, right: &Vec<Term>) -> (r: bool)
    ensures
        r == (views(left@) == views(right@)),
    decreases left,
{
    if left.len() != right.len() {
        assert(views(left@).len() != views(right@).len());
        return false;
    }
    let mut i: usize = 0;
    while i < left.len()
        invariant
            i <= left.len(),
            left.len() == right.len(),
            forall|j: int| 0 <= j < i ==> left[j]@ == right[j]@,
        decreases left.len() - i,
    {
        if !same_term(&left[i], &right[i]) {
            assert(views(left@)[i as int] != views(right@)[i as int]);
            return false;
        }
        i = i + 1;
    }
    assert(views(left@) =~= views(right@));
    true
}

/// Whether two values are the same, part by part.
pub fn same_value(left: &Value, right: &Value) -> (r: bool)
    ensures
        r == (left@ == right@),
    decreases left,
{
    match (left, right) {
        (Value::Boolean(a), Value::Boolean(b)) => *a == *b,
        (Value::Number(a), Value::Number(b)) => *a == *b,
        (Value::String(a), Value::String(b)) => *a == *b,
        (Value::List(a), Value::List(b)) => same_terms(a, b),
        (Value::ExternalInstance(a), Value::ExternalInstance(b)) => *a == *b,
        (Value::Variable(a), Value::Variable(b)) => *a == *b,
        (Value::RestVariable(a), Value::RestVariable(b)) => *a == *b,
        (Value::Expression(a), Value::Expression(b)) => same_operation(a, b),
        _ => false,
    }
}

/// Whether two operations have the same operator and the same arguments.
pub fn same_operation(left: &Operation, right: &Operation) -> (r: bool)
    ensures
        r == (left@ == right@),
    decreases left,
{
    left.operator == right.operator && same_terms(&left.args, &right.args)
}

/// Whether two terms are the same, part by part.
pub fn same_term(left: &Term, right: &Term) -> (r: bool)
    ensures
        r == (left@ == right@),
    decreases left,
{
    same_value(&left.value, &right.value)
}

/// Whether none of the terms holds a variable.
pub fn all_ground(terms: &Vec<Term>) -> (r: bool)
    ensures
        r == (forall|i: int|
            0 <= i < views(terms@).len() ==> (#[trigger] views(terms@)[i]).is_ground()),
    decreases terms,
{
    let mut i: usize = 0;
    while i < terms.len()
        invariant
            i <= terms.len(),
            forall|j: int| 0 <= j < i ==> (#[trigger] views(terms@)[j]).is_ground(),
        decreases terms.len() - i,
    {
        if !terms[i].is_ground() {
            assert(!views(terms@)[i as int].is_ground());
            return false;
        }
        i = i + 1;
    }
    true
}

impl Clone for Value {
    fn clone(&self) -> (r: Value)
        ensures
            r@ == self@,
        decreases self,
    {
        match self {
            Value::Boolean(b) => Value::Boolean(*b),
            Value::Number(n) => Value::Number(*n),
            Value::String(s) => Value::String(s.clone()),
            Value::List(items) => Value::List(clone_terms(items)),
            Value::ExternalInstance(id) => Value::ExternalInstance(*id),
            Value::Variable(name) => Value::Variable(name.clone()),
            Value::RestVariable(name) => Value::RestVariable(name.clone()),
            Value::Expression(operation) => Value::Expression(operation.clone()),
        }
    }
}

impl Clone for Operation {
    fn clone(&self) -> (r: Operation)
        ensures
            r@ == self@,
        decreases self,
    {
        Operation { operator: self.operator, args: clone_terms(&self.args) }
    }
}

impl Clone for Term {
    fn clone(&self) -> (r: Term)
        ensures
            r@ == self@,
        decreases self,
    {
        Term { value: self.value.clone() }
    }
}

impl PartialEq for Value {
    fn eq(&self, other: &Value) -> (r: bool) {
        same_value(self, other)
    }
}

impl vstd::std_specs::cmp::PartialEqSpecImpl for Value {
    open spec fn obeys_eq_spec() -> bool {
        true
    }

    open spec fn eq_spec(&self, other: &Value) -> bool {
        self@ == other@
    }
}

impl PartialEq for Operation {
    fn eq(&self, other: &Operation) -> (r: bool) {
        same_operation(self, other)
    }
}

impl vstd::std_specs::cmp::PartialEqSpecImpl for Operation {
    open spec fn obeys_eq_spec() -> bool {
        true
    }

    open spec fn eq_spec(&self, other: &Operation) -> bool {
        self@ == other@
    }
}

impl PartialEq for Term {
    fn eq(&self, other: &Term) -> (r: bool) {
        same_term(self, other)
    }
}

impl vstd::std_specs::cmp::PartialEqSpecImpl for Term {
    open spec fn obeys_eq_spec() -> bool {
        true
    }

    open spec fn eq_spec(&self, other: &Term) -> bool {
        self@ == other@
    }
}

impl Operation {
    /// The operation with the given operator and arguments.
    pub fn new(operator: Operator, args: Vec<Term>) -> (r: Operation)
        ensures
            r@ == (OperationView { operator, args: views(args@) }),
    {
        Operation { operator, args }
    }

    /// The constant TRUE: the conjunction of nothing.
    pub fn truth() -> (r: Operation)
        ensures
            r@ == OperationView::truth(),
    {
        let r = Operation { operator: Operator::And, args: Vec::new() };
        assert(r@.args =~= Seq::empty());
        r
    }

    /// The constant FALSE: the disjunction of nothing.
    pub fn falsity() -> (r: Operation)
        ensures
            r@ == OperationView::falsity(),
    {
        let r = Operation { operator: Operator::Or, args: Vec::new() };
        assert(r@.args =~= Seq::empty());
        r
    }

    /// Whether the operation is the constant TRUE.
    pub fn is_truth(&self) -> (b: bool)
        ensures
            b == (self@ == OperationView::truth()),
    {
        let b = self.operator == Operator::And && self.args.len() == 0;
        assert(self@.args.len() == self.args.len());
        assert(b ==> self@.args =~= Seq::empty());
        b
    }

    /// Whether the operation is the constant FALSE.
    pub fn is_falsity(&self) -> (b: bool)
        ensures
            b == (self@ == OperationView::falsity()),
    {
        let b = self.operator == Operator::Or && self.args.len() == 0;
        assert(self@.args.len() == self.args.len());
        assert(b ==> self@.args =~= Seq::empty());
        b
    }

    /// The term that is this operation.
    pub fn into_term(self) -> (t: Term)
        ensures
            t@ == TermView::Expression(self@),
    {
        Term { value: Value::Expression(self) }
    }
}

impl Term {
    /// The term with the given value.
    pub fn new(value: Value) -> (t: Term)
        ensures
            t@ == value@,
    {
        Term { value }
    }

    /// The value of the term.
    pub fn value(&self) -> (v: &Value)
        ensures
            v@ == self@,
    {
        &self.value
    }

    /// Whether no variable occurs anywhere in the term.
    pub fn is_ground(&self) -> (b: bool)
        ensures
            b == self@.is_ground(),
        decreases self,
    {
        match &self.value {
            Value::Variable(_) | Value::RestVariable(_) => false,
            Value::List(items) => {
                assert(self@->List_0 == views(items@));
                all_ground(items)
            },
            Value::Expression(operation) => {
                assert(self@->Expression_0.args == views(operation.args@));
                all_ground(&operation.args)
            },
            _ => true,
        }
    }
}

} // verus!
