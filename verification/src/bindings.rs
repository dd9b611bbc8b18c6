//! Bindings: variables and the terms they stand for, in the order in which
//! the variables were first bound.
use crate::terms::{Symbol, Term, TermView};
use vstd::prelude::*;

verus! {

/// Whether some entry binds the name.
pub open spec fn has_key(entries: Seq<(Seq<char>, TermView)>, name: Seq<char>) -> bool {
    exists|i: int| 0 <= i < entries.len() && (#[trigger] entries[i]).0 == name
}

/// Whether the entry at the given place is the first that binds the name.
pub open spec fn is_first_key(
    entries: Seq<(Seq<char>, TermView)>,
    name: Seq<char>,
    i: int,
) -> bool {
    &&& 0 <= i < entries.len()
    &&& entries[i].0 == name
    &&& forall|j: int| 0 <= j < i ==> (#[trigger] entries[j]).0 != name
}

/// The place of the first entry that binds the name, where there is one.
pub open spec fn key_index(entries: Seq<(Seq<char>, TermView)>, name: Seq<char>) -> int {
    choose|i: int| is_first_key(entries, name, i)
}

/// The term bound to the name, where it is bound.
pub open spec fn value_of(entries: Seq<(Seq<char>, TermView)>, name: Seq<char>) -> TermView {
    entries[key_index(entries, name)].1
}

/// The entries after the name is bound to the value: a name that was bound
/// keeps its place and gets the new value, a new name goes to the end.
pub open spec fn with_binding(
    entries: Seq<(Seq<char>, TermView)>,
    name: Seq<char>,
    value: TermView,
) -> Seq<(Seq<char>, TermView)> {
    if has_key(entries, name) {
        entries.update(key_index(entries, name), (name, value))
    } else {
        entries.push((name, value))
    }
}

/// Whether no name is bound twice.
pub open spec fn distinct_keys(entries: Seq<(Seq<char>, TermView)>) -> bool {
    forall|i: int, j: int|
        0 <= i < j < entries.len() ==> (#[trigger] entries[i]).0 != (#[trigger] entries[j]).0
}

/// A mapping from variables to terms that remembers the order in which the
/// variables were first bound. Made by `new` and filled by `insert`, it
/// binds no variable twice.
#[derive(Debug)]
pub struct Bindings {
    entries: Vec<(Symbol, Term)>,
}

impl View for Bindings {
    type V = Seq<(Seq<char>, TermView)>;

    closed spec fn view(&self) -> Seq<(Seq<char>, TermView)> {
        Seq::new(self.entries.len() as nat, |i: int| (self.entries[i].0@, self.entries[i].1@))
    }
}

impl Bindings {
    /// The invariant of the type: no variable is bound twice.
    pub open spec fn well_formed(&self) -> bool {
        distinct_keys(self@)
    }

    /// No bindings.
    pub fn new() -> (r: Bindings)
        ensures
            r@ == Seq::<(Seq<char>, TermView)>::empty(),
            r.well_formed(),
    {
        let r = Bindings { entries: Vec::new() };
        assert(r@ =~= Seq::empty());
        r
    }

    /// The number of bound variables.
    pub fn len(&self) -> (n: usize)
        ensures
            n == self@.len(),
    {
        self.entries.len()
    }

    /// Whether no variable is bound.
    pub fn is_empty(&self) -> (b: bool)
        ensures
            b == (self@.len() == 0),
    {
        self.entries.len() == 0
    }

    /// The variable of the entry at the given place.
    pub fn key_at(&self, i: usize) -> (key: &Symbol)
        requires
            i < self@.len(),
        ensures
            key@ == self@[i as int].0,
    {
        &self.entries[i].0
    }

    /// The term of the entry at the given place.
    pub fn value_at(&self, i: usize) -> (value: &Term)
        requires
            i < self@.len(),
        ensures
            value@ == self@[i as int].1,
    {
        &self.entries[i].1
    }

    /// The place of the entry that binds the variable, if it is bound.
    fn find(&self, key: &Symbol) -> (r: Option<usize>)
        ensures
            match r {
                Some(i) => i < self@.len() && self@[i as int].0 == key@ && has_key(self@, key@)
                    && key_index(self@, key@) == i,
                None => !has_key(self@, key@),
            },
    {
        let mut i: usize = 0;
        while i < self.entries.len()
            invariant
                i <= self.entries.len(),
                self@.len() == self.entries.len(),
                forall|j: int| 0 <= j < i ==> (#[trigger] self@[j]).0 != key@,
            decreases self.entries.len() - i,
        {
            if self.entries[i].0 == *key {
                assert(is_first_key(self@, key@, i as int));
                return Some(i);
            }
            i = i + 1;
        }
        None
    }

    /// Whether the variable is bound.
    pub fn contains_key(&self, key: &Symbol) -> (b: bool)
        ensures
            b == has_key(self@, key@),
    {
        self.find(key).is_some()
    }

    /// The term bound to the variable, if it is bound.
    pub fn get(&self, key: &Symbol) -> (r: Option<&Term>)
        ensures
            match r {
                Some(value) => has_key(self@, key@) && value@ == value_of(self@, key@),
                None => !has_key(self@, key@),
            },
    {
        match self.find(key) {
            Some(i) => Some(&self.entries[i].1),
            None => None,
        }
    }

    /// Binds the variable to the term. A variable that was bound keeps its
    /// place and gets the new term; a new variable goes to the end.
    pub fn insert(&mut self, key: Symbol, value: Term)
        ensures
            final(self)@ == with_binding(old(self)@, key@, value@),
            old(self).well_formed() ==> final(self).well_formed(),
    {
        match self.find(&key) {
            Some(i) => {
                let ghost before = self@;
                self.entries.set(i, (key, value));
                assert(self@ =~= before.update(i as int, (key@, value@)));
            },
            None => {
                let ghost before = self@;
                self.entries.push((key, value));
                assert(self@ =~= before.push((key@, value@)));
            },
        }
    }

    /// Forgets every binding.
    pub fn clear(&mut self)
        ensures
            final(self)@ == Seq::<(Seq<char>, TermView)>::empty(),
            final(self).well_formed(),
    {
        self.entries.clear();
        assert(self@ =~= Seq::empty());
    }
}

} // verus!
