//! What the query engine knows of each variable while a result is
//! simplified.
use crate::terms::{Symbol, Term, TermView};
use vstd::prelude::*;

verus! {

/// How far a variable has been resolved.
#[derive(Debug)]
pub enum VariableState {
    /// Nothing is known of the variable.
    Unbound,
    /// The variable stands for other unresolved variables and nothing more.
    Cycle,
    /// The variable is held by constraints that are still pending.
    Partial,
    /// The variable stands for a concrete term.
    Bound(Term),
}

/// A variable's state, as a mathematical value.
pub enum VariableStateView {
    Unbound,
    Cycle,
    Partial,
    Bound(TermView),
}

impl View for VariableState {
    type V = VariableStateView;

    open spec fn view(&self) -> VariableStateView {
        match self {
            VariableState::Unbound => VariableStateView::Unbound,
            VariableState::Cycle => VariableStateView::Cycle,
            VariableState::Partial => VariableStateView::Partial,
            VariableState::Bound(term) => VariableStateView::Bound(term@),
        }
    }
}

impl Clone for VariableState {
    fn clone(&self) -> (r: VariableState)
        ensures
            r@ == self@,
    {
        match self {
            VariableState::Unbound => VariableState::Unbound,
            VariableState::Cycle => VariableState::Cycle,
            VariableState::Partial => VariableState::Partial,
            VariableState::Bound(term) => VariableState::Bound(term.clone()),
        }
    }
}

/// The state of a variable under the given record: a variable that the
/// record does not mention is unbound.
pub open spec fn state_in(
    states: Map<Seq<char>, VariableStateView>,
    name: Seq<char>,
) -> VariableStateView {
    if states.contains_key(name) {
        states[name]
    } else {
        VariableStateView::Unbound
    }
}

/// The record that a list of notes amounts to, a later note replacing an
/// earlier one on the same variable.
pub open spec fn recorded(notes: Seq<(Seq<char>, VariableStateView)>) -> Map<
    Seq<char>,
    VariableStateView,
>
    decreases notes.len(),
{
    if notes.len() == 0 {
        Map::empty()
    } else {
        recorded(notes.drop_last()).insert(notes.last().0, notes.last().1)
    }
}

/// A settled record of the state of each variable, as the query engine
/// reports it. It answers for every variable and never changes while a
/// result is simplified.
#[derive(Debug)]
pub struct VariableStates {
    notes: Vec<(Symbol, VariableState)>,
}

impl VariableStates {
    /// The notes, in the order in which they were made.
    pub closed spec fn notes(&self) -> Seq<(Seq<char>, VariableStateView)> {
        Seq::new(self.notes.len() as nat, |i: int| (self.notes[i].0@, self.notes[i].1@))
    }
}

impl View for VariableStates {
    type V = Map<Seq<char>, VariableStateView>;

    open spec fn view(&self) -> Map<Seq<char>, VariableStateView> {
        recorded(self.notes())
    }
}

impl VariableStates {
    /// The record in which every variable is unbound.
    pub fn new() -> (r: VariableStates)
        ensures
            r@ == Map::<Seq<char>, VariableStateView>::empty(),
    {
        let r = VariableStates { notes: Vec::new() };
        assert(r.notes() =~= Seq::empty());
        r
    }

    /// Records the state of a variable, in place of what was recorded of
    /// it before.
    pub fn set(&mut self, variable: Symbol, state: VariableState)
        ensures
            final(self)@ == old(self)@.insert(variable@, state@),
    {
        let ghost before = self.notes();
        self.notes.push((variable, state));
        proof {
            let after = self.notes();
            assert(after =~= before.push((variable@, state@)));
            assert(after.drop_last() =~= before);
        }
    }

    /// The state of the variable.
    pub fn variable_state(&self, variable: &Symbol) -> (r: VariableState)
        ensures
            r@ == state_in(self@, variable@),
    {
        let mut i: usize = self.notes.len();
        proof {
            assert(self.notes().take(i as int) =~= self.notes());
        }
        while i > 0
            invariant
                i <= self.notes.len(),
                self.notes().len() == self.notes.len(),
                state_in(self@, variable@) == state_in(
                    recorded(self.notes().take(i as int)),
                    variable@,
                ),
            decreases i,
        {
            let ghost prefix = self.notes().take(i as int);
            i = i - 1;
            proof {
                assert(prefix.drop_last() =~= self.notes().take(i as int));
                assert(prefix.last() == self.notes()[i as int]);
            }
            if self.notes[i].0 == *variable {
                return self.notes[i].1.clone();
            }
        }
        VariableState::Unbound
    }
}

} // verus!
