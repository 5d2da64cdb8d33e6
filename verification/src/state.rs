//! States, events and callbacks of a running machine.
use crate::model::{flats, Flat, MachineDef};
use crate::table::Table;
use crate::validate::coverage::{ancestor, find_parent};
use crate::validate::declarations::{find_initial, resolve_initial_leaf};
use crate::validate::lookup::find_state;
use crate::validate::states_of;
use crate::valid::{
    ancestors_are_compound, is_within, lemma_found_by_name, machines_start_in_a_leaf, starts_in,
    state_name, valid,
};
use vstd::prelude::*;

verus! {

/// An active leaf: its position among the states, and its payload in declared order.
#[derive(Debug, PartialEq, Eq)]
pub struct State<V> {
    pub id: usize,
    pub payload: Vec<V>,
}

/// An event: its position among the declared events, and its payload in declared order.
#[derive(Debug, PartialEq, Eq)]
pub struct Event<V> {
    pub id: usize,
    pub payload: Vec<V>,
}

/// Whether each value is a clone of the other at its place.
pub open spec fn clones<V: Clone>(from: Seq<V>, to: Seq<V>) -> bool {
    &&& from.len() == to.len()
    &&& forall|i: int| 0 <= i < from.len() ==> cloned(#[trigger] from[i], to[i])
}

/// Whether a state is a clone of another.
pub open spec fn same_state<V: Clone>(from: State<V>, to: State<V>) -> bool {
    from.id == to.id && clones(from.payload@, to.payload@)
}

/// Whether an event is a clone of another.
pub open spec fn same_event<V: Clone>(from: Event<V>, to: Event<V>) -> bool {
    from.id == to.id && clones(from.payload@, to.payload@)
}

fn clone_all<V: Clone>(values: &Vec<V>) -> (copy: Vec<V>)
    ensures
        clones(values@, copy@),
{
    let mut copy: Vec<V> = Vec::new();
    let mut i: usize = 0;
    while i < values.len()
        invariant
            i <= values@.len(),
            copy@.len() == i,
            forall|k: int| 0 <= k < i ==> cloned(#[trigger] values@[k], copy@[k]),
        decreases values@.len() - i,
    {
        copy.push(values[i].clone());
        i = i + 1;
    }
    copy
}

impl<V: Clone> Clone for State<V> {
    fn clone(&self) -> (copy: State<V>)
        ensures
            same_state(*self, copy),
    {
        State { id: self.id, payload: clone_all(&self.payload) }
    }
}

impl<V: Clone> Clone for Event<V> {
    fn clone(&self) -> (copy: Event<V>)
        ensures
            same_event(*self, copy),
    {
        Event { id: self.id, payload: clone_all(&self.payload) }
    }
}

/// The callbacks of a table: guards decide whether a row applies, effect factories compute the
/// external work of a transition. Both are named as in the table and get the payload values that
/// the row names.
pub trait Context<V, F> {
    fn guard(&self, name: &str, arguments: &Vec<&V>) -> bool;

    fn effect(&self, name: &str, arguments: &Vec<&V>) -> F;
}

/// The context of a table without callbacks.
#[derive(Clone, Copy, Debug, PartialEq, Eq)]
pub struct NoContext;

impl<V> Context<V, ()> for NoContext {
    fn guard(&self, name: &str, arguments: &Vec<&V>) -> (answer: bool)
        ensures
            !answer,
    {
        false
    }

    fn effect(&self, name: &str, arguments: &Vec<&V>) {
    }
}

/// Whether a state can be active: it is a declared leaf with a value for each payload field.
pub open spec fn admits<V>(definition: MachineDef, state: State<V>) -> bool {
    &&& state.id < states_of(definition).len()
    &&& !states_of(definition)[state.id as int].node.compound()
    &&& state.payload@.len() == states_of(definition)[state.id as int].node.variant.fields@.len()
}

/// Whether an event is a declared one with a value for each payload field.
pub open spec fn accepts<V>(definition: MachineDef, event: Event<V>) -> bool {
    &&& event.id < definition.events@.len()
    &&& event.payload@.len() == definition.events@[event.id as int].fields@.len()
}

impl<'a> Table<'a> {
    /// Whether a state can be active.
    pub fn admits<V>(&self, state: &State<V>) -> (admitted: bool)
        ensures
            admitted == admits(self.source(), *state),
    {
        let states = self.states();
        state.id < states.len() && !states[state.id].node.is_compound() && state.payload.len()
            == states[state.id].node.variant.fields.len()
    }

    /// Whether an event is a declared one, with its payload.
    pub fn accepts<V>(&self, event: &Event<V>) -> (accepted: bool)
        ensures
            accepted == accepts(self.source(), *event),
    {
        let events = &self.definition().events;
        event.id < events.len() && event.payload.len() == events[event.id].fields.len()
    }

    /// Whether one state is another or lies inside it.
    pub fn is_in(&self, state: usize, container: usize) -> (inside: bool)
        requires
            state < states_of(self.source()).len(),
            container < states_of(self.source()).len(),
        ensures
            inside == is_within(states_of(self.source()), state as int, container as int),
    {
        let states = self.states();
        let ghost all = states_of(self.source());
        let ghost own = state_name(all, state as int);
        let ghost target_name = state_name(all, container as int);
        let target = &states[container].node.variant.name.name;
        let mut current = &states[state].node.variant.name.name;
        let mut levels: usize = 0;
        let _ = self.definition();
        while levels < states.len()
            invariant
                flats(states@) == all,
                all == states_of(self.source()),
                valid(self.source()),
                state < all.len(),
                levels <= states@.len(),
                states@.len() == all.len(),
                own == state_name(all, state as int),
                target_name == state_name(all, container as int),
                target@ == target_name,
                ancestor(all, own, levels as nat) == Some(current@),
                forall|k: nat| k < levels ==> #[trigger] ancestor(all, own, k) != Some(target_name),
            decreases states@.len() - levels,
        {
            if *current == *target {
                return true;
            }
            match find_parent(states, current) {
                Some(parent) => {
                    assert(ancestor(all, own, (levels + 1) as nat) == Some(parent.name@));
                    current = &parent.name;
                    levels = levels + 1;
                },
                None => {
                    proof {
                        assert(ancestor(all, own, (levels + 1) as nat) is None);
                        assert forall|k: nat| #[trigger] ancestor(all, own, k) != Some(
                            target_name,
                        ) by {
                            if k > levels {
                                lemma_nothing_above(all, own, (levels + 1) as nat, k);
                            }
                        }
                    }
                    return false;
                },
            }
        }
        proof {
            assert forall|k: nat| #[trigger] ancestor(all, own, k) != Some(target_name) by {
                if k >= levels {
                    ancestors_are_compound(self.source(), state as int, k);
                }
            }
        }
        false
    }

    /// The leaf that a machine starts in.
    pub fn initial(&self) -> (leaf: usize)
        ensures
            starts_in(self.source(), leaf as int),
            !states_of(self.source())[leaf as int].node.compound(),
            states_of(self.source())[leaf as int].node.variant.fields@.len() == 0,
    {
        let definition = self.definition();
        let states = self.states();
        let ghost all = states_of(self.source());
        let ghost j = choose|j: int| #[trigger]
            starts_in(self.source(), j) && !all[j].node.compound()
                && all[j].node.variant.fields@.len() == 0;
        proof {
            machines_start_in_a_leaf(self.source());
            lemma_found_by_name(self.source(), j);
        }
        if let Some(root) = find_initial(&definition.states, 0) {
            if let Some(leaf) = resolve_initial_leaf(&definition.states[root]) {
                if let Some(found) = find_state(states, states.len(), &leaf.variant.name.name) {
                    return found;
                }
            }
        }
        0
    }
}

/// Above a state without a parent there is none.
proof fn lemma_nothing_above(states: Seq<Flat>, name: Seq<char>, from: nat, k: nat)
    requires
        ancestor(states, name, from) is None,
        from <= k,
    ensures
        ancestor(states, name, k) is None,
    decreases k,
{
    if from < k {
        lemma_nothing_above(states, name, from, (k - 1) as nat);
    }
}

} // verus!
