//! Which rows are for a leaf, and in which order they are tried, as the tree of states says it.
use crate::bindings::lemma_levels;
use crate::laws::{lemma_ancestor_of_ancestor, lemma_least_level};
use crate::meaning::blocks::{lemma_state_at, state_names_differ};
use crate::meaning::tree::{is_child, is_for_level, is_one_of, lies_below, the_tree_is_listed};
use crate::model::{Flat, MachineDef, RowEvent, RowSource};
use crate::valid::{
    listed, names_are_distinct, parent_listed, parents_are_compound, state_name, valid,
};
use crate::validate::coverage::{ancestor, applies, distance, precedes};
use crate::validate::states_of;
use vstd::prelude::*;

verus! {

pub(crate) proof fn lemma_differ(definition: MachineDef)
    requires
        valid(definition),
    ensures
        state_names_differ(states_of(definition)),
{
    names_are_distinct(definition);
    let states = states_of(definition);
    assert forall|i: int, j: int| 0 <= i < j < states.len() implies (
    #[trigger] states[i]).node.variant.name.name@ != (
    #[trigger] states[j]).node.variant.name.name@ by {
        assert(state_name(states, i) != state_name(states, j));
    }
}

proof fn lemma_above(definition: MachineDef, i: int, k: nat)
    requires
        state_names_differ(states_of(definition)),
        0 <= i < states_of(definition).len(),
    ensures
        ancestor(states_of(definition), state_name(states_of(definition), i), k) matches Some(name)
            ==> exists|j: int|
            #![trigger state_name(states_of(definition), j)]
            0 <= j <= i - k && state_name(states_of(definition), j) == name,
    decreases k,
{
    let states = states_of(definition);
    let own = state_name(states, i);
    if k == 0 {
        assert(state_name(states, i) == own);
    } else {
        lemma_above(definition, i, (k - 1) as nat);
        if let Some(below) = ancestor(states, own, (k - 1) as nat) {
            let j = choose|j: int|
                #![trigger state_name(states, j)]
                0 <= j <= i - (k - 1) && state_name(states, j) == below;
            lemma_state_at(states, states[j].node.variant.name, j);
            if states[j].parent is Some {
                parents_are_compound(definition, j);
                let p = choose|p: int| parent_listed(states, j, p);
                assert(state_name(states, p) == states[j].parent->0.name@);
            }
        }
    }
}

proof fn lemma_one_level(definition: MachineDef, l: int, low: nat, high: nat)
    requires
        state_names_differ(states_of(definition)),
        0 <= l < states_of(definition).len(),
        low < high,
        ancestor(states_of(definition), state_name(states_of(definition), l), low) is Some,
    ensures
        ancestor(states_of(definition), state_name(states_of(definition), l), low) != ancestor(
            states_of(definition),
            state_name(states_of(definition), l),
            high,
        ),
{
    let states = states_of(definition);
    let own = state_name(states, l);
    let name = ancestor(states, own, low)->0;
    if ancestor(states, own, high) == Some(name) {
        lemma_above(definition, l, low);
        let a = choose|a: int|
            #![trigger state_name(states, a)]
            0 <= a <= l - low && state_name(states, a) == name;
        lemma_ancestor_of_ancestor(states, own, low, (high - low) as nat);
        assert(low + (high - low) as nat == high);
        lemma_above(definition, a, (high - low) as nat);
        let b = choose|b: int|
            #![trigger state_name(states, b)]
            0 <= b <= a - (high - low) as nat && state_name(states, b) == name;
        assert(states[b].node.variant.name.name@ == states[a].node.variant.name.name@);
    }
}

pub(crate) proof fn lemma_in_tree(definition: MachineDef, i: int, j: int, k: nat)
    requires
        state_names_differ(states_of(definition)),
        0 <= i < states_of(definition).len(),
        0 <= j < states_of(definition).len(),
    ensures
        ancestor(states_of(definition), state_name(states_of(definition), i), k) == Some(
            state_name(states_of(definition), j),
        ) <==> lies_below(states_of(definition)[j].node, states_of(definition)[i].node, k),
    decreases k,
{
    let states = states_of(definition);
    let own = state_name(states, i);
    lemma_state_at(states, states[i].node.variant.name, i);
    lemma_state_at(states, states[j].node.variant.name, j);
    the_tree_is_listed(definition);
    if k > 0 {
        let low = (k - 1) as nat;
        if ancestor(states, own, k) == Some(state_name(states, j)) {
            lemma_above(definition, i, low);
            let below = ancestor(states, own, low)->0;
            let m = choose|m: int|
                #![trigger state_name(states, m)]
                0 <= m <= i - low && state_name(states, m) == below;
            lemma_state_at(states, states[m].node.variant.name, m);
            lemma_in_tree(definition, i, m, low);
            assert(states[m].parent is Some);
            assert(!is_one_of(definition.states@, None, states[m]));
            let p = choose|p: int| #[trigger] is_child(states, m, p);
            lemma_state_at(states, states[p].node.variant.name, p);
            assert(state_name(states, p) == state_name(states, j));
            assert(p == j);
            let c = choose|c: int|
                0 <= c < states[j].node.children@.len() && #[trigger] states[j].node.children@[c]
                    == states[m].node;
            assert(lies_below(states[j].node.children@[c], states[i].node, low));
        }
        if lies_below(states[j].node, states[i].node, k) {
            let c = choose|c: int|
                0 <= c < states[j].node.children@.len() && lies_below(
                    #[trigger] states[j].node.children@[c],
                    states[i].node,
                    low,
                );
            assert(listed(
                states,
                states[j].node.children@[c],
                Some(states[j].node.variant.name),
            ));
            let flat = Flat {
                node: states[j].node.children@[c],
                parent: Some(states[j].node.variant.name),
            };
            let m = choose|m: int| 0 <= m < states.len() && #[trigger] states[m] == flat;
            lemma_in_tree(definition, i, m, low);
            lemma_state_at(states, states[m].node.variant.name, m);
        }
    } else {
        if states[j].node == states[i].node {
            assert(state_name(states, i) == state_name(states, j));
        }
    }
}

/// A row that names a state is as far from a leaf as the leaf lies below that state.
pub proof fn distance_is_depth(definition: MachineDef, l: int, r: int, k: nat)
    requires
        state_names_differ(states_of(definition)),
        0 <= l < states_of(definition).len(),
        0 <= r < definition.rows@.len(),
        definition.rows@[r].source is State,
    ensures
        distance(
            definition.rows@[r],
            state_name(states_of(definition), l),
            states_of(definition),
        ) == Some(k) <==> is_for_level(definition, l, r, k),
        is_for_level(definition, l, r, k) ==> k < states_of(definition).len(),
{
    let states = states_of(definition);
    let own = state_name(states, l);
    let target = definition.rows@[r].source->State_0.name.name@;
    lemma_levels(states, own, target, 0);
    if distance(definition.rows@[r], own, states) == Some(k) {
        lemma_above(definition, l, k);
        let j = choose|j: int|
            #![trigger state_name(states, j)]
            0 <= j <= l - k && state_name(states, j) == target;
        lemma_in_tree(definition, l, j, k);
        assert(states[j].node.variant.name.name@ == target);
    }
    if is_for_level(definition, l, r, k) {
        let j = choose|j: int|
            0 <= j < states.len() && (#[trigger] states[j]).node.variant.name.name@ == target
                && lies_below(states[j].node, states[l].node, k);
        lemma_in_tree(definition, l, j, k);
        assert(state_name(states, j) == target);
        lemma_above(definition, l, k);
        assert forall|i: nat| 0 <= i < k implies #[trigger] ancestor(states, own, i) != Some(
            target,
        ) by {
            if ancestor(states, own, i) is Some {
                lemma_one_level(definition, l, i, k);
            }
        }
        lemma_least_level(states, own, target, 0, k);
    }
}

/// Whether row `r` is for an event in a leaf: it names the leaf or a state that the leaf lies in,
/// or is for any state; and it names the event or is for any event.
pub open spec fn is_taken(definition: MachineDef, l: int, e: int, r: int) -> bool {
    &&& definition.rows@[r].source is Any || exists|k: nat| is_for_level(definition, l, r, k)
    &&& match definition.rows@[r].event {
        RowEvent::Any => true,
        RowEvent::Event(pattern) => pattern.name.name@ == definition.events@[e].name.name@,
    }
}

/// Whether row `i` goes before row `j` in a leaf: it is for a deeper state, or for the same state
/// and stands first; a row for any state goes behind those for a state.
pub open spec fn goes_before(definition: MachineDef, l: int, i: int, j: int) -> bool {
    match (definition.rows@[i].source, definition.rows@[j].source) {
        (RowSource::Any, RowSource::Any) => i < j,
        (RowSource::Any, RowSource::State(_)) => false,
        (RowSource::State(_), RowSource::Any) => true,
        (RowSource::State(_), RowSource::State(_)) => exists|low: nat, high: nat| #[trigger]
            is_for_level(definition, l, i, low) && #[trigger] is_for_level(definition, l, j, high)
                && (low < high || low == high && i < j),
    }
}

/// The table is read by the tree: which rows are for an event in a leaf, and which of two goes
/// first.
pub proof fn the_table_is_read_by_the_tree(definition: MachineDef, l: int, e: int, i: int, j: int)
    requires
        state_names_differ(states_of(definition)),
        states_of(definition).len() <= usize::MAX,
        0 <= l < states_of(definition).len(),
        0 <= e < definition.events@.len(),
        0 <= i < definition.rows@.len(),
        0 <= j < definition.rows@.len(),
    ensures
        applies(
            definition.rows@[i],
            state_name(states_of(definition), l),
            definition.events@[e].name.name@,
            states_of(definition),
        ) <==> is_taken(definition, l, e, i),
        is_taken(definition, l, e, i) && is_taken(definition, l, e, j) ==> (precedes(
            definition.rows@,
            states_of(definition),
            state_name(states_of(definition), l),
            i,
            j,
        ) <==> goes_before(definition, l, i, j)),
{
    lemma_taken(definition, l, e, i);
    lemma_taken(definition, l, e, j);
    let states = states_of(definition);
    let own = state_name(states, l);
    if is_taken(definition, l, e, i) && is_taken(definition, l, e, j) {
        let left = distance(definition.rows@[i], own, states)->0;
        let right = distance(definition.rows@[j], own, states)->0;
        if definition.rows@[i].source is State {
            distance_is_depth(definition, l, i, left);
        }
        if definition.rows@[j].source is State {
            distance_is_depth(definition, l, j, right);
        }
        if definition.rows@[i].source is State && definition.rows@[j].source is State {
            if goes_before(definition, l, i, j) {
                let (low, high) = choose|low: nat, high: nat| #[trigger]
                    is_for_level(definition, l, i, low) && #[trigger] is_for_level(
                        definition,
                        l,
                        j,
                        high,
                    ) && (low < high || low == high && i < j);
                distance_is_depth(definition, l, i, low);
                distance_is_depth(definition, l, j, high);
            }
        }
    }
}

proof fn lemma_taken(definition: MachineDef, l: int, e: int, r: int)
    requires
        state_names_differ(states_of(definition)),
        0 <= l < states_of(definition).len(),
        0 <= e < definition.events@.len(),
        0 <= r < definition.rows@.len(),
    ensures
        applies(
            definition.rows@[r],
            state_name(states_of(definition), l),
            definition.events@[e].name.name@,
            states_of(definition),
        ) <==> is_taken(definition, l, e, r),
        is_taken(definition, l, e, r) ==> distance(
            definition.rows@[r],
            state_name(states_of(definition), l),
            states_of(definition),
        ) is Some,
{
    let states = states_of(definition);
    let own = state_name(states, l);
    if definition.rows@[r].source is State {
        if let Some(k) = distance(definition.rows@[r], own, states) {
            distance_is_depth(definition, l, r, k);
        }
        if exists|k: nat| is_for_level(definition, l, r, k) {
            let k = choose|k: nat| is_for_level(definition, l, r, k);
            distance_is_depth(definition, l, r, k);
        }
    }
}

} // verus!
