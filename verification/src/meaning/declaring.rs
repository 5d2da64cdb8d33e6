//! Which declarations of states and events are sound.
use crate::meaning::blocks::{event_names_differ, field_names_differ, state_names_differ};
use crate::model::{Flat, StateNode, VariantDef};
use crate::validate::declarations::{
    compound_owner, event_errors, extra_initial_errors, field_errors, first_initial,
    initial_errors, initial_leaf, lemma_first_initial, nested_initial_errors, own_initial_errors,
    state_errors,
};
use crate::validate::lookup::{has_event, has_field, has_state};
use vstd::prelude::*;

verus! {

proof fn lemma_fields(variant: VariantDef, kind: Seq<char>, n: int)
    requires
        0 <= n <= variant.fields@.len(),
    ensures
        field_errors(variant, kind, n).len() == 0 <==> (forall|i: int, j: int|
            0 <= i < j < n ==> (#[trigger] variant.fields@[i]).name.name@ != (
            #[trigger] variant.fields@[j]).name.name@),
    decreases n,
{
    if n > 0 {
        lemma_fields(variant, kind, n - 1);
        let name = variant.fields@[n - 1].name.name@;
        if has_field(variant.fields@, n - 1, name) {
            let j = choose|j: int|
                0 <= j < n - 1 && (#[trigger] variant.fields@[j]).name.name@ == name;
            assert(variant.fields@[j].name.name@ == variant.fields@[n - 1].name.name@);
        }
    }
}

/// The fields of a state or an event give no message exactly where their names differ.
pub proof fn field_names_must_differ(variant: VariantDef, kind: Seq<char>)
    ensures
        field_errors(variant, kind, variant.fields@.len() as int).len() == 0
            <==> field_names_differ(variant),
{
    lemma_fields(variant, kind, variant.fields@.len() as int);
}

proof fn lemma_states(states: Seq<Flat>, n: int)
    requires
        0 <= n <= states.len(),
    ensures
        state_errors(states, n).len() == 0 <==> (forall|i: int, j: int|
            0 <= i < j < n ==> (#[trigger] states[i]).node.variant.name.name@ != (
            #[trigger] states[j]).node.variant.name.name@) && (forall|i: int|
            0 <= i < n ==> field_names_differ((#[trigger] states[i]).node.variant)),
    decreases n,
{
    if n > 0 {
        lemma_states(states, n - 1);
        let variant = states[n - 1].node.variant;
        field_names_must_differ(variant, "state"@);
        let own = field_errors(variant, "state"@, variant.fields@.len() as int);
        let before = state_errors(states, n - 1);
        let repeated = has_state(states, n - 1, variant.name.name@);
        assert(state_errors(states, n).len() == before.len() + own.len() + (if repeated {
            1int
        } else {
            0int
        }));
        if repeated {
            let j = choose|j: int|
                0 <= j < n - 1 && (#[trigger] states[j]).node.variant.name.name@
                    == variant.name.name@;
            assert(states[j].node.variant.name.name@ == states[n - 1].node.variant.name.name@);
        }
        if state_errors(states, n).len() == 0 {
            assert forall|i: int, j: int| 0 <= i < j < n implies (
            #[trigger] states[i]).node.variant.name.name@ != (
            #[trigger] states[j]).node.variant.name.name@ by {
                if j == n - 1 {
                    assert(!has_state(states, n - 1, variant.name.name@));
                }
            }
        }
    }
}

/// The states give no message of their own exactly where their names differ, wherever they are
/// nested, and the names of the fields of each state differ.
pub proof fn state_names_must_differ(states: Seq<Flat>)
    ensures
        state_errors(states, states.len() as int).len() == 0 <==> state_names_differ(states) && (
        forall|i: int|
            0 <= i < states.len() ==> field_names_differ((#[trigger] states[i]).node.variant)),
{
    lemma_states(states, states.len() as int);
}

proof fn lemma_events(events: Seq<VariantDef>, n: int)
    requires
        0 <= n <= events.len(),
    ensures
        event_errors(events, n).len() == 0 <==> (forall|i: int, j: int|
            0 <= i < j < n ==> (#[trigger] events[i]).name.name@ != (
            #[trigger] events[j]).name.name@) && (forall|i: int|
            0 <= i < n ==> field_names_differ(#[trigger] events[i])),
    decreases n,
{
    if n > 0 {
        lemma_events(events, n - 1);
        let variant = events[n - 1];
        field_names_must_differ(variant, "event"@);
        let own = field_errors(variant, "event"@, variant.fields@.len() as int);
        let before = event_errors(events, n - 1);
        let repeated = has_event(events, n - 1, variant.name.name@);
        assert(event_errors(events, n).len() == before.len() + own.len() + (if repeated {
            1int
        } else {
            0int
        }));
        if repeated {
            let j = choose|j: int|
                0 <= j < n - 1 && (#[trigger] events[j]).name.name@ == variant.name.name@;
            assert(events[j].name.name@ == events[n - 1].name.name@);
        }
        if event_errors(events, n).len() == 0 {
            assert forall|i: int, j: int| 0 <= i < j < n implies (#[trigger] events[i]).name.name@
                != (#[trigger] events[j]).name.name@ by {
                if j == n - 1 {
                    assert(!has_event(events, n - 1, variant.name.name@));
                }
            }
        }
    }
}

/// The events give no message of their own exactly where their names differ, and the names of the
/// fields of each event differ.
pub proof fn event_names_must_differ(events: Seq<VariantDef>)
    ensures
        event_errors(events, events.len() as int).len() == 0 <==> event_names_differ(events) && (
        forall|i: int| 0 <= i < events.len() ==> field_names_differ(#[trigger] events[i])),
{
    lemma_events(events, events.len() as int);
}

/// Whether one state of a group, and no other, is marked as initial.
pub open spec fn is_only_initial(nodes: Seq<StateNode>, k: int) -> bool {
    &&& 0 <= k < nodes.len()
    &&& forall|j: int| 0 <= j < nodes.len() ==> ((#[trigger] nodes[j]).initial <==> j == k)
}

/// Whether a group of states can be entered: one state is marked as initial, which carries no
/// payload where it is a leaf; and the children of each compound state can be entered, too.
pub open spec fn can_be_entered(nodes: Seq<StateNode>) -> bool
    decreases nodes,
{
    &&& exists|k: int| #[trigger]
        is_only_initial(nodes, k) && (nodes[k].children@.len() == 0
            ==> nodes[k].variant.fields@.len() == 0)
    &&& forall|k: int|
        0 <= k < nodes.len() && (#[trigger] nodes[k]).children@.len() > 0 ==> can_be_entered(
            nodes[k].children@,
        )
}

proof fn lemma_first(nodes: Seq<StateNode>, i: int)
    requires
        0 <= i,
    ensures
        match first_initial(nodes, i) {
            Some(k) => i <= k < nodes.len() && nodes[k].initial && forall|j: int|
                i <= j < k ==> !(#[trigger] nodes[j]).initial,
            None => forall|j: int| i <= j < nodes.len() ==> !(#[trigger] nodes[j]).initial,
        },
    decreases nodes.len() - i,
{
    if i < nodes.len() && !nodes[i].initial {
        lemma_first(nodes, i + 1);
    }
}

proof fn lemma_extra(nodes: Seq<StateNode>, owner: Seq<char>, first: int, n: int, k: int)
    requires
        0 <= first < k < n <= nodes.len(),
        nodes[k].initial,
    ensures
        extra_initial_errors(nodes, owner, first, n).len() > 0,
    decreases n,
{
    if k < n - 1 {
        lemma_extra(nodes, owner, first, n - 1, k);
    }
}

proof fn lemma_own(nodes: Seq<StateNode>, owner: Seq<char>, call_site: proc_macro2::Span)
    ensures
        own_initial_errors(nodes, owner, call_site).len() == 0 <==> exists|k: int| #[trigger]
            is_only_initial(nodes, k) && (initial_leaf(nodes[k]) matches Some(leaf)
                ==> leaf.variant.fields@.len() == 0),
        forall|k: int| #[trigger]
            is_only_initial(nodes, k) ==> first_initial(nodes, 0) == Some(k),
{
    lemma_first(nodes, 0);
    assert forall|k: int| #[trigger] is_only_initial(nodes, k) implies first_initial(nodes, 0)
        == Some(k) by {
        assert(nodes[k].initial);
    }
    if let Some(first) = first_initial(nodes, 0) {
        lemma_first(nodes, first + 1);
        if let Some(second) = first_initial(nodes, first + 1) {
            lemma_extra(nodes, owner, first, nodes.len() as int, second);
            assert(own_initial_errors(nodes, owner, call_site).len() > 0);
            assert forall|k: int| !#[trigger] is_only_initial(nodes, k) by {
                if is_only_initial(nodes, k) {
                    assert(nodes[first].initial && nodes[second].initial);
                }
            }
        } else {
            assert(is_only_initial(nodes, first));
        }
    } else {
        assert forall|k: int| !#[trigger] is_only_initial(nodes, k) by {
            if is_only_initial(nodes, k) {
                assert(nodes[k].initial);
            }
        }
    }
}

proof fn lemma_nested(nodes: Seq<StateNode>, call_site: proc_macro2::Span, n: int)
    requires
        0 <= n <= nodes.len(),
    ensures
        nested_initial_errors(nodes, call_site, n).len() == 0 <==> (forall|k: int|
            0 <= k < n && (#[trigger] nodes[k]).children@.len() > 0 ==> initial_errors(
                nodes[k].children@,
                compound_owner(nodes[k]),
                call_site,
            ).len() == 0),
    decreases n,
{
    if n > 0 {
        lemma_nested(nodes, call_site, n - 1);
        let before = nested_initial_errors(nodes, call_site, n - 1);
        let node = nodes[n - 1];
        if node.compound() {
            let own = initial_errors(node.children@, compound_owner(node), call_site);
            assert(nested_initial_errors(nodes, call_site, n) == before + own);
            assert((before + own).len() == before.len() + own.len());
        } else {
            assert(nested_initial_errors(nodes, call_site, n) == before);
        }
    }
}

proof fn lemma_plain(node: StateNode)
    requires
        node.children@.len() > 0 ==> can_be_entered(node.children@),
    ensures
        initial_leaf(node) matches Some(leaf) && (node.children@.len() > 0
            ==> leaf.variant.fields@.len() == 0),
    decreases node,
{
    if node.compound() {
        let nodes = node.children@;
        let k = choose|k: int| #[trigger]
            is_only_initial(nodes, k) && (nodes[k].children@.len() == 0
                ==> nodes[k].variant.fields@.len() == 0);
        lemma_first_initial(nodes, 0);
        lemma_first(nodes, 0);
        assert(nodes[k].initial);
        assert(first_initial(nodes, 0) == Some(k));
        lemma_plain(nodes[k]);
    }
}

/// A group of states gives no message on initial states, nor do those nested in it, exactly where
/// it can be entered.
pub proof fn groups_must_be_enterable(
    nodes: Seq<StateNode>,
    owner: Seq<char>,
    call_site: proc_macro2::Span,
)
    ensures
        initial_errors(nodes, owner, call_site).len() == 0 <==> can_be_entered(nodes),
    decreases nodes,
{
    let own = own_initial_errors(nodes, owner, call_site);
    let nested = nested_initial_errors(nodes, call_site, nodes.len() as int);
    assert(initial_errors(nodes, owner, call_site) == own + nested);
    assert((own + nested).len() == own.len() + nested.len());
    lemma_own(nodes, owner, call_site);
    lemma_nested(nodes, call_site, nodes.len() as int);
    assert forall|k: int| 0 <= k < nodes.len() && (#[trigger] nodes[k]).children@.len() > 0 implies (
    initial_errors(nodes[k].children@, compound_owner(nodes[k]), call_site).len() == 0
        <==> can_be_entered(nodes[k].children@)) by {
        groups_must_be_enterable(nodes[k].children@, compound_owner(nodes[k]), call_site);
    }
    if own.len() == 0 && nested.len() == 0 {
        let k = choose|k: int| #[trigger]
            is_only_initial(nodes, k) && (initial_leaf(nodes[k]) matches Some(leaf)
                ==> leaf.variant.fields@.len() == 0);
        assert(is_only_initial(nodes, k));
        if nodes[k].children@.len() == 0 {
            assert(initial_leaf(nodes[k]) == Some(nodes[k]));
        }
        assert(can_be_entered(nodes));
    }
    if can_be_entered(nodes) {
        let k = choose|k: int| #[trigger]
            is_only_initial(nodes, k) && (nodes[k].children@.len() == 0
                ==> nodes[k].variant.fields@.len() == 0);
        assert(nodes[k].initial);
        lemma_plain(nodes[k]);
        assert(is_only_initial(nodes, k) && (initial_leaf(nodes[k]) matches Some(leaf)
            ==> leaf.variant.fields@.len() == 0));
        assert(own.len() == 0);
        assert(nested.len() == 0);
    }
}

} // verus!
