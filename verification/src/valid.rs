//! What holds of every valid definition.
use crate::model::{
    flattened, CallableRole, FieldDef, Flat, MachineDef, RowOutcome, StateNode, VariantDef,
};
use crate::token::Ident;
use crate::validate::callables::Noted;
use crate::validate::coverage::{
    ancestor, coverage_errors, handled, missing_events, missing_pairs, reachable,
    unreachable_errors,
};
use crate::validate::declarations::{
    compound_owner, event_errors, extra_initial_errors, field_errors, first_initial, initial_errors,
    initial_leaf, lemma_first_initial, nested_initial_errors, own_initial_errors, state_errors,
};
use crate::validate::lookup::{has_event, has_state, last_state, lemma_last_state, named};
use crate::validate::rows::row_check;
use crate::validate::{
    collected, labels_with, noted_use, outcome_errors, reasons_with, states_of, table_of,
    validation_errors,
};
use vstd::prelude::*;

verus! {

/// Whether a definition makes a machine.
pub open spec fn valid(definition: MachineDef) -> bool {
    validation_errors(definition).len() == 0
}

/// The name of a state.
pub open spec fn state_name(states: Seq<Flat>, i: int) -> Seq<char> {
    states[i].node.variant.name.name@
}

/// The name of an event.
pub open spec fn event_name(definition: MachineDef, i: int) -> Seq<char> {
    definition.events@[i].name.name@
}

/// A valid definition has none of the messages that each of the checks can give.
pub proof fn lemma_no_messages(definition: MachineDef)
    requires
        valid(definition),
    ensures
        states_of(definition).len() > 0,
        definition.states@.len() > 0,
        definition.events@.len() > 0,
        state_errors(states_of(definition), states_of(definition).len() as int).len() == 0,
        event_errors(definition.events@, definition.events@.len() as int).len() == 0,
        initial_errors(definition.states@, "machine root"@, definition.call_site).len() == 0,
        table_of(definition).errors.len() == 0,
        coverage_errors(definition, states_of(definition)).len() == 0,
{
    let last = definition.states@.last();
    assert(flattened(definition.states@, None).len() >= 1 || definition.states@.len() == 0);
}

/// Whether the fields of a state or an event have different names.
pub open spec fn distinct_field_names(fields: Seq<FieldDef>) -> bool {
    forall|i: int, j: int|
        0 <= i < j < fields.len() ==> (#[trigger] fields[i]).name.name@ != (
        #[trigger] fields[j]).name.name@
}

proof fn lemma_field_names(variant: VariantDef, kind: Seq<char>, n: int)
    requires
        0 <= n <= variant.fields@.len(),
        field_errors(variant, kind, n).len() == 0,
    ensures
        forall|i: int, j: int|
            0 <= i < j < n ==> (#[trigger] variant.fields@[i]).name.name@ != (
            #[trigger] variant.fields@[j]).name.name@,
    decreases n,
{
    if n > 0 {
        lemma_field_names(variant, kind, n - 1);
    }
}

proof fn lemma_state_names(states: Seq<Flat>, n: int)
    requires
        0 <= n <= states.len(),
        state_errors(states, n).len() == 0,
    ensures
        forall|i: int, j: int|
            0 <= i < j < n ==> #[trigger] state_name(states, i) != #[trigger] state_name(states, j),
        forall|i: int|
            0 <= i < n ==> distinct_field_names((#[trigger] states[i]).node.variant.fields@),
    decreases n,
{
    if n > 0 {
        let variant = states[n - 1].node.variant;
        lemma_state_names(states, n - 1);
        lemma_field_names(variant, "state"@, variant.fields@.len() as int);
        assert(!has_state(states, n - 1, variant.name.name@));
        assert forall|i: int, j: int| 0 <= i < j < n implies #[trigger] state_name(states, i)
            != #[trigger] state_name(states, j) by {
            if j == n - 1 {
                assert(states[i].node.variant.name.name@ == state_name(states, i));
            }
        }
    }
}

proof fn lemma_event_names(definition: MachineDef, n: int)
    requires
        0 <= n <= definition.events@.len(),
        event_errors(definition.events@, n).len() == 0,
    ensures
        forall|i: int, j: int|
            0 <= i < j < n ==> #[trigger] event_name(definition, i) != #[trigger] event_name(
                definition,
                j,
            ),
        forall|i: int|
            0 <= i < n ==> distinct_field_names((#[trigger] definition.events@[i]).fields@),
    decreases n,
{
    if n > 0 {
        let variant = definition.events@[n - 1];
        lemma_event_names(definition, n - 1);
        lemma_field_names(variant, "event"@, variant.fields@.len() as int);
        assert(!has_event(definition.events@, n - 1, variant.name.name@));
        assert forall|i: int, j: int| 0 <= i < j < n implies #[trigger] event_name(definition, i)
            != #[trigger] event_name(definition, j) by {
            if j == n - 1 {
                assert(definition.events@[i].name.name@ == event_name(definition, i));
            }
        }
    }
}

/// No two states have one name, no two events have one name, and no two payload fields of one
/// state or event have one name.
pub proof fn names_are_distinct(definition: MachineDef)
    requires
        valid(definition),
    ensures
        forall|i: int, j: int|
            0 <= i < j < states_of(definition).len() ==> #[trigger] state_name(
                states_of(definition),
                i,
            ) != #[trigger] state_name(states_of(definition), j),
        forall|i: int, j: int|
            0 <= i < j < definition.events@.len() ==> #[trigger] event_name(definition, i)
                != #[trigger] event_name(definition, j),
        forall|i: int|
            0 <= i < states_of(definition).len() ==> distinct_field_names(
                (#[trigger] states_of(definition)[i]).node.variant.fields@,
            ),
        forall|i: int|
            0 <= i < definition.events@.len() ==> distinct_field_names(
                (#[trigger] definition.events@[i]).fields@,
            ),
{
    lemma_no_messages(definition);
    lemma_state_names(states_of(definition), states_of(definition).len() as int);
    lemma_event_names(definition, definition.events@.len() as int);
}

/// A state is found under its own name.
pub proof fn lemma_found_by_name(definition: MachineDef, i: int)
    requires
        valid(definition),
        0 <= i < states_of(definition).len(),
    ensures
        last_state(
            states_of(definition),
            states_of(definition).len() as int,
            state_name(states_of(definition), i),
        ) == Some(i),
{
    let states = states_of(definition);
    let name = state_name(states, i);
    names_are_distinct(definition);
    lemma_last_state(states, states.len() as int, name);
    assert(states[i].node.variant.name.name@ == name);
    let k = last_state(states, states.len() as int, name)->0;
    assert(state_name(states, k) == name);
}

proof fn lemma_no_missing_events(definition: MachineDef, states: Seq<Flat>, l: int, n: int)
    requires
        missing_events(definition, states, l, n).len() == 0,
    ensures
        forall|e: int|
            0 <= e < n ==> handled(
                definition.rows@,
                states,
                state_name(states, l),
                #[trigger] event_name(definition, e),
            ),
    decreases n,
{
    if n > 0 {
        lemma_no_missing_events(definition, states, l, n - 1);
        assert(definition.events@[n - 1].name.name@ == event_name(definition, n - 1));
    }
}

proof fn lemma_no_missing_pairs(definition: MachineDef, states: Seq<Flat>, n: int)
    requires
        n <= states.len(),
        missing_pairs(definition, states, n).len() == 0,
    ensures
        forall|l: int, e: int|
            0 <= l < n && 0 <= e < definition.events@.len() && !states[l].node.compound()
                ==> handled(
                definition.rows@,
                states,
                #[trigger] state_name(states, l),
                #[trigger] event_name(definition, e),
            ),
    decreases n,
{
    if n > 0 {
        if states[n - 1].node.compound() {
            lemma_no_missing_pairs(definition, states, n - 1);
        } else {
            let own = missing_events(definition, states, n - 1, definition.events@.len() as int);
            assert(missing_pairs(definition, states, n - 1).len() + own.len() == 0);
            lemma_no_missing_pairs(definition, states, n - 1);
            lemma_no_missing_events(
                definition,
                states,
                n - 1,
                definition.events@.len() as int,
            );
        }
    }
}

/// Whatever leaf is active, some row is for each event.
pub proof fn every_event_is_handled(definition: MachineDef, l: int, e: int)
    requires
        valid(definition),
        0 <= l < states_of(definition).len(),
        !states_of(definition)[l].node.compound(),
        0 <= e < definition.events@.len(),
    ensures
        handled(
            definition.rows@,
            states_of(definition),
            state_name(states_of(definition), l),
            event_name(definition, e),
        ),
{
    lemma_no_messages(definition);
    let states = states_of(definition);
    assert(missing_pairs(definition, states, states.len() as int).len() == 0);
    lemma_no_missing_pairs(definition, states, states.len() as int);
}

proof fn lemma_none_unreachable(definition: MachineDef, states: Seq<Flat>, n: int)
    requires
        unreachable_errors(definition, states, n).len() == 0,
    ensures
        forall|i: int| 0 <= i < n ==> #[trigger] reachable(definition, states, i),
    decreases n,
{
    if n > 0 {
        lemma_none_unreachable(definition, states, n - 1);
    }
}

/// Every row is tried for some event in some leaf: none is there in vain.
pub proof fn every_row_is_reachable(definition: MachineDef, i: int)
    requires
        valid(definition),
        0 <= i < definition.rows@.len(),
    ensures
        reachable(definition, states_of(definition), i),
{
    lemma_no_messages(definition);
    lemma_none_unreachable(definition, states_of(definition), definition.rows@.len() as int);
}

/// Whether the parent of state `i` is listed before it and has children.
pub open spec fn parent_listed(states: Seq<Flat>, i: int, j: int) -> bool {
    &&& 0 <= j < i
    &&& states[j].node.compound()
    &&& states[i].parent == Some(states[j].node.variant.name)
}

/// The parent of a listed state is the given one or is listed before it.
proof fn lemma_parents(nodes: Seq<StateNode>, parent: Option<Ident>)
    ensures
        forall|i: int|
            0 <= i < flattened(nodes, parent).len() ==> (#[trigger] flattened(
                nodes,
                parent,
            )[i]).parent == parent || exists|j: int|
                #[trigger] parent_listed(flattened(nodes, parent), i, j),
    decreases nodes,
{
    let all = flattened(nodes, parent);
    if nodes.len() > 0 {
        let node = nodes.last();
        let before = flattened(nodes.drop_last(), parent);
        let below = flattened(node.children@, Some(node.variant.name));
        let at = before.len() as int;
        lemma_parents(nodes.drop_last(), parent);
        lemma_parents(node.children@, Some(node.variant.name));
        assert(all == before.push(Flat { node, parent }) + below);
        assert forall|i: int| 0 <= i < all.len() implies (#[trigger] all[i]).parent == parent
            || exists|j: int| #[trigger] parent_listed(all, i, j) by {
            if i < at {
                assert(all[i] == before[i]);
                if before[i].parent != parent {
                    let j = choose|j: int| #[trigger] parent_listed(before, i, j);
                    assert(all[j] == before[j]);
                    assert(parent_listed(all, i, j));
                }
            } else if i > at {
                let k = i - at - 1;
                assert(all[i] == below[k]);
                assert(all[at].node == node);
                if below[k].parent == Some(node.variant.name) {
                    assert(node.compound());
                    assert(parent_listed(all, i, at));
                } else {
                    let j = choose|j: int| #[trigger] parent_listed(below, k, j);
                    assert(all[at + 1 + j] == below[j]);
                    assert(parent_listed(all, i, at + 1 + j));
                }
            }
        }
    }
}

/// The parent of a state is a compound state that is listed before it.
pub proof fn parents_are_compound(definition: MachineDef, i: int)
    requires
        0 <= i < states_of(definition).len(),
        states_of(definition)[i].parent is Some,
    ensures
        exists|j: int| parent_listed(states_of(definition), i, j),
{
    lemma_parents(definition.states@, None);
    assert(flattened(definition.states@, None)[i] == states_of(definition)[i]);
}

/// Whether state `j` is state `i` or one of its ancestors.
pub open spec fn is_within(states: Seq<Flat>, i: int, j: int) -> bool {
    exists|k: nat| #[trigger] ancestor(states, state_name(states, i), k) == Some(state_name(states, j))
}

/// The ancestors of a state are listed before it, the farther the earlier, and are compound.
pub proof fn ancestors_are_compound(definition: MachineDef, i: int, k: nat)
    requires
        valid(definition),
        0 <= i < states_of(definition).len(),
    ensures
        ancestor(states_of(definition), state_name(states_of(definition), i), k) matches Some(name)
            ==> exists|j: int|
            #![trigger state_name(states_of(definition), j)]
            0 <= j <= i - k && state_name(states_of(definition), j) == name && (k > 0
                ==> states_of(definition)[j].node.compound()),
    decreases k,
{
    let states = states_of(definition);
    let own = state_name(states, i);
    if k == 0 {
        assert(state_name(states, i) == own);
    } else {
        ancestors_are_compound(definition, i, (k - 1) as nat);
        if let Some(below) = ancestor(states, own, (k - 1) as nat) {
            let j = choose|j: int|
                #![trigger state_name(states, j)]
                0 <= j <= i - (k - 1) && state_name(states, j) == below;
            lemma_found_by_name(definition, j);
            if states[j].parent is Some {
                parents_are_compound(definition, j);
                let p = choose|p: int| parent_listed(states, j, p);
                assert(ancestor(states, own, k) == Some(state_name(states, p)));
            }
        }
    }
}

proof fn lemma_extra_initial(nodes: Seq<StateNode>, owner: Seq<char>, first: int, n: int, k: int)
    requires
        0 <= first < k < n <= nodes.len(),
        nodes[k].initial,
    ensures
        extra_initial_errors(nodes, owner, first, n).len() > 0,
    decreases n,
{
    if k < n - 1 {
        lemma_extra_initial(nodes, owner, first, n - 1, k);
    }
}

/// A group without messages has one initial state.
proof fn lemma_one_initial(nodes: Seq<StateNode>, owner: Seq<char>, call_site: proc_macro2::Span)
    requires
        own_initial_errors(nodes, owner, call_site).len() == 0,
    ensures
        first_initial(nodes, 0) matches Some(first) && 0 <= first < nodes.len() && nodes[first].initial
            && (forall|k: int| 0 <= k < nodes.len() && (#[trigger] nodes[k]).initial ==> k == first)
            && (initial_leaf(nodes[first]) matches Some(leaf) ==> leaf.variant.fields@.len() == 0),
{
    lemma_first_initial(nodes, 0);
    if let Some(first) = first_initial(nodes, 0) {
        lemma_before_first_initial(nodes, 0, first);
        lemma_first_initial(nodes, first + 1);
        if let Some(second) = first_initial(nodes, first + 1) {
            lemma_extra_initial(nodes, owner, first, nodes.len() as int, second);
        }
    }
}

proof fn lemma_before_first_initial(nodes: Seq<StateNode>, i: int, first: int)
    requires
        0 <= i,
        first_initial(nodes, i) == Some(first),
    ensures
        forall|k: int| i <= k < first ==> !(#[trigger] nodes[k]).initial,
    decreases nodes.len() - i,
{
    if i < nodes.len() && !nodes[i].initial {
        lemma_before_first_initial(nodes, i + 1, first);
    }
}

proof fn lemma_nested_groups(
    nodes: Seq<StateNode>,
    call_site: proc_macro2::Span,
    n: int,
    k: int,
)
    requires
        0 <= k < n <= nodes.len(),
        nested_initial_errors(nodes, call_site, n).len() == 0,
        nodes[k].compound(),
    ensures
        initial_errors(nodes[k].children@, compound_owner(nodes[k]), call_site).len() == 0,
    decreases n,
{
    let before = nested_initial_errors(nodes, call_site, n - 1);
    if nodes[n - 1].compound() {
        let own = initial_errors(nodes[n - 1].children@, compound_owner(nodes[n - 1]), call_site);
        assert(nested_initial_errors(nodes, call_site, n) == before + own);
        assert(before.len() + own.len() == 0);
    }
    if k < n - 1 {
        lemma_nested_groups(nodes, call_site, n - 1, k);
    }
}

/// Whether the group of states below a compound state has no messages.
spec fn sound_group(node: StateNode, call_site: proc_macro2::Span) -> bool {
    node.compound() ==> initial_errors(node.children@, compound_owner(node), call_site).len() == 0
}

proof fn lemma_sound_child(node: StateNode, call_site: proc_macro2::Span, k: int)
    requires
        sound_group(node, call_site),
        0 <= k < node.children@.len(),
    ensures
        own_initial_errors(node.children@, compound_owner(node), call_site).len() == 0,
        sound_group(node.children@[k], call_site),
{
    let children = node.children@;
    let own = own_initial_errors(children, compound_owner(node), call_site);
    let nested = nested_initial_errors(children, call_site, children.len() as int);
    assert(initial_errors(children, compound_owner(node), call_site) == own + nested);
    assert(own.len() + nested.len() == 0);
    if children[k].compound() {
        lemma_nested_groups(children, call_site, children.len() as int, k);
    }
}

/// Entering a state without messages below it ends in a leaf, which has no payload where it
/// is not the state itself.
proof fn lemma_initial_leaf(node: StateNode, call_site: proc_macro2::Span)
    requires
        sound_group(node, call_site),
    ensures
        initial_leaf(node) matches Some(leaf) && !leaf.compound() && (node.compound()
            ==> leaf.variant.fields@.len() == 0),
    decreases node,
{
    if node.compound() {
        lemma_sound_child(node, call_site, 0);
        lemma_one_initial(node.children@, compound_owner(node), call_site);
        let first = first_initial(node.children@, 0)->0;
        lemma_sound_child(node, call_site, first);
        lemma_initial_leaf(node.children@[first], call_site);
    }
}

proof fn lemma_nested_prefix(nodes: Seq<StateNode>, call_site: proc_macro2::Span, n: int)
    requires
        0 <= n < nodes.len(),
    ensures
        nested_initial_errors(nodes.drop_last(), call_site, n) == nested_initial_errors(
            nodes,
            call_site,
            n,
        ),
    decreases n,
{
    if n > 0 {
        lemma_nested_prefix(nodes, call_site, n - 1);
        assert(nodes.drop_last()[n - 1] == nodes[n - 1]);
    }
}

/// All states listed from a group without messages below it are without messages below them.
proof fn lemma_sound_groups(
    nodes: Seq<StateNode>,
    parent: Option<Ident>,
    call_site: proc_macro2::Span,
)
    requires
        nested_initial_errors(nodes, call_site, nodes.len() as int).len() == 0,
    ensures
        forall|i: int|
            0 <= i < flattened(nodes, parent).len() ==> sound_group(
                (#[trigger] flattened(nodes, parent)[i]).node,
                call_site,
            ),
    decreases nodes,
{
    if nodes.len() > 0 {
        let node = nodes.last();
        let n = nodes.len() as int;
        let before = flattened(nodes.drop_last(), parent);
        let below = flattened(node.children@, Some(node.variant.name));
        let all = flattened(nodes, parent);
        assert(all == before.push(Flat { node, parent }) + below);
        let earlier = nested_initial_errors(nodes, call_site, n - 1);
        if node.compound() {
            assert(nested_initial_errors(nodes, call_site, n) == earlier + initial_errors(
                node.children@,
                compound_owner(node),
                call_site,
            ));
            assert(earlier.len() == 0);
            lemma_nested_groups(nodes, call_site, n, n - 1);
            let own = own_initial_errors(node.children@, compound_owner(node), call_site);
            let nested = nested_initial_errors(
                node.children@,
                call_site,
                node.children@.len() as int,
            );
            assert(own.len() + nested.len() == 0);
        }
        lemma_nested_prefix(nodes, call_site, n - 1);
        lemma_sound_groups(nodes.drop_last(), parent, call_site);
        lemma_sound_groups(node.children@, Some(node.variant.name), call_site);
        assert forall|i: int| 0 <= i < all.len() implies sound_group(
            (#[trigger] all[i]).node,
            call_site,
        ) by {
            if i < before.len() {
                assert(all[i] == before[i]);
            } else if i > before.len() {
                assert(all[i] == below[i - before.len() - 1]);
            }
        }
    }
}

/// Whether a state with its parent is listed.
pub open spec fn listed(states: Seq<Flat>, node: StateNode, parent: Option<Ident>) -> bool {
    exists|j: int| 0 <= j < states.len() && #[trigger] states[j] == (Flat { node, parent })
}

pub(crate) proof fn lemma_listed_roots(nodes: Seq<StateNode>, parent: Option<Ident>, k: int)
    requires
        0 <= k < nodes.len(),
    ensures
        listed(flattened(nodes, parent), nodes[k], parent),
    decreases nodes,
{
    let node = nodes.last();
    let before = flattened(nodes.drop_last(), parent);
    let below = flattened(node.children@, Some(node.variant.name));
    let all = flattened(nodes, parent);
    assert(all == before.push(Flat { node, parent }) + below);
    if k == nodes.len() - 1 {
        assert(all[before.len() as int] == (Flat { node, parent }));
    } else {
        lemma_listed_roots(nodes.drop_last(), parent, k);
        let j = choose|j: int|
            0 <= j < before.len() && #[trigger] before[j] == (Flat { node: nodes[k], parent });
        assert(all[j] == before[j]);
    }
}

/// The children of a listed state are listed, with the state as their parent.
pub(crate) proof fn lemma_listed_children(nodes: Seq<StateNode>, parent: Option<Ident>, i: int, c: int)
    requires
        0 <= i < flattened(nodes, parent).len(),
        0 <= c < flattened(nodes, parent)[i].node.children@.len(),
    ensures
        listed(
            flattened(nodes, parent),
            flattened(nodes, parent)[i].node.children@[c],
            Some(flattened(nodes, parent)[i].node.variant.name),
        ),
    decreases nodes,
{
    let node = nodes.last();
    let before = flattened(nodes.drop_last(), parent);
    let below = flattened(node.children@, Some(node.variant.name));
    let all = flattened(nodes, parent);
    let at = before.len() as int;
    assert(all == before.push(Flat { node, parent }) + below);
    let child = all[i].node.children@[c];
    let above = Some(all[i].node.variant.name);
    let target = Flat { node: child, parent: above };
    if i < at {
        assert(all[i] == before[i]);
        lemma_listed_children(nodes.drop_last(), parent, i, c);
        let j = choose|j: int| 0 <= j < before.len() && #[trigger] before[j] == target;
        assert(all[j] == before[j]);
    } else if i == at {
        lemma_listed_roots(node.children@, Some(node.variant.name), c);
        let j = choose|j: int| 0 <= j < below.len() && #[trigger] below[j] == target;
        assert(all[at + 1 + j] == below[j]);
    } else {
        assert(all[i] == below[i - at - 1]);
        lemma_listed_children(node.children@, Some(node.variant.name), i - at - 1, c);
        let j = choose|j: int| 0 <= j < below.len() && #[trigger] below[j] == target;
        assert(all[at + 1 + j] == below[j]);
    }
}

/// Whether entering state `i` ends in state `j`.
pub open spec fn enters(states: Seq<Flat>, i: int, j: int) -> bool {
    &&& 0 <= j < states.len()
    &&& initial_leaf(states[i].node) == Some(states[j].node)
}

/// Entering a compound state ends in a leaf inside it, which carries no payload; entering a
/// leaf ends in the leaf.
pub proof fn entering_ends_in_a_leaf(definition: MachineDef, i: int)
    requires
        valid(definition),
        0 <= i < states_of(definition).len(),
    ensures
        exists|j: int|
            #[trigger] enters(states_of(definition), i, j) && !states_of(
                definition,
            )[j].node.compound() && is_within(states_of(definition), j, i) && (
            states_of(definition)[i].node.compound() ==> states_of(
                definition,
            )[j].node.variant.fields@.len() == 0) && (!states_of(definition)[i].node.compound()
                ==> j == i),
    decreases states_of(definition)[i].node,
{
    let states = states_of(definition);
    let node = states[i].node;
    lemma_no_messages(definition);
    assert(nested_initial_errors(
        definition.states@,
        definition.call_site,
        definition.states@.len() as int,
    ).len() == 0);
    lemma_sound_groups(definition.states@, None, definition.call_site);
    assert(states[i] == flattened(definition.states@, None)[i]);
    lemma_initial_leaf(node, definition.call_site);
    if node.compound() {
        lemma_sound_child(node, definition.call_site, 0);
        lemma_one_initial(node.children@, compound_owner(node), definition.call_site);
        let first = first_initial(node.children@, 0)->0;
        lemma_listed_children(definition.states@, None, i, first);
        let below = Flat { node: node.children@[first], parent: Some(node.variant.name) };
        let c = choose|c: int| 0 <= c < states.len() && #[trigger] states[c] == below;
        entering_ends_in_a_leaf(definition, c);
        let j = choose|j: int|
            #[trigger] enters(states, c, j) && !states[j].node.compound() && is_within(states, j, c);
        assert(enters(states, i, j));
        let k = choose|k: nat|
            #[trigger] ancestor(states, state_name(states, j), k) == Some(state_name(states, c));
        lemma_found_by_name(definition, c);
        assert(ancestor(states, state_name(states, j), k + 1) == Some(state_name(states, i)));
        assert(is_within(states, j, i));
    } else {
        assert(enters(states, i, i));
        assert(ancestor(states, state_name(states, i), 0) == Some(state_name(states, i)));
    }
}

/// Whether a machine starts in state `j`: entering the initial state of the root ends in it.
pub open spec fn starts_in(definition: MachineDef, j: int) -> bool {
    &&& 0 <= j < states_of(definition).len()
    &&& first_initial(definition.states@, 0) matches Some(root) && initial_leaf(
        definition.states@[root],
    ) == Some(states_of(definition)[j].node)
}

/// A machine starts in a leaf without a payload.
pub proof fn machines_start_in_a_leaf(definition: MachineDef)
    requires
        valid(definition),
    ensures
        exists|j: int| #[trigger]
            starts_in(definition, j) && !states_of(definition)[j].node.compound() && states_of(
                definition,
            )[j].node.variant.fields@.len() == 0,
{
    let states = states_of(definition);
    let roots = definition.states@;
    lemma_no_messages(definition);
    assert(own_initial_errors(roots, "machine root"@, definition.call_site).len() == 0);
    lemma_one_initial(roots, "machine root"@, definition.call_site);
    let root = first_initial(roots, 0)->0;
    lemma_listed_roots(roots, None, root);
    let flat = Flat { node: roots[root], parent: None };
    let i = choose|i: int| 0 <= i < states.len() && #[trigger] states[i] == flat;
    entering_ends_in_a_leaf(definition, i);
    let j = choose|j: int| #[trigger] enters(states, i, j) && !states[j].node.compound();
    assert(starts_in(definition, j));
}

/// The checks on row `r` of a valid definition give no messages.
pub(crate) proof fn lemma_row_messages(definition: MachineDef, n: int, r: int)
    requires
        0 <= r < n <= definition.rows@.len(),
        collected(definition, n).errors.len() == 0,
    ensures
        collected(definition, r).errors.len() == 0,
        row_check(definition.rows@[r], states_of(definition), definition.events@).errors.len() == 0,
        outcome_errors(
            collected(definition, r).transitions,
            definition.rows@[r].outcome,
        ).len() == 0,
        guard_noted(definition, r).errors.len() == 0,
        effect_noted(definition, r).errors.len() == 0,
    decreases n,
{
    let before = collected(definition, n - 1);
    let row = definition.rows@[n - 1];
    let check = row_check(row, states_of(definition), definition.events@);
    let outcome = outcome_errors(before.transitions, row.outcome);
    let guard = guard_noted(definition, n - 1);
    let effect = effect_noted(definition, n - 1);
    assert(collected(definition, n).errors == before.errors + check.errors + outcome + guard.errors
        + effect.errors);
    assert(before.errors.len() + check.errors.len() + outcome.len() + guard.errors.len()
        + effect.errors.len() == 0);
    if r < n - 1 {
        lemma_row_messages(definition, n - 1, r);
    }
}

/// The callbacks known after the guard of row `r`, and the messages on it.
pub open spec fn guard_noted(definition: MachineDef, r: int) -> Noted {
    noted_use(
        definition.rows@[r].guard,
        CallableRole::Guard,
        bindings_of(definition, r),
        collected(definition, r).callables,
    )
}

/// The callbacks known after the effect of row `r`, and the messages on it.
pub open spec fn effect_noted(definition: MachineDef, r: int) -> Noted {
    noted_use(
        definition.rows@[r].effect,
        CallableRole::Effect,
        bindings_of(definition, r),
        guard_noted(definition, r).callables,
    )
}

/// The payload fields that row `r` binds.
pub open spec fn bindings_of(definition: MachineDef, r: int) -> Seq<FieldDef> {
    row_check(definition.rows@[r], states_of(definition), definition.events@).bindings
}

/// The label of an accepting row.
pub open spec fn label_of(outcome: RowOutcome) -> Option<Ident> {
    match outcome {
        RowOutcome::Transition { transition, .. } => Some(transition),
        RowOutcome::Reject(_) => None,
    }
}

/// The reason of a rejecting row.
pub open spec fn reason_of(outcome: RowOutcome) -> Option<Ident> {
    match outcome {
        RowOutcome::Transition { .. } => None,
        RowOutcome::Reject(reason) => Some(reason),
    }
}

/// Whether identifiers are pairwise different names.
pub open spec fn distinct_names(idents: Seq<Ident>) -> bool {
    forall|i: int, j: int|
        0 <= i < j < idents.len() ==> (#[trigger] idents[i]).name@ != (#[trigger] idents[j]).name@
}

/// The position of a name among identifiers.
pub open spec fn is_position(idents: Seq<Ident>, name: Seq<char>, k: int) -> bool {
    0 <= k < idents.len() && idents[k].name@ == name
}

/// Whether row `r` accepts under a label.
pub open spec fn accepts_as(definition: MachineDef, r: int, label: Ident) -> bool {
    0 <= r < definition.rows@.len() && label_of(definition.rows@[r].outcome) == Some(label)
}

/// Whether row `r` rejects with a reason.
pub open spec fn rejects_with(definition: MachineDef, r: int, reason: Ident) -> bool {
    0 <= r < definition.rows@.len() && reason_of(definition.rows@[r].outcome) == Some(reason)
}

/// Whether some row accepts under a label.
pub open spec fn is_label(definition: MachineDef, label: Ident) -> bool {
    exists|r: int| accepts_as(definition, r, label)
}

/// Whether some row rejects with a reason.
pub open spec fn is_reason(definition: MachineDef, reason: Ident) -> bool {
    exists|r: int| rejects_with(definition, r, reason)
}

/// Every label and every reason is that of a row.
proof fn lemma_collected_from_rows(definition: MachineDef, n: int)
    requires
        0 <= n <= definition.rows@.len(),
    ensures
        forall|k: int|
            0 <= k < collected(definition, n).transitions.len() ==> is_label(
                definition,
                #[trigger] collected(definition, n).transitions[k],
            ),
        forall|k: int|
            0 <= k < collected(definition, n).rejections.len() ==> is_reason(
                definition,
                #[trigger] collected(definition, n).rejections[k],
            ),
    decreases n,
{
    if n > 0 {
        lemma_collected_from_rows(definition, n - 1);
        let before = collected(definition, n - 1);
        let after = collected(definition, n);
        let outcome = definition.rows@[n - 1].outcome;
        assert(after.transitions == labels_with(before.transitions, outcome));
        assert(after.rejections == reasons_with(before.rejections, outcome));
        assert forall|k: int| 0 <= k < after.transitions.len() implies is_label(
            definition,
            #[trigger] after.transitions[k],
        ) by {
            if k < before.transitions.len() {
                assert(after.transitions[k] == before.transitions[k]);
            } else {
                assert(accepts_as(definition, n - 1, after.transitions[k]));
            }
        }
        assert forall|k: int| 0 <= k < after.rejections.len() implies is_reason(
            definition,
            #[trigger] after.rejections[k],
        ) by {
            if k < before.rejections.len() {
                assert(after.rejections[k] == before.rejections[k]);
            } else {
                assert(rejects_with(definition, n - 1, after.rejections[k]));
            }
        }
    }
}

proof fn lemma_labels(definition: MachineDef, n: int)
    requires
        0 <= n <= definition.rows@.len(),
        collected(definition, n).errors.len() == 0,
    ensures
        distinct_names(collected(definition, n).transitions),
        distinct_names(collected(definition, n).rejections),
        forall|r: int|
            0 <= r < n ==> (label_of(#[trigger] definition.rows@[r].outcome) matches Some(label)
                ==> is_position(
                collected(definition, n).transitions,
                label.name@,
                collected(definition, r).transitions.len() as int,
            )),
        forall|r: int|
            0 <= r < n ==> (reason_of(#[trigger] definition.rows@[r].outcome) matches Some(reason)
                ==> named(
                collected(definition, n).rejections,
                collected(definition, n).rejections.len() as int,
                reason.name@,
            )),
    decreases n,
{
    if n > 0 {
        lemma_row_messages(definition, n, n - 1);
        lemma_labels(definition, n - 1);
        let before = collected(definition, n - 1);
        let after = collected(definition, n);
        let outcome = definition.rows@[n - 1].outcome;
        assert(after.transitions == labels_with(before.transitions, outcome));
        assert(after.rejections == reasons_with(before.rejections, outcome));
        assert forall|r: int| 0 <= r < n implies (label_of(
            #[trigger] definition.rows@[r].outcome,
        ) matches Some(label) ==> is_position(
            after.transitions,
            label.name@,
            collected(definition, r).transitions.len() as int,
        )) by {
            if r < n - 1 {
                if let Some(label) = label_of(definition.rows@[r].outcome) {
                    assert(is_position(
                        before.transitions,
                        label.name@,
                        collected(definition, r).transitions.len() as int,
                    ));
                }
            }
        }
        assert forall|r: int| 0 <= r < n implies (reason_of(
            #[trigger] definition.rows@[r].outcome,
        ) matches Some(reason) ==> named(
            after.rejections,
            after.rejections.len() as int,
            reason.name@,
        )) by {
            if let Some(reason) = reason_of(definition.rows@[r].outcome) {
                if r < n - 1 {
                    let j = choose|j: int|
                        0 <= j < before.rejections.len() && (#[trigger] before.rejections[j]).name@
                            == reason.name@;
                    assert(after.rejections[j] == before.rejections[j]);
                } else if named(
                    before.rejections,
                    before.rejections.len() as int,
                    reason.name@,
                ) {
                } else {
                    assert(after.rejections[before.rejections.len() as int] == reason);
                }
            }
        }
    }
}

/// Every accepting row has a label of its own, and the labels are those of the accepting rows in
/// their order.
pub proof fn labels_are_unique(definition: MachineDef, r: int)
    requires
        valid(definition),
        0 <= r < definition.rows@.len(),
    ensures
        distinct_names(table_of(definition).transitions),
        label_of(definition.rows@[r].outcome) matches Some(label) ==> is_position(
            table_of(definition).transitions,
            label.name@,
            collected(definition, r).transitions.len() as int,
        ),
        forall|q: int|
            #![trigger definition.rows@[q]]
            0 <= q < r && label_of(definition.rows@[r].outcome) is Some && label_of(
                definition.rows@[q].outcome,
            ) is Some ==> label_of(definition.rows@[q].outcome)->0.name@ != label_of(
                definition.rows@[r].outcome,
            )->0.name@,
        forall|k: int|
            0 <= k < table_of(definition).transitions.len() ==> is_label(
                definition,
                #[trigger] table_of(definition).transitions[k],
            ),
{
    lemma_no_messages(definition);
    let n = definition.rows@.len() as int;
    lemma_labels(definition, n);
    lemma_collected_from_rows(definition, n);
    lemma_row_messages(definition, n, r);
    let outcome = definition.rows@[r].outcome;
    assert forall|q: int|
        #![trigger definition.rows@[q]]
        0 <= q < r && label_of(outcome) is Some && label_of(
            definition.rows@[q].outcome,
        ) is Some implies label_of(definition.rows@[q].outcome)->0.name@ != label_of(
        outcome,
    )->0.name@ by {
        lemma_labels(definition, r);
        let earlier = collected(definition, r).transitions;
        let label = label_of(definition.rows@[q].outcome)->0;
        let at = collected(definition, q).transitions.len() as int;
        assert(is_position(earlier, label.name@, at));
        assert(earlier[at].name@ == label.name@);
    }
}

/// The rejection reasons are those of the rejecting rows, each once, however it is spelled.
pub proof fn reasons_are_collected(definition: MachineDef, r: int)
    requires
        valid(definition),
        0 <= r < definition.rows@.len(),
    ensures
        distinct_names(table_of(definition).rejections),
        reason_of(definition.rows@[r].outcome) matches Some(reason) ==> named(
            table_of(definition).rejections,
            table_of(definition).rejections.len() as int,
            reason.name@,
        ),
        forall|k: int|
            0 <= k < table_of(definition).rejections.len() ==> is_reason(
                definition,
                #[trigger] table_of(definition).rejections[k],
            ),
{
    lemma_no_messages(definition);
    lemma_labels(definition, definition.rows@.len() as int);
    lemma_collected_from_rows(definition, definition.rows@.len() as int);
    assert(definition.rows@[r].outcome == definition.rows@[r].outcome);
}

} // verus!
