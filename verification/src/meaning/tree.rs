//! What the state tree means: which states there are, which lies inside which, and which rows are
//! for a leaf.
use crate::laws::{is_at_level, rows_apply_to_a_leaf, rows_are_tried_from_the_leaf_up};
use crate::meaning::levels::{lemma_differ, lemma_in_tree};
use crate::model::{flattened, Flat, MachineDef, RowEvent, RowSource, StateNode};
use crate::selection::{is_candidate, is_step, row_applies, selects, tried_before, Step};
use crate::token::Ident;
use crate::valid::{
    ancestors_are_compound, is_within, lemma_listed_children, lemma_listed_roots, listed,
    state_name, valid,
};
use crate::validate::coverage::ancestor;
use crate::validate::states_of;
use vstd::prelude::*;

verus! {

/// Whether a state lies `k` levels below another in the tree; with `k` zero it is that state.
pub open spec fn lies_below(outer: StateNode, inner: StateNode, k: nat) -> bool
    decreases k,
{
    if k == 0 {
        outer == inner
    } else {
        exists|c: int|
            0 <= c < outer.children@.len() && lies_below(
                #[trigger] outer.children@[c],
                inner,
                (k - 1) as nat,
            )
    }
}

/// Whether state `i` is listed as a child of state `j`, and is one.
pub open spec fn is_child(states: Seq<Flat>, i: int, j: int) -> bool {
    &&& 0 <= j < i < states.len()
    &&& states[i].parent == Some(states[j].node.variant.name)
    &&& exists|c: int|
        0 <= c < states[j].node.children@.len() && #[trigger] states[j].node.children@[c]
            == states[i].node
}

/// Whether a state is one of some, listed under a parent.
pub open spec fn is_one_of(nodes: Seq<StateNode>, parent: Option<Ident>, flat: Flat) -> bool {
    flat.parent == parent && exists|c: int|
        0 <= c < nodes.len() && #[trigger] nodes[c] == flat.node
}

proof fn lemma_listed_once_each(nodes: Seq<StateNode>, parent: Option<Ident>, i: int)
    requires
        0 <= i < flattened(nodes, parent).len(),
    ensures
        is_one_of(nodes, parent, flattened(nodes, parent)[i]) || exists|j: int| #[trigger]
            is_child(flattened(nodes, parent), i, j),
    decreases nodes,
{
    let all = flattened(nodes, parent);
    let node = nodes.last();
    let before = flattened(nodes.drop_last(), parent);
    let below = flattened(node.children@, Some(node.variant.name));
    let at = before.len() as int;
    assert(all == before.push(Flat { node, parent }) + below);
    if i < at {
        assert(all[i] == before[i]);
        lemma_listed_once_each(nodes.drop_last(), parent, i);
        if is_one_of(nodes.drop_last(), parent, before[i]) {
            let c = choose|c: int|
                0 <= c < nodes.drop_last().len() && #[trigger] nodes.drop_last()[c]
                    == before[i].node;
            assert(nodes[c] == all[i].node);
        } else {
            let j = choose|j: int| #[trigger] is_child(before, i, j);
            assert(all[j] == before[j]);
            assert(is_child(all, i, j));
        }
    } else if i == at {
        assert(nodes[nodes.len() - 1] == all[i].node);
    } else {
        let k = i - at - 1;
        assert(all[i] == below[k]);
        assert(all[at] == (Flat { node, parent }));
        lemma_listed_once_each(node.children@, Some(node.variant.name), k);
        if is_one_of(node.children@, Some(node.variant.name), below[k]) {
            let c = choose|c: int|
                0 <= c < node.children@.len() && #[trigger] node.children@[c] == below[k].node;
            assert(all[at].node.children@[c] == all[i].node);
            assert(is_child(all, i, at));
        } else {
            let j = choose|j: int| #[trigger] is_child(below, k, j);
            assert(all[at + 1 + j] == below[j]);
            assert(is_child(all, i, at + 1 + j));
        }
    }
}

/// The listed states are those of the tree: each root is listed without a parent, each child of a
/// listed state is listed with that state as its parent, and each listed state is a root or a child
/// of one that is listed before it.
pub proof fn the_tree_is_listed(definition: MachineDef)
    ensures
        forall|root: int|
            0 <= root < definition.states@.len() ==> listed(
                states_of(definition),
                #[trigger] definition.states@[root],
                None,
            ),
        forall|i: int, c: int|
            0 <= i < states_of(definition).len() && 0 <= c < states_of(
                definition,
            )[i].node.children@.len() ==> listed(
                states_of(definition),
                #[trigger] states_of(definition)[i].node.children@[c],
                Some(states_of(definition)[i].node.variant.name),
            ),
        forall|i: int|
            0 <= i < states_of(definition).len() ==> is_one_of(
                definition.states@,
                None,
                #[trigger] states_of(definition)[i],
            ) || exists|j: int| #[trigger] is_child(states_of(definition), i, j),
{
    let states = states_of(definition);
    assert(states == flattened(definition.states@, None));
    assert forall|root: int| 0 <= root < definition.states@.len() implies listed(
        states,
        #[trigger] definition.states@[root],
        None,
    ) by {
        lemma_listed_roots(definition.states@, None, root);
    }
    assert forall|i: int, c: int|
        0 <= i < states.len() && 0 <= c < states[i].node.children@.len() implies listed(
        states,
        #[trigger] states[i].node.children@[c],
        Some(states[i].node.variant.name),
    ) by {
        lemma_listed_children(definition.states@, None, i, c);
    }
    assert forall|i: int| 0 <= i < states.len() implies is_one_of(
        definition.states@,
        None,
        #[trigger] states[i],
    ) || exists|j: int| #[trigger] is_child(states, i, j) by {
        lemma_listed_once_each(definition.states@, None, i);
    }
}

/// States are listed one after the other as they are declared, each right before its children.
pub proof fn states_are_listed_as_declared(
    first: Seq<StateNode>,
    second: Seq<StateNode>,
    node: StateNode,
    parent: Option<Ident>,
)
    ensures
        flattened(first + second, parent) == flattened(first, parent) + flattened(second, parent),
        flattened(seq![node], parent) == seq![Flat { node, parent }] + flattened(
            node.children@,
            Some(node.variant.name),
        ),
    decreases second.len(),
{
    assert(seq![node].drop_last() =~= Seq::<StateNode>::empty());
    assert(flattened(seq![node].drop_last(), parent) =~= Seq::<Flat>::empty());
    assert(flattened(seq![node], parent) =~= seq![Flat { node, parent }] + flattened(
        node.children@,
        Some(node.variant.name),
    ));
    if second.len() == 0 {
        assert(first + second =~= first);
        assert(flattened(first, parent) + flattened(second, parent) =~= flattened(first, parent));
    } else {
        assert((first + second).drop_last() =~= first + second.drop_last());
        states_are_listed_as_declared(first, second.drop_last(), node, parent);
        let own = second.last();
        let below = flattened(own.children@, Some(own.variant.name));
        assert(flattened(first + second, parent) =~= flattened(first, parent) + (flattened(
            second.drop_last(),
            parent,
        ).push(Flat { node: own, parent }) + below));
    }
}

/// The ancestors of a state are the states that it lies below in the tree, by levels.
pub proof fn ancestors_are_those_of_the_tree(definition: MachineDef, i: int, j: int, k: nat)
    requires
        valid(definition),
        0 <= i < states_of(definition).len(),
        0 <= j < states_of(definition).len(),
    ensures
        ancestor(states_of(definition), state_name(states_of(definition), i), k) == Some(
            state_name(states_of(definition), j),
        ) <==> lies_below(states_of(definition)[j].node, states_of(definition)[i].node, k),
{
    lemma_differ(definition);
    lemma_in_tree(definition, i, j, k);
}

/// A state is inside another exactly where it lies below it in the tree, at any level, or is it.
pub proof fn inside_means_below_in_the_tree(definition: MachineDef, i: int, j: int)
    requires
        valid(definition),
        0 <= i < states_of(definition).len(),
        0 <= j < states_of(definition).len(),
    ensures
        is_within(states_of(definition), i, j) <==> exists|k: nat|
            lies_below(states_of(definition)[j].node, states_of(definition)[i].node, k),
{
    let states = states_of(definition);
    if is_within(states, i, j) {
        let k = choose|k: nat|
            #[trigger] ancestor(states, state_name(states, i), k) == Some(state_name(states, j));
        ancestors_are_those_of_the_tree(definition, i, j, k);
    }
    if exists|k: nat| lies_below(states[j].node, states[i].node, k) {
        let k = choose|k: nat| lies_below(states[j].node, states[i].node, k);
        ancestors_are_those_of_the_tree(definition, i, j, k);
    }
}

/// Whether row `r` names a state that leaf `l` lies `k` levels below.
pub open spec fn is_for_level(definition: MachineDef, l: int, r: int, k: nat) -> bool {
    definition.rows@[r].source matches RowSource::State(pattern) && exists|j: int|
        0 <= j < states_of(definition).len() && (#[trigger] states_of(
            definition,
        )[j]).node.variant.name.name@ == pattern.name.name@ && lies_below(
            states_of(definition)[j].node,
            states_of(definition)[l].node,
            k,
        )
}

proof fn lemma_level(definition: MachineDef, l: int, r: int, k: nat)
    requires
        valid(definition),
        0 <= l < states_of(definition).len(),
        0 <= r < definition.rows@.len(),
    ensures
        is_at_level(definition, l, r, k) <==> is_for_level(definition, l, r, k),
{
    let states = states_of(definition);
    if let RowSource::State(pattern) = definition.rows@[r].source {
        if is_at_level(definition, l, r, k) {
            ancestors_are_compound(definition, l, k);
            let j = choose|j: int|
                #![trigger state_name(states, j)]
                0 <= j <= l - k && state_name(states, j) == pattern.name.name@;
            ancestors_are_those_of_the_tree(definition, l, j, k);
            assert(states[j].node.variant.name.name@ == pattern.name.name@);
        }
        if is_for_level(definition, l, r, k) {
            let j = choose|j: int|
                0 <= j < states.len() && (#[trigger] states[j]).node.variant.name.name@
                    == pattern.name.name@ && lies_below(states[j].node, states[l].node, k);
            ancestors_are_those_of_the_tree(definition, l, j, k);
            assert(state_name(states, j) == pattern.name.name@);
        }
    }
}

/// A row is for an event in a leaf exactly where its source is `_` or names a state that the leaf
/// is or lies inside, and its event is `_` or names the event.
pub proof fn rows_are_for_what_they_name(definition: MachineDef, l: int, e: int, r: int)
    requires
        valid(definition),
        0 <= l < states_of(definition).len(),
        0 <= e < definition.events@.len(),
        0 <= r < definition.rows@.len(),
    ensures
        row_applies(definition, l, e, r) <==> {
            &&& definition.rows@[r].source is Any || exists|k: nat|
                is_for_level(definition, l, r, k)
            &&& match definition.rows@[r].event {
                RowEvent::Any => true,
                RowEvent::Event(pattern) => pattern.name.name@
                    == definition.events@[e].name.name@,
            }
        },
{
    rows_apply_to_a_leaf(definition, l, r);
    if exists|k: nat| is_at_level(definition, l, r, k) {
        let k = choose|k: nat| is_at_level(definition, l, r, k);
        lemma_level(definition, l, r, k);
    }
    if exists|k: nat| is_for_level(definition, l, r, k) {
        let k = choose|k: nat| is_for_level(definition, l, r, k);
        lemma_level(definition, l, r, k);
    }
}

/// Of two rows for a leaf, the one for the deeper state is tried first; of two for one state, the
/// one that stands first; a row for `_` is tried behind every row for a state, and of two such rows
/// the one that stands first.
pub proof fn deeper_rows_are_tried_first(definition: MachineDef, l: int, i: int, j: int)
    requires
        valid(definition),
        0 <= l < states_of(definition).len() <= usize::MAX,
        0 <= i < definition.rows@.len(),
        0 <= j < definition.rows@.len(),
    ensures
        forall|low: nat, high: nat|
            #![trigger is_for_level(definition, l, i, low), is_for_level(definition, l, j, high)]
            is_for_level(definition, l, i, low) && is_for_level(definition, l, j, high) ==> (
            tried_before(definition, l, i, j) <==> low < high || low == high && i < j),
        forall|low: nat| #[trigger]
            is_for_level(definition, l, i, low) && definition.rows@[j].source is Any
                ==> tried_before(definition, l, i, j) && !tried_before(definition, l, j, i),
        definition.rows@[i].source is Any && definition.rows@[j].source is Any ==> (tried_before(
            definition,
            l,
            i,
            j,
        ) <==> i < j),
{
    rows_are_tried_from_the_leaf_up(definition, l, i, j);
    rows_are_tried_from_the_leaf_up(definition, l, j, i);
    assert forall|low: nat, high: nat|
        #![trigger is_for_level(definition, l, i, low), is_for_level(definition, l, j, high)]
        is_for_level(definition, l, i, low) && is_for_level(definition, l, j, high) implies (
    tried_before(definition, l, i, j) <==> low < high || low == high && i < j) by {
        lemma_level(definition, l, i, low);
        lemma_level(definition, l, j, high);
    }
    assert forall|low: nat| #[trigger]
        is_for_level(definition, l, i, low) && definition.rows@[j].source is Any implies tried_before(
        definition,
        l,
        i,
        j,
    ) && !tried_before(definition, l, j, i) by {
        lemma_level(definition, l, i, low);
    }
}

/// The step after a row was refused, or the first step, is to the row for the event that is tried
/// next: none for the event stands between the two.
pub proof fn no_row_is_passed_over(
    definition: MachineDef,
    l: int,
    e: int,
    after: Option<usize>,
    step: Step,
    r: int,
)
    requires
        is_step(definition, l, e, after, step),
        row_applies(definition, l, e, r),
        after matches Some(i) ==> tried_before(definition, l, i as int, r),
    ensures
        match step {
            Step::Ask(next) => {
                &&& row_applies(definition, l, e, next as int)
                &&& definition.rows@[next as int].guard is Some
                &&& after matches Some(i) ==> tried_before(definition, l, i as int, next as int)
                &&& next != r ==> tried_before(definition, l, next as int, r)
            },
            Step::Take(next) => {
                &&& row_applies(definition, l, e, next as int)
                &&& definition.rows@[next as int].guard is None
                &&& after matches Some(i) ==> tried_before(definition, l, i as int, next as int)
                &&& next != r ==> tried_before(definition, l, next as int, r)
            },
            Step::Unhandled => false,
        },
{
    assert(is_candidate(definition, l, e, after, r));
}

/// A selected row is for the event, and its guard, where it has one, said yes; each row for the
/// event that is tried before it has a guard that said no.
pub proof fn the_first_row_that_passes_is_selected(
    definition: MachineDef,
    l: int,
    e: int,
    verdict: spec_fn(int) -> bool,
    r: int,
    j: int,
)
    requires
        selects(definition, l, e, verdict, r),
        row_applies(definition, l, e, j),
        tried_before(definition, l, j, r),
    ensures
        row_applies(definition, l, e, r),
        definition.rows@[r].guard is Some ==> verdict(r),
        definition.rows@[j].guard is Some,
        !verdict(j),
{
}

} // verus!
