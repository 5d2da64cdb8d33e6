//! What handling an event means: which values a row uses, and where it moves to.
use crate::bindings::{lemma_event_found, lemma_leaf_source, lemma_target_fields, source_binds};
use crate::evaluate::{answers, produces};
use crate::model::{
    BindingPattern, Callable, FieldDef, MachineDef, RowEvent, RowOutcome, RowSource, StateNode,
    TargetState, VariantDef,
};
use crate::outcome::{are_arguments, fills, is_outcome, is_plan, moves_to, value_of};
use crate::runtime::{Plan, ProcessError};
use crate::selection::row_applies;
use crate::state::{accepts, admits, Context, Event, State};
use crate::token::Ident;
use crate::valid::{
    bindings_of, enters, labels_are_unique, lemma_found_by_name, lemma_no_messages,
    lemma_row_messages, names_are_distinct, starts_in, valid,
};
use crate::validate::declarations::{first_initial, initial_leaf, lemma_first_initial};
use crate::validate::lookup::{has_field, last_field, lemma_last_field, named};
use crate::validate::rows::{
    event_check, leaf_target_errors, pattern_check, pattern_fields, source_check, target_errors,
};
use crate::validate::{collected, labels_with, states_of, table_of};
use vstd::prelude::*;

verus! {

/// Whether a name is one of those that a pattern lists.
pub open spec fn lists(pattern: BindingPattern, name: Seq<char>) -> bool {
    pattern.explicit_fields && exists|i: int|
        0 <= i < pattern.fields@.len() && (#[trigger] pattern.fields@[i]).name@ == name
}

/// Whether the source of row `r` lists a name, and it is that of payload field `k` of state `l`.
pub open spec fn takes_from_state(
    definition: MachineDef,
    r: int,
    l: int,
    name: Seq<char>,
    k: int,
) -> bool {
    &&& definition.rows@[r].source matches RowSource::State(pattern) && lists(pattern, name)
    &&& 0 <= k < states_of(definition)[l].node.variant.fields@.len()
    &&& states_of(definition)[l].node.variant.fields@[k].name.name@ == name
}

/// Whether the event of row `r` lists a name, and it is that of payload field `k` of event `e`.
pub open spec fn takes_from_event(
    definition: MachineDef,
    r: int,
    e: int,
    name: Seq<char>,
    k: int,
) -> bool {
    &&& definition.rows@[r].event matches RowEvent::Event(pattern) && lists(pattern, name)
    &&& 0 <= k < definition.events@[e].fields@.len()
    &&& definition.events@[e].fields@[k].name.name@ == name
}

/// Each name that a pattern without messages lists is bound, and was not bound before.
proof fn lemma_listed_are_new(
    pattern: BindingPattern,
    variant: VariantDef,
    kind: Seq<char>,
    bindings: Seq<FieldDef>,
    n: int,
    i: int,
)
    requires
        0 <= i < n <= pattern.fields@.len(),
        pattern_fields(pattern, variant, kind, bindings, n).errors.len() == 0,
    ensures
        has_field(
            pattern_fields(pattern, variant, kind, bindings, n).bindings,
            pattern_fields(pattern, variant, kind, bindings, n).bindings.len() as int,
            pattern.fields@[i].name@,
        ),
        !has_field(bindings, bindings.len() as int, pattern.fields@[i].name@),
    decreases n,
{
    let before = pattern_fields(pattern, variant, kind, bindings, n - 1).bindings;
    let after = pattern_fields(pattern, variant, kind, bindings, n).bindings;
    let own = pattern.fields@[n - 1].name@;
    lemma_last_field(variant.fields@, variant.fields@.len() as int, own);
    lemma_last_field(before, before.len() as int, own);
    assert(after.len() == before.len() + 1);
    if i < n - 1 {
        lemma_listed_are_new(pattern, variant, kind, bindings, n - 1, i);
        let j = choose|j: int|
            0 <= j < before.len() && (#[trigger] before[j]).name.name@ == pattern.fields@[i].name@;
        assert(after[j] == before[j]);
    } else {
        assert(after[before.len() as int].name.name@ == own);
        lemma_bindings_grow(pattern, variant, kind, bindings, n - 1);
        if has_field(bindings, bindings.len() as int, own) {
            let j = choose|j: int|
                0 <= j < bindings.len() && (#[trigger] bindings[j]).name.name@ == own;
            assert(before[j] == bindings[j]);
        }
    }
}

proof fn lemma_bindings_grow(
    pattern: BindingPattern,
    variant: VariantDef,
    kind: Seq<char>,
    bindings: Seq<FieldDef>,
    n: int,
)
    requires
        0 <= n <= pattern.fields@.len(),
    ensures
        bindings.len() <= pattern_fields(pattern, variant, kind, bindings, n).bindings.len(),
        forall|j: int|
            0 <= j < bindings.len() ==> #[trigger] pattern_fields(
                pattern,
                variant,
                kind,
                bindings,
                n,
            ).bindings[j] == bindings[j],
    decreases n,
{
    if n > 0 {
        lemma_bindings_grow(pattern, variant, kind, bindings, n - 1);
    }
}

/// No name is listed by both the source and the event of a row.
proof fn lemma_listed_once(definition: MachineDef, r: int, l: int, e: int, name: Seq<char>)
    requires
        valid(definition),
        0 <= r < definition.rows@.len(),
        0 <= l < states_of(definition).len(),
        0 <= e < definition.events@.len(),
        row_applies(definition, l, e, r),
        definition.rows@[r].event matches RowEvent::Event(pattern) && lists(pattern, name),
    ensures
        !source_binds(definition.rows@[r], name),
{
    let row = definition.rows@[r];
    let states = states_of(definition);
    lemma_no_messages(definition);
    lemma_row_messages(definition, definition.rows@.len() as int, r);
    lemma_leaf_source(definition, r, l);
    lemma_event_found(definition, e);
    let source = source_check(row, states);
    let pattern = row.event->Event_0;
    let event = event_check(row, definition.events@, source.bindings);
    assert(source.errors.len() == 0 && event.errors.len() == 0);
    let n = pattern.fields@.len() as int;
    let i = choose|i: int| 0 <= i < n && (#[trigger] pattern.fields@[i]).name@ == name;
    assert(pattern_check(pattern, definition.events@[e], "event"@, source.bindings).errors.len()
        == 0);
    lemma_listed_are_new(pattern, definition.events@[e], "event"@, source.bindings, n, i);
    if source_binds(row, name) {
        let first = row.source->State_0;
        let m = first.fields@.len() as int;
        let j = choose|j: int| 0 <= j < m && (#[trigger] first.fields@[j]).name@ == name;
        assert(!states[l].node.compound() || source.errors.len() > 0);
        lemma_listed_are_new(first, states[l].node.variant, "state"@, Seq::empty(), m, j);
    }
}

/// A name stands for the value of the payload field that has the name: of the active state where
/// the source of the row lists it, and of the event where the event of the row does. The value is
/// the one at the place of the field among those declared.
pub proof fn names_stand_for_their_fields<V>(
    definition: MachineDef,
    r: int,
    state: State<V>,
    event: Event<V>,
    name: Seq<char>,
    k: int,
)
    requires
        valid(definition),
        admits(definition, state),
        accepts(definition, event),
        0 <= r < definition.rows@.len(),
        row_applies(definition, state.id as int, event.id as int, r),
    ensures
        takes_from_state(definition, r, state.id as int, name, k) ==> value_of(
            definition,
            r,
            state,
            event,
            name,
        ) == state.payload@[k],
        takes_from_event(definition, r, event.id as int, name, k) ==> value_of(
            definition,
            r,
            state,
            event,
            name,
        ) == event.payload@[k],
{
    names_are_distinct(definition);
    if takes_from_state(definition, r, state.id as int, name, k) {
        let fields = states_of(definition)[state.id as int].node.variant.fields@;
        let pattern = definition.rows@[r].source->State_0;
        assert(named(pattern.fields@, pattern.fields@.len() as int, name));
        lemma_last_field(fields, fields.len() as int, name);
        let found = last_field(fields, fields.len() as int, name)->0;
        assert(fields[k].name.name@ == name && fields[found].name.name@ == name);
    }
    if takes_from_event(definition, r, event.id as int, name, k) {
        lemma_listed_once(definition, r, state.id as int, event.id as int, name);
        let fields = definition.events@[event.id as int].fields@;
        lemma_last_field(fields, fields.len() as int, name);
        let found = last_field(fields, fields.len() as int, name)->0;
        assert(fields[k].name.name@ == name && fields[found].name.name@ == name);
    }
}

/// Whether values are what a row hands to a callback: one for each argument, in the order in which
/// they are written, and each the value of the payload field that has its name.
pub open spec fn are_handed<V>(
    definition: MachineDef,
    r: int,
    state: State<V>,
    event: Event<V>,
    arguments: Seq<Ident>,
    values: Seq<&V>,
) -> bool {
    &&& values.len() == arguments.len()
    &&& forall|i: int, k: int|
        0 <= i < arguments.len() && #[trigger] takes_from_state(
            definition,
            r,
            state.id as int,
            arguments[i].name@,
            k,
        ) ==> *values[i] == state.payload@[k]
    &&& forall|i: int, k: int|
        0 <= i < arguments.len() && #[trigger] takes_from_event(
            definition,
            r,
            event.id as int,
            arguments[i].name@,
            k,
        ) ==> *values[i] == event.payload@[k]
}

/// A callback gets the value of its first argument first, that of its second argument second, and
/// so on.
pub proof fn arguments_come_in_order<V>(
    definition: MachineDef,
    r: int,
    state: State<V>,
    event: Event<V>,
    callable: Callable,
    values: Seq<&V>,
)
    requires
        valid(definition),
        admits(definition, state),
        accepts(definition, event),
        0 <= r < definition.rows@.len(),
        row_applies(definition, state.id as int, event.id as int, r),
        are_arguments(definition, r, state, event, callable, values),
    ensures
        are_handed(definition, r, state, event, callable.arguments@, values),
{
    let arguments = callable.arguments@;
    assert forall|i: int, k: int|
        0 <= i < arguments.len() && #[trigger] takes_from_state(
            definition,
            r,
            state.id as int,
            arguments[i].name@,
            k,
        ) implies *values[i] == state.payload@[k] by {
        names_stand_for_their_fields(definition, r, state, event, arguments[i].name@, k);
    }
    assert forall|i: int, k: int|
        0 <= i < arguments.len() && #[trigger] takes_from_event(
            definition,
            r,
            event.id as int,
            arguments[i].name@,
            k,
        ) implies *values[i] == event.payload@[k] by {
        names_stand_for_their_fields(definition, r, state, event, arguments[i].name@, k);
    }
}

/// An answer of the guard of a row is one that the context gives under the name of the guard, where
/// it is handed the values of its arguments in their order.
pub proof fn guards_are_asked_with_their_arguments<V, F, C: Context<V, F>>(
    context: C,
    definition: MachineDef,
    r: int,
    state: State<V>,
    event: Event<V>,
    answer: bool,
)
    requires
        valid(definition),
        admits(definition, state),
        accepts(definition, event),
        0 <= r < definition.rows@.len(),
        row_applies(definition, state.id as int, event.id as int, r),
        answers(context, definition, r, state, event, answer),
    ensures
        definition.rows@[r].guard matches Some(guard) && exists|name: &str, values: &Vec<&V>|
            name@ == guard.name.name@ && are_handed(
                definition,
                r,
                state,
                event,
                guard.arguments@,
                values@,
            ) && #[trigger] call_ensures(
                <C as Context<V, F>>::guard,
                (&context, name, values),
                answer,
            ),
{
    let guard = definition.rows@[r].guard->0;
    let (name, values) = choose|name: &str, values: &Vec<&V>|
        name@ == guard.name.name@ && are_arguments(
            definition,
            r,
            state,
            event,
            guard,
            values@,
        ) && #[trigger] call_ensures(
            <C as Context<V, F>>::guard,
            (&context, name, values),
            answer,
        );
    arguments_come_in_order(definition, r, state, event, guard, values@);
}

/// The effect of a row is one that the context computes under the name of the effect, where it is
/// handed the values of its arguments in their order.
pub proof fn effects_are_computed_with_their_arguments<V, F, C: Context<V, F>>(
    context: C,
    definition: MachineDef,
    r: int,
    state: State<V>,
    event: Event<V>,
    effect: F,
)
    requires
        valid(definition),
        admits(definition, state),
        accepts(definition, event),
        0 <= r < definition.rows@.len(),
        row_applies(definition, state.id as int, event.id as int, r),
        produces(context, definition, r, state, event, effect),
    ensures
        definition.rows@[r].effect matches Some(factory) && exists|name: &str, values: &Vec<&V>|
            name@ == factory.name.name@ && are_handed(
                definition,
                r,
                state,
                event,
                factory.arguments@,
                values@,
            ) && #[trigger] call_ensures(
                <C as Context<V, F>>::effect,
                (&context, name, values),
                effect,
            ),
{
    let factory = definition.rows@[r].effect->0;
    let (name, values) = choose|name: &str, values: &Vec<&V>|
        name@ == factory.name.name@ && are_arguments(
            definition,
            r,
            state,
            event,
            factory,
            values@,
        ) && #[trigger] call_ensures(
            <C as Context<V, F>>::effect,
            (&context, name, values),
            effect,
        );
    arguments_come_in_order(definition, r, state, event, factory, values@);
}

/// Whether a leaf is reached from a state in `depth` steps, each to the child that is marked as
/// initial.
pub open spec fn descends(node: StateNode, leaf: StateNode, depth: nat) -> bool
    decreases depth,
{
    if depth == 0 {
        node == leaf && leaf.children@.len() == 0
    } else {
        exists|c: int|
            0 <= c < node.children@.len() && (#[trigger] node.children@[c]).initial && descends(
                node.children@[c],
                leaf,
                (depth - 1) as nat,
            )
    }
}

proof fn lemma_descends(node: StateNode, leaf: StateNode)
    requires
        initial_leaf(node) == Some(leaf),
    ensures
        exists|depth: nat| descends(node, leaf, depth),
    decreases node,
{
    if node.compound() {
        lemma_first_initial(node.children@, 0);
        let i = first_initial(node.children@, 0)->0;
        lemma_first_is_marked(node.children@, 0);
        lemma_descends(node.children@[i], leaf);
        let depth = choose|depth: nat| descends(node.children@[i], leaf, depth);
        assert(descends(node, leaf, depth + 1));
    } else {
        assert(descends(node, leaf, 0));
    }
}

proof fn lemma_first_is_marked(nodes: Seq<StateNode>, i: int)
    requires
        0 <= i,
    ensures
        first_initial(nodes, i) matches Some(k) ==> i <= k < nodes.len() && nodes[k].initial,
    decreases nodes.len() - i,
{
    if i < nodes.len() && !nodes[i].initial {
        lemma_first_is_marked(nodes, i + 1);
    }
}

/// Entering a state ends in the leaf that is reached by going down to the initial child again and
/// again.
pub proof fn entering_goes_down_to_the_initial_leaf(definition: MachineDef, i: int, j: int)
    requires
        0 <= i < states_of(definition).len(),
        enters(states_of(definition), i, j),
    ensures
        0 <= j < states_of(definition).len(),
        exists|depth: nat|
            descends(states_of(definition)[i].node, states_of(definition)[j].node, depth),
{
    lemma_descends(states_of(definition)[i].node, states_of(definition)[j].node);
}

/// A machine starts in the leaf that is reached from a root state that is marked as initial, by
/// going down to the initial child again and again.
pub proof fn machines_start_at_the_initial_root(definition: MachineDef, j: int)
    requires
        starts_in(definition, j),
    ensures
        0 <= j < states_of(definition).len(),
        exists|root: int, depth: nat|
            0 <= root < definition.states@.len() && definition.states@[root].initial
                && #[trigger] descends(
                definition.states@[root],
                states_of(definition)[j].node,
                depth,
            ),
{
    lemma_first_is_marked(definition.states@, 0);
    let root = first_initial(definition.states@, 0)->0;
    lemma_descends(definition.states@[root], states_of(definition)[j].node);
}

/// Whether payload field `f` of a leaf is filled by a target, with a clone of the value that the
/// field is given in the row.
pub open spec fn is_given<V: Clone>(
    definition: MachineDef,
    r: int,
    state: State<V>,
    event: Event<V>,
    target: TargetState,
    name: Seq<char>,
    value: V,
) -> bool {
    &&& forall|i: int, k: int|
        0 <= i < target.fields@.len() && target.fields@[i].name.name@ == name
            && #[trigger] takes_from_state(
            definition,
            r,
            state.id as int,
            target.fields@[i].binding.name@,
            k,
        ) ==> cloned(state.payload@[k], value)
    &&& forall|i: int, k: int|
        0 <= i < target.fields@.len() && target.fields@[i].name.name@ == name
            && #[trigger] takes_from_event(
            definition,
            r,
            event.id as int,
            target.fields@[i].binding.name@,
            k,
        ) ==> cloned(event.payload@[k], value)
}

/// A row that names a leaf moves to that leaf, and each payload field gets a clone of the value
/// that the row gives it. A row that names a compound state moves to the leaf that entering it ends
/// in, without a payload. A row that names no state stays, with a clone of the payload.
pub proof fn rows_move_where_they_say<V: Clone>(
    definition: MachineDef,
    r: int,
    state: State<V>,
    event: Event<V>,
    to: State<V>,
    t: int,
)
    requires
        valid(definition),
        admits(definition, state),
        accepts(definition, event),
        0 <= r < definition.rows@.len(),
        row_applies(definition, state.id as int, event.id as int, r),
        moves_to(definition, r, state, event, to),
        0 <= t < states_of(definition).len(),
    ensures
        match definition.rows@[r].outcome {
            RowOutcome::Transition { target: Some(target), .. } =>
                states_of(definition)[t].node.variant.name.name@ == target.name.name@ ==> {
                let node = states_of(definition)[t].node;
                if node.children@.len() == 0 {
                    &&& to.id == t
                    &&& to.payload@.len() == node.variant.fields@.len()
                    &&& forall|f: int|
                        0 <= f < node.variant.fields@.len() ==> is_given(
                            definition,
                            r,
                            state,
                            event,
                            target,
                            (#[trigger] node.variant.fields@[f]).name.name@,
                            to.payload@[f],
                        )
                } else {
                    &&& to.id < states_of(definition).len()
                    &&& to.payload@.len() == 0
                    &&& exists|depth: nat|
                        descends(node, states_of(definition)[to.id as int].node, depth)
                }
            },
            RowOutcome::Transition { target: None, .. } => {
                &&& to.id == state.id
                &&& to.payload@.len() == state.payload@.len()
                &&& forall|k: int|
                    0 <= k < state.payload@.len() ==> cloned(
                        #[trigger] state.payload@[k],
                        to.payload@[k],
                    )
            },
            RowOutcome::Reject(_) => true,
        },
{
    let states = states_of(definition);
    if let RowOutcome::Transition { target: Some(target), .. } = definition.rows@[r].outcome {
        if states[t].node.variant.name.name@ == target.name.name@ {
            lemma_found_by_name(definition, t);
            let node = states[t].node;
            let fields = node.variant.fields@;
            if node.children@.len() == 0 {
                lemma_no_messages(definition);
                lemma_row_messages(definition, definition.rows@.len() as int, r);
                let bindings = bindings_of(definition, r);
                assert(target_errors(target, states, bindings).len() == 0);
                if fields.len() > 0 {
                    assert(leaf_target_errors(target, fields, bindings).len() == 0);
                    lemma_target_fields(target, fields, bindings, target.fields@.len() as int);
                }
                assert forall|f: int| 0 <= f < fields.len() implies is_given(
                    definition,
                    r,
                    state,
                    event,
                    target,
                    (#[trigger] fields[f]).name.name@,
                    to.payload@[f],
                ) by {
                    lemma_given(definition, r, state, event, target, fields[f], to.payload@[f]);
                }
            } else {
                lemma_descends(node, states[to.id as int].node);
            }
        }
    }
}

proof fn lemma_given<V: Clone>(
    definition: MachineDef,
    r: int,
    state: State<V>,
    event: Event<V>,
    target: TargetState,
    field: FieldDef,
    value: V,
)
    requires
        valid(definition),
        admits(definition, state),
        accepts(definition, event),
        0 <= r < definition.rows@.len(),
        row_applies(definition, state.id as int, event.id as int, r),
        fills(definition, r, state, event, target, field, value),
        forall|i: int, j: int|
            0 <= i < j < target.fields@.len() ==> (#[trigger] target.fields@[i]).name.name@ != (
            #[trigger] target.fields@[j]).name.name@,
    ensures
        is_given(definition, r, state, event, target, field.name.name@, value),
{
    let name = field.name.name@;
    let found = choose|i: int|
        0 <= i < target.fields@.len() && (#[trigger] target.fields@[i]).name.name@ == name
            && cloned(
            value_of(definition, r, state, event, target.fields@[i].binding.name@),
            value,
        );
    assert forall|i: int, k: int|
        0 <= i < target.fields@.len() && target.fields@[i].name.name@ == name
            && #[trigger] takes_from_state(
            definition,
            r,
            state.id as int,
            target.fields@[i].binding.name@,
            k,
        ) implies cloned(state.payload@[k], value) by {
        assert(i == found);
        names_stand_for_their_fields(
            definition,
            r,
            state,
            event,
            target.fields@[i].binding.name@,
            k,
        );
    }
    assert forall|i: int, k: int|
        0 <= i < target.fields@.len() && target.fields@[i].name.name@ == name
            && #[trigger] takes_from_event(
            definition,
            r,
            event.id as int,
            target.fields@[i].binding.name@,
            k,
        ) implies cloned(event.payload@[k], value) by {
        assert(i == found);
        names_stand_for_their_fields(
            definition,
            r,
            state,
            event,
            target.fields@[i].binding.name@,
            k,
        );
    }
}

/// What a selected row gives says which row it was: an accepting row plans a move under its own
/// label, from a clone of the active state, and with an effect exactly where it has a factory; a
/// rejecting row gives its own reason; and no row leaves the event unhandled.
pub proof fn outcomes_are_those_of_the_row<V: Clone, F>(
    definition: MachineDef,
    r: int,
    state: State<V>,
    event: Event<V>,
    result: Result<Plan<State<V>, usize, F>, ProcessError<usize, Event<V>, usize>>,
)
    requires
        valid(definition),
        0 <= r < definition.rows@.len(),
        is_outcome(definition, r, state, event, result),
    ensures
        match result {
            Ok(plan) => {
                &&& definition.rows@[r].outcome matches RowOutcome::Transition { transition, .. }
                    && plan.transition < table_of(definition).transitions.len() && table_of(
                    definition,
                ).transitions[plan.transition as int].name@ == transition.name@
                &&& plan.from.id == state.id
                &&& plan.from.payload@.len() == state.payload@.len()
                &&& forall|k: int|
                    0 <= k < state.payload@.len() ==> cloned(
                        #[trigger] state.payload@[k],
                        plan.from.payload@[k],
                    )
                &&& moves_to(definition, r, state, event, plan.to)
                &&& plan.effect is Some <==> definition.rows@[r].effect is Some
            },
            Err(ProcessError::Rejected(reason)) => {
                &&& definition.rows@[r].outcome matches RowOutcome::Reject(ident) && reason
                    < table_of(definition).rejections.len() && table_of(
                    definition,
                ).rejections[reason as int].name@ == ident.name@
            },
            Err(ProcessError::Unhandled { .. }) => false,
        },
{
}

/// Two accepting rows never plan under the same transition.
pub proof fn transitions_tell_rows_apart<V: Clone, F>(
    definition: MachineDef,
    q: int,
    r: int,
    state: State<V>,
    event: Event<V>,
    first: Plan<State<V>, usize, F>,
    second: Plan<State<V>, usize, F>,
)
    requires
        valid(definition),
        0 <= q < r < definition.rows@.len(),
        is_plan(definition, q, state, event, first),
        is_plan(definition, r, state, event, second),
    ensures
        first.transition < second.transition,
{
    labels_are_unique(definition, q);
    labels_are_unique(definition, r);
    let labels = table_of(definition).transitions;
    let a = collected(definition, q).transitions.len() as int;
    let b = collected(definition, r).transitions.len() as int;
    lemma_labels_grow(definition, q, r);
    assert(labels[a].name@ == labels[first.transition as int].name@);
    assert(labels[b].name@ == labels[second.transition as int].name@);
}

proof fn lemma_labels_grow(definition: MachineDef, q: int, r: int)
    requires
        valid(definition),
        0 <= q < r <= definition.rows@.len(),
        definition.rows@[q].outcome is Transition,
    ensures
        collected(definition, q).transitions.len() < collected(definition, r).transitions.len(),
    decreases r,
{
    lemma_no_messages(definition);
    lemma_row_messages(definition, definition.rows@.len() as int, r - 1);
    let before = collected(definition, r - 1);
    assert(collected(definition, r).transitions == labels_with(
        before.transitions,
        definition.rows@[r - 1].outcome,
    ));
    if q < r - 1 {
        lemma_labels_grow(definition, q, r - 1);
    } else {
        lemma_row_messages(definition, definition.rows@.len() as int, q);
    }
}

} // verus!
