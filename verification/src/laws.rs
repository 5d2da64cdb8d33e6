//! What holds of every machine.
use crate::bindings::{lemma_levels, target_of, targets_are_filled};
use crate::code::{name_of, text_of, CodeView};
use crate::error::MessageView;
use crate::evaluate::{answers, is_evaluation, is_selected};
use crate::expand::rows::{initial_code, row_code, target_fields_code};
use crate::expand::{blocks_code, expansion, levels_code, ValidatedView};
use crate::model::{
    flattened, Callable, CallableRole, FieldDef, Flat, MachineDef, Row, RowSource, StateNode,
    TargetState, VariantDef,
};
use crate::outcome::{is_outcome, is_plan};
use crate::parse::cursor::{is_group, is_punct, name_syntax, separator_syntax};
use crate::parse::definition::{
    blank, entries_syntax, entry_syntax, lemma_entry_advances, DraftView,
};
use crate::parse::reads;
use crate::parse::states::{behind_braces, behind_mark, nodes_syntax, state_body_syntax};
use crate::runtime::{Plan, ProcessError};
use crate::selection::{passes, row_applies, selects, tried_before};
use crate::state::{accepts, admits, Context, Event, State};
use crate::token::{are_resolved, is_resolved, Delimiter, Ident, Token, TreeView};
use crate::validate::callables::{first_callable, CallableView};
use crate::validate::coverage::{
    ancestor, applies, covers, distance, levels_to, reached_at, shadows,
};
use crate::validate::declarations::{first_initial, initial_leaf, lemma_first_initial};
use crate::validate::lookup::{has_field, last_state, lemma_last_field, lemma_last_state};
use crate::validate::rows::{event_check, source_check};
use crate::validate::{
    collected, context_errors, effect_errors, first_effect, noted_use, some_async, states_of,
    table_of,
};
use crate::valid::{
    ancestors_are_compound, bindings_of, effect_noted, entering_ends_in_a_leaf, event_name,
    every_event_is_handled, every_row_is_reachable, guard_noted, label_of, lemma_found_by_name,
    lemma_no_messages, lemma_row_messages, machines_start_in_a_leaf, reason_of, state_name, valid,
};
use crate::views::{node_list, node_view, NodeView, VariantView};
use vstd::prelude::*;

verus! {

/// Whether row `r` is for the state `k` levels above leaf `l`, which is the leaf itself where `k`
/// is zero.
pub open spec fn is_at_level(definition: MachineDef, l: int, r: int, k: nat) -> bool {
    definition.rows@[r].source matches RowSource::State(pattern) && ancestor(
        states_of(definition),
        state_name(states_of(definition), l),
        k,
    ) == Some(pattern.name.name@)
}

pub(crate) proof fn lemma_ancestor_of_ancestor(states: Seq<Flat>, name: Seq<char>, k: nat, more: nat)
    requires
        ancestor(states, name, k) is Some,
    ensures
        ancestor(states, name, k + more) == ancestor(
            states,
            ancestor(states, name, k)->0,
            more,
        ),
    decreases more,
{
    if more > 0 {
        lemma_ancestor_of_ancestor(states, name, k, (more - 1) as nat);
        assert((k + more - 1) as nat == k + (more - 1) as nat);
    }
}

/// A state is above a leaf on one level only.
proof fn lemma_one_level(definition: MachineDef, l: int, low: nat, high: nat)
    requires
        valid(definition),
        0 <= l < states_of(definition).len(),
        low < high,
        ancestor(states_of(definition), state_name(states_of(definition), l), low) is Some,
    ensures
        ancestor(states_of(definition), state_name(states_of(definition), l), low) != ancestor(
            states_of(definition),
            state_name(states_of(definition), l),
            high,
        ),
{
    let states = states_of(definition);
    let own = state_name(states, l);
    let name = ancestor(states, own, low)->0;
    if ancestor(states, own, high) == Some(name) {
        ancestors_are_compound(definition, l, low);
        let a = choose|a: int|
            #![trigger state_name(states, a)]
            0 <= a <= l - low && state_name(states, a) == name;
        lemma_ancestor_of_ancestor(states, own, low, (high - low) as nat);
        assert(low + (high - low) as nat == high);
        ancestors_are_compound(definition, a, (high - low) as nat);
        let b = choose|b: int|
            #![trigger state_name(states, b)]
            0 <= b <= a - (high - low) as nat && state_name(states, b) == name;
        lemma_found_by_name(definition, a);
        lemma_found_by_name(definition, b);
    }
}

pub(crate) proof fn lemma_least_level(states: Seq<Flat>, name: Seq<char>, target: Seq<char>, from: nat, k: nat)
    requires
        from <= k < states.len(),
        ancestor(states, name, k) == Some(target),
        forall|i: nat| from <= i < k ==> #[trigger] ancestor(states, name, i) != Some(target),
    ensures
        levels_to(states, name, target, from) == Some(k),
    decreases k - from,
{
    if from < k {
        assert(ancestor(states, name, from) != Some(target));
        lemma_least_level(states, name, target, from + 1, k);
    }
}

proof fn lemma_distance_is_level(definition: MachineDef, l: int, r: int, k: nat)
    requires
        valid(definition),
        0 <= l < states_of(definition).len(),
        is_at_level(definition, l, r, k),
    ensures
        distance(
            definition.rows@[r],
            state_name(states_of(definition), l),
            states_of(definition),
        ) == Some(k),
        k < states_of(definition).len(),
{
    let states = states_of(definition);
    let own = state_name(states, l);
    let target = definition.rows@[r].source->State_0.name.name@;
    ancestors_are_compound(definition, l, k);
    assert forall|i: nat| 0 <= i < k implies #[trigger] ancestor(states, own, i) != Some(target) by {
        if ancestor(states, own, i) is Some {
            lemma_one_level(definition, l, i, k);
        }
    }
    lemma_least_level(states, own, target, 0, k);
}

/// The rows of the active leaf are tried first, then those of its ancestors from the nearest to
/// the farthest, and those for any source last, wherever they stand in the table. The rows of one
/// level are tried in the order of the table.
pub proof fn rows_are_tried_from_the_leaf_up(definition: MachineDef, l: int, i: int, j: int)
    requires
        valid(definition),
        0 <= l < states_of(definition).len() <= usize::MAX,
        0 <= i < definition.rows@.len(),
        0 <= j < definition.rows@.len(),
    ensures
        forall|low: nat, high: nat|
            #![trigger is_at_level(definition, l, i, low), is_at_level(definition, l, j, high)]
            is_at_level(definition, l, i, low) && is_at_level(definition, l, j, high) && low < high
                ==> tried_before(definition, l, i, j),
        forall|level: nat|
            #![trigger is_at_level(definition, l, i, level), is_at_level(definition, l, j, level)]
            is_at_level(definition, l, i, level) && is_at_level(definition, l, j, level) ==> (
            tried_before(definition, l, i, j) <==> i < j),
        forall|level: nat| #[trigger]
            is_at_level(definition, l, i, level) && definition.rows@[j].source is Any
                ==> tried_before(definition, l, i, j),
        definition.rows@[i].source is Any && definition.rows@[j].source is Any ==> (tried_before(
            definition,
            l,
            i,
            j,
        ) <==> i < j),
{
    assert forall|low: nat, high: nat|
        #![trigger is_at_level(definition, l, i, low), is_at_level(definition, l, j, high)]
        is_at_level(definition, l, i, low) && is_at_level(definition, l, j, high) && low
            < high implies tried_before(definition, l, i, j) by {
        lemma_distance_is_level(definition, l, i, low);
        lemma_distance_is_level(definition, l, j, high);
    }
    assert forall|level: nat|
        #![trigger is_at_level(definition, l, i, level), is_at_level(definition, l, j, level)]
        is_at_level(definition, l, i, level) && is_at_level(definition, l, j, level) implies (
    tried_before(definition, l, i, j) <==> i < j) by {
        lemma_distance_is_level(definition, l, i, level);
        lemma_distance_is_level(definition, l, j, level);
    }
    assert forall|level: nat| #[trigger]
        is_at_level(definition, l, i, level)
            && definition.rows@[j].source is Any implies tried_before(definition, l, i, j) by {
        lemma_distance_is_level(definition, l, i, level);
    }
}

/// A row is for a leaf exactly where it names the leaf, one of its ancestors, or any source.
pub proof fn rows_apply_to_a_leaf(definition: MachineDef, l: int, r: int)
    requires
        valid(definition),
        0 <= l < states_of(definition).len(),
        0 <= r < definition.rows@.len(),
    ensures
        distance(
            definition.rows@[r],
            state_name(states_of(definition), l),
            states_of(definition),
        ) is Some <==> definition.rows@[r].source is Any || exists|k: nat|
            is_at_level(definition, l, r, k),
{
    let states = states_of(definition);
    let own = state_name(states, l);
    if let RowSource::State(pattern) = definition.rows@[r].source {
        lemma_levels(states, own, pattern.name.name@, 0);
        if let Some(d) = levels_to(states, own, pattern.name.name@, 0) {
            assert(is_at_level(definition, l, r, d));
        }
        if exists|k: nat| is_at_level(definition, l, r, k) {
            let k = choose|k: nat| is_at_level(definition, l, r, k);
            lemma_distance_is_level(definition, l, r, k);
        }
    }
}

/// A row is for an event in a leaf exactly where it names the event or any event, and names the
/// leaf, one of its ancestors, or any source.
pub proof fn rows_apply_to_the_leaf_and_above(definition: MachineDef, l: int, e: int, r: int)
    requires
        valid(definition),
        0 <= l < states_of(definition).len(),
        0 <= e < definition.events@.len(),
        0 <= r < definition.rows@.len(),
    ensures
        row_applies(definition, l, e, r) <==> covers(
            definition.rows@[r],
            event_name(definition, e),
        ) && (definition.rows@[r].source is Any || exists|k: nat|
            is_at_level(definition, l, r, k)),
{
    rows_apply_to_a_leaf(definition, l, r);
}

/// The guard of row `r` says yes, and all others say no.
pub open spec fn only(r: int) -> spec_fn(int) -> bool {
    |i: int| i == r
}

/// Each row is selected for some event in some leaf, where its own guard says yes and all others
/// say no.
pub proof fn every_row_can_be_selected(definition: MachineDef, r: int)
    requires
        valid(definition),
        0 <= r < definition.rows@.len(),
    ensures
        exists|l: int, e: int|
            0 <= l < states_of(definition).len() && !states_of(definition)[l].node.compound() && 0
                <= e < definition.events@.len() && #[trigger] selects(
                definition,
                l,
                e,
                only(r),
                r,
            ),
{
    let states = states_of(definition);
    every_row_is_reachable(definition, r);
    let (l, e) = choose|l: int, e: int|
        0 <= l < states.len() && 0 <= e < definition.events@.len() && #[trigger] reached_at(
            definition,
            states,
            r,
            l,
            e,
        );
    let verdict = only(r);
    assert forall|j: int| #[trigger]
        row_applies(definition, l, e, j) && passes(definition, verdict, j) implies j == r
        || tried_before(definition, l, r, j) by {
        assert(!shadows(
            definition.rows@,
            states,
            state_name(states, l),
            event_name(definition, e),
            j,
            r,
        ));
    }
    assert(selects(definition, l, e, verdict, r));
}

/// An event is left unhandled only by guards: some row is for it, and each such row has a guard
/// that said no.
pub proof fn only_guards_leave_events_unhandled<V: Clone, F, C: Context<V, F>>(
    context: C,
    definition: MachineDef,
    state: State<V>,
    event: Event<V>,
    result: Result<Plan<State<V>, usize, F>, ProcessError<usize, Event<V>, usize>>,
)
    requires
        valid(definition),
        admits(definition, state),
        accepts(definition, event),
        is_evaluation(context, definition, state, event, result),
        result matches Err(ProcessError::Unhandled { .. }),
    ensures
        exists|r: int| #[trigger] row_applies(definition, state.id as int, event.id as int, r),
        forall|r: int| #[trigger]
            row_applies(definition, state.id as int, event.id as int, r)
                ==> definition.rows@[r].guard is Some && answers(
                context,
                definition,
                r,
                state,
                event,
                false,
            ),
{
    let states = states_of(definition);
    let l = state.id as int;
    let e = event.id as int;
    every_event_is_handled(definition, l, e);
    let r = choose|r: int|
        0 <= r < definition.rows@.len() && #[trigger] applies(
            definition.rows@[r],
            state_name(states, l),
            event_name(definition, e),
            states,
        );
    assert(row_applies(definition, l, e, r));
}

/// Whether the guards of a context give one answer each.
pub open spec fn answers_are_settled<V, F, C: Context<V, F>>(
    context: C,
    definition: MachineDef,
    state: State<V>,
    event: Event<V>,
) -> bool {
    forall|r: int|
        !(#[trigger] answers(context, definition, r, state, event, true) && answers(
            context,
            definition,
            r,
            state,
            event,
            false,
        ))
}

/// Where each guard gives one answer, no two rows can be selected for an event in a state, and
/// none can where the event is left unhandled.
pub proof fn settled_answers_select_one_row<V, F, C: Context<V, F>>(
    context: C,
    definition: MachineDef,
    state: State<V>,
    event: Event<V>,
    i: int,
    j: int,
)
    requires
        answers_are_settled(context, definition, state, event),
        is_selected(context, definition, state, event, i),
    ensures
        is_selected(context, definition, state, event, j) ==> i == j,
        !(forall|r: int| #[trigger]
            row_applies(definition, state.id as int, event.id as int, r) ==> answers(
                context,
                definition,
                r,
                state,
                event,
                false,
            )),
{
    let l = state.id as int;
    let e = event.id as int;
    assert(row_applies(definition, l, e, i));
    if is_selected(context, definition, state, event, j) && i != j {
        assert(row_applies(definition, l, e, j));
        assert(tried_before(definition, l, i, j) || tried_before(definition, l, j, i));
    }
}

/// A selected rejection stops the selection: the event is rejected, and no other row is tried.
pub proof fn rejections_stop_the_selection<V: Clone, F>(
    definition: MachineDef,
    r: int,
    state: State<V>,
    event: Event<V>,
    result: Result<Plan<State<V>, usize, F>, ProcessError<usize, Event<V>, usize>>,
)
    requires
        is_outcome(definition, r, state, event, result),
    ensures
        reason_of(definition.rows@[r].outcome) is Some <==> result matches Err(
            ProcessError::Rejected(_),
        ),
        label_of(definition.rows@[r].outcome) is Some <==> result is Ok,
{
}

/// Whether clones of payload values are equal to them.
pub open spec fn clones_are_equal<V: Clone>() -> bool {
    forall|a: V, b: V| #[trigger] cloned(a, b) ==> a == b
}

/// A row without a target accepts the event and keeps the active state, with its payload.
pub proof fn staying_keeps_the_state<V: Clone, F>(
    definition: MachineDef,
    r: int,
    state: State<V>,
    event: Event<V>,
    plan: Plan<State<V>, usize, F>,
)
    requires
        is_plan(definition, r, state, event, plan),
        target_of(definition.rows@[r]) is None,
        clones_are_equal::<V>(),
    ensures
        plan.to.id == state.id,
        plan.to.payload@ == state.payload@,
        plan.from.payload@ == state.payload@,
{
    assert(plan.to.payload@ =~= state.payload@) by {
        assert forall|i: int| 0 <= i < state.payload@.len() implies plan.to.payload@[i]
            == state.payload@[i] by {
            assert(cloned(state.payload@[i], plan.to.payload@[i]));
        }
    }
    assert(plan.from.payload@ =~= state.payload@) by {
        assert forall|i: int| 0 <= i < state.payload@.len() implies plan.from.payload@[i]
            == state.payload@[i] by {
            assert(cloned(state.payload@[i], plan.from.payload@[i]));
        }
    }
}

/// Whether callbacks are those at the start of others.
spec fn known_first(some: Seq<CallableView>, all: Seq<CallableView>) -> bool {
    &&& some.len() <= all.len()
    &&& forall|i: int| 0 <= i < some.len() ==> (#[trigger] some[i]) == all[i]
}

proof fn lemma_first_callable(callables: Seq<CallableView>, i: int, name: Seq<char>)
    requires
        0 <= i,
    ensures
        first_callable(callables, i, name) matches Some(k) ==> i <= k < callables.len(),
    decreases callables.len() - i,
{
    if i < callables.len() && callables[i].name.name@ != name {
        lemma_first_callable(callables, i + 1, name);
    }
}

/// A use of a callback without messages is recorded with its role and its mode.
proof fn lemma_use_is_known(
    callable: Option<Callable>,
    role: CallableRole,
    bindings: Seq<FieldDef>,
    callables: Seq<CallableView>,
)
    ensures
        known_first(callables, noted_use(callable, role, bindings, callables).callables),
        callable is Some && noted_use(callable, role, bindings, callables).errors.len() == 0
            ==> exists|k: int|
            0 <= k < noted_use(callable, role, bindings, callables).callables.len() && (
            #[trigger] noted_use(callable, role, bindings, callables).callables[k]).role == role
                && noted_use(callable, role, bindings, callables).callables[k].is_async
                == callable->0.is_async,
        some_async(
            noted_use(callable, role, bindings, callables).callables,
            noted_use(callable, role, bindings, callables).callables.len() as int,
        ) ==> some_async(callables, callables.len() as int) || (callable matches Some(used)
            && used.is_async),
{
    let after = noted_use(callable, role, bindings, callables).callables;
    if let Some(used) = callable {
        lemma_first_callable(callables, 0, used.name.name@);
        match first_callable(callables, 0, used.name.name@) {
            Some(k) => {
                assert(after == callables);
                assert(after[k] == callables[k]);
            },
            None => {
                assert(after[callables.len() as int].role == role);
            },
        }
        if some_async(after, after.len() as int) {
            let i = choose|i: int| 0 <= i < after.len() && (#[trigger] after[i]).is_async;
            if i < callables.len() {
                assert(callables[i] == after[i]);
            }
        }
    }
}

proof fn lemma_known_stay_known(definition: MachineDef, n: int, m: int)
    requires
        0 <= n <= m,
    ensures
        known_first(collected(definition, n).callables, collected(definition, m).callables),
    decreases m,
{
    if n < m {
        let row = definition.rows@[m - 1];
        lemma_known_stay_known(definition, n, m - 1);
        lemma_use_is_known(
            row.guard,
            CallableRole::Guard,
            bindings_of(definition, m - 1),
            collected(definition, m - 1).callables,
        );
        lemma_use_is_known(
            row.effect,
            CallableRole::Effect,
            bindings_of(definition, m - 1),
            guard_noted(definition, m - 1).callables,
        );
        let before = collected(definition, m - 1).callables;
        let guard = guard_noted(definition, m - 1).callables;
        let after = collected(definition, m).callables;
        assert(after == effect_noted(definition, m - 1).callables);
        assert forall|i: int| 0 <= i < collected(definition, n).callables.len() implies (
        #[trigger] collected(definition, n).callables[i]) == after[i] by {
            assert(before[i] == guard[i]);
            assert(guard[i] == after[i]);
        }
    }
}

/// The callbacks of row `r` are among those of the table, with their roles and modes.
proof fn lemma_uses_are_known(definition: MachineDef, r: int)
    requires
        valid(definition),
        0 <= r < definition.rows@.len(),
    ensures
        definition.rows@[r].guard matches Some(used) ==> exists|k: int|
            0 <= k < table_of(definition).callables.len() && (#[trigger] table_of(
                definition,
            ).callables[k]).is_async == used.is_async,
        definition.rows@[r].effect matches Some(used) ==> exists|k: int|
            0 <= k < table_of(definition).callables.len() && (#[trigger] table_of(
                definition,
            ).callables[k]).role == CallableRole::Effect && table_of(
                definition,
            ).callables[k].is_async == used.is_async,
{
    let row = definition.rows@[r];
    let n = definition.rows@.len() as int;
    let all = table_of(definition).callables;
    let guard = guard_noted(definition, r).callables;
    let effect = effect_noted(definition, r).callables;
    lemma_no_messages(definition);
    lemma_row_messages(definition, n, r);
    lemma_use_is_known(
        row.guard,
        CallableRole::Guard,
        bindings_of(definition, r),
        collected(definition, r).callables,
    );
    lemma_use_is_known(row.effect, CallableRole::Effect, bindings_of(definition, r), guard);
    lemma_known_stay_known(definition, r + 1, n);
    assert(collected(definition, r + 1).callables == effect);
    if let Some(used) = row.guard {
        let k = choose|k: int|
            0 <= k < guard.len() && (#[trigger] guard[k]).role == CallableRole::Guard
                && guard[k].is_async == used.is_async;
        assert(effect[k] == guard[k]);
        assert(all[k] == effect[k]);
    }
    if let Some(used) = row.effect {
        let k = choose|k: int|
            0 <= k < effect.len() && (#[trigger] effect[k]).role == CallableRole::Effect
                && effect[k].is_async == used.is_async;
        assert(all[k] == effect[k]);
    }
}

proof fn lemma_first_effect(callables: Seq<CallableView>, i: int, k: int)
    requires
        0 <= i <= k < callables.len(),
        callables[k].role == CallableRole::Effect,
    ensures
        first_effect(callables, i) is Some,
    decreases k - i,
{
    if callables[i].role != CallableRole::Effect {
        lemma_first_effect(callables, i + 1, k);
    }
}

/// A definition without a context type uses no callbacks, and one without an effect type uses no
/// effect factories.
pub proof fn callbacks_have_their_types(definition: MachineDef, r: int)
    requires
        valid(definition),
        0 <= r < definition.rows@.len(),
    ensures
        definition.context is None ==> definition.rows@[r].guard is None
            && definition.rows@[r].effect is None,
        definition.effect is None ==> definition.rows@[r].effect is None,
{
    let all = table_of(definition).callables;
    lemma_uses_are_known(definition, r);
    assert(context_errors(definition, all).len() == 0 && effect_errors(definition, all).len() == 0);
    if definition.rows@[r].effect is Some {
        let k = choose|k: int|
            0 <= k < all.len() && (#[trigger] all[k]).role == CallableRole::Effect;
        lemma_first_effect(all, 0, k);
    }
}

/// Whether a row has an async callback.
pub open spec fn has_async(row: Row) -> bool {
    ||| row.guard matches Some(callable) && callable.is_async
    ||| row.effect matches Some(callable) && callable.is_async
}

proof fn lemma_async_is_used(definition: MachineDef, n: int)
    requires
        0 <= n <= definition.rows@.len(),
        some_async(
            collected(definition, n).callables,
            collected(definition, n).callables.len() as int,
        ),
    ensures
        exists|r: int| 0 <= r < n && has_async(#[trigger] definition.rows@[r]),
    decreases n,
{
    if n > 0 {
        let row = definition.rows@[n - 1];
        lemma_use_is_known(
            row.guard,
            CallableRole::Guard,
            bindings_of(definition, n - 1),
            collected(definition, n - 1).callables,
        );
        lemma_use_is_known(
            row.effect,
            CallableRole::Effect,
            bindings_of(definition, n - 1),
            guard_noted(definition, n - 1).callables,
        );
        assert(collected(definition, n).callables == effect_noted(definition, n - 1).callables);
        if has_async(row) {
            assert(has_async(definition.rows@[n - 1]));
        } else {
            lemma_async_is_used(definition, n - 1);
        }
    }
}

/// A machine is async exactly where a row has an async callback.
pub proof fn async_callbacks_make_async_machines(definition: MachineDef)
    requires
        valid(definition),
    ensures
        some_async(table_of(definition).callables, table_of(definition).callables.len() as int)
            <==> exists|r: int|
            0 <= r < definition.rows@.len() && has_async(#[trigger] definition.rows@[r]),
{
    let all = table_of(definition).callables;
    let n = definition.rows@.len() as int;
    if some_async(all, all.len() as int) {
        lemma_async_is_used(definition, n);
    }
    if exists|r: int| 0 <= r < n && has_async(#[trigger] definition.rows@[r]) {
        let r = choose|r: int| 0 <= r < n && has_async(#[trigger] definition.rows@[r]);
        lemma_uses_are_known(definition, r);
        if definition.rows@[r].guard matches Some(used) && used.is_async {
            let k = choose|k: int| 0 <= k < all.len() && (#[trigger] all[k]).is_async == true;
            assert(all[k].is_async);
        } else {
            let k = choose|k: int|
                0 <= k < all.len() && (#[trigger] all[k]).role == CallableRole::Effect
                    && all[k].is_async == true;
            assert(all[k].is_async);
        }
    }
}

proof fn lemma_initial_code(node: StateNode)
    requires
        initial_leaf(node) is Some,
    ensures
        initial_code(node) == Ok::<Seq<CodeView>, MessageView>(
            text_of("State::") + name_of(initial_leaf(node)->0.variant.name),
        ),
    decreases node,
{
    if node.compound() {
        lemma_first_initial(node.children@, 0);
        lemma_initial_code(node.children@[first_initial(node.children@, 0)->0]);
    }
}

proof fn lemma_target_fields_code(target: TargetState, variant: VariantDef, n: int)
    requires
        0 <= n <= target.fields@.len(),
        forall|i: int|
            0 <= i < target.fields@.len() ==> has_field(
                variant.fields@,
                variant.fields@.len() as int,
                (#[trigger] target.fields@[i]).name.name@,
            ),
    ensures
        target_fields_code(target, variant, n) is Ok,
    decreases n,
{
    if n > 0 {
        lemma_target_fields_code(target, variant, n - 1);
        assert(has_field(
            variant.fields@,
            variant.fields@.len() as int,
            target.fields@[n - 1].name.name@,
        ));
        lemma_last_field(
            variant.fields@,
            variant.fields@.len() as int,
            target.fields@[n - 1].name.name@,
        );
    }
}

proof fn lemma_row_code(definition: MachineDef, context_trait: Ident, r: int)
    requires
        valid(definition),
        0 <= r < definition.rows@.len(),
    ensures
        row_code(
            definition.rows@[r],
            definition,
            context_trait,
            states_of(definition),
        ) is Ok,
{
    let states = states_of(definition);
    let row = definition.rows@[r];
    lemma_no_messages(definition);
    lemma_row_messages(definition, definition.rows@.len() as int, r);
    targets_are_filled(definition, r);
    assert(source_check(row, states).errors.len() == 0);
    assert(event_check(row, definition.events@, source_check(row, states).bindings).errors.len()
        == 0);
    if let Some(target) = target_of(row) {
        let k = last_state(states, states.len() as int, target.name.name@)->0;
        lemma_last_state(states, states.len() as int, target.name.name@);
        if states[k].node.compound() {
            entering_ends_in_a_leaf(definition, k);
            lemma_initial_code(states[k].node);
        } else if states[k].node.variant.fields@.len() > 0 {
            lemma_target_fields_code(
                target,
                states[k].node.variant,
                target.fields@.len() as int,
            );
        }
    }
}

proof fn lemma_blocks_code(
    definition: MachineDef,
    context_trait: Ident,
    source: Option<Seq<char>>,
    n: int,
)
    requires
        valid(definition),
        0 <= n <= definition.rows@.len(),
    ensures
        blocks_code(definition, context_trait, states_of(definition), source, n) is Ok,
    decreases n,
{
    if n > 0 {
        lemma_blocks_code(definition, context_trait, source, n - 1);
        lemma_row_code(definition, context_trait, n - 1);
    }
}

proof fn lemma_levels_code(definition: MachineDef, context_trait: Ident, n: int)
    requires
        valid(definition),
        0 <= n <= states_of(definition).len(),
    ensures
        levels_code(definition, context_trait, states_of(definition), n) is Ok,
    decreases n,
{
    if n > 0 {
        lemma_levels_code(definition, context_trait, n - 1);
        lemma_blocks_code(
            definition,
            context_trait,
            Some(states_of(definition)[n - 1].node.variant.name.name@),
            definition.rows@.len() as int,
        );
    }
}

/// Every valid definition expands: none of the messages on a name that disappeared is given.
pub proof fn valid_definitions_expand(
    definition: MachineDef,
    table: ValidatedView,
    context_trait: Ident,
)
    requires
        valid(definition),
    ensures
        expansion(definition, table, context_trait) is Ok,
{
    machines_start_in_a_leaf(definition);
    let root = first_initial(definition.states@, 0)->0;
    lemma_initial_code(definition.states@[root]);
    lemma_levels_code(definition, context_trait, states_of(definition).len() as int);
    lemma_blocks_code(definition, context_trait, None, definition.rows@.len() as int);
}

/// Whether a state and those below it carry a payload only where they are leaves.
pub open spec fn is_dataless(node: NodeView) -> bool
    decreases node,
{
    &&& node.children.len() > 0 ==> node.variant.fields.len() == 0
    &&& are_dataless(node.children)
}

/// Whether states and those below them carry a payload only where they are leaves.
pub open spec fn are_dataless(nodes: Seq<NodeView>) -> bool
    decreases nodes,
{
    forall|i: int| 0 <= i < nodes.len() ==> is_dataless(#[trigger] nodes[i])
}

proof fn lemma_read_dataless(tokens: Seq<Token>, at: int, end: proc_macro2::Span)
    requires
        0 <= at,
    ensures
        nodes_syntax(tokens, at, end) matches Ok(nodes) ==> are_dataless(nodes),
    decreases tokens, tokens.len() - at,
{
    if at < tokens.len() {
        if let Ok((name, body)) = name_syntax(tokens, behind_mark(tokens, at), end) {
            if let Ok((fields, children)) = state_body_syntax(tokens, body, name) {
                if is_group(tokens, body, Delimiter::Brace) {
                    lemma_read_dataless(tokens[body]->Group_1@, 0, tokens[body]->Group_3);
                }
                assert(are_dataless(children));
                if let Ok(next) = separator_syntax(
                    tokens,
                    behind_braces(tokens, body),
                    end,
                    "state"@,
                ) {
                    lemma_read_dataless(tokens, next, end);
                    if let Ok(rest) = nodes_syntax(tokens, next, end) {
                        let first = NodeView {
                            variant: VariantView { name, fields },
                            initial: is_punct(tokens, at, '*'),
                            children,
                        };
                        assert(is_dataless(first));
                        let all = seq![first] + rest;
                        assert forall|i: int| 0 <= i < all.len() implies is_dataless(
                            #[trigger] all[i],
                        ) by {
                            if i > 0 {
                                assert(all[i] == rest[i - 1]);
                            }
                        }
                    }
                }
            }
        }
    }
}

proof fn lemma_listed_dataless(nodes: Seq<StateNode>, parent: Option<Ident>)
    requires
        are_dataless(node_list(nodes)),
    ensures
        forall|i: int|
            0 <= i < flattened(nodes, parent).len() ==> ((#[trigger] flattened(
                nodes,
                parent,
            )[i]).node.compound() ==> flattened(nodes, parent)[i].node.variant.fields@.len() == 0),
    decreases nodes,
{
    if nodes.len() > 0 {
        let node = nodes.last();
        let views = node_list(nodes);
        let earlier = node_list(nodes.drop_last());
        let before = flattened(nodes.drop_last(), parent);
        let below = flattened(node.children@, Some(node.variant.name));
        let all = flattened(nodes, parent);
        assert(views == earlier.push(node_view(node)));
        assert(views[earlier.len() as int] == node_view(node));
        assert(is_dataless(node_view(node)));
        assert forall|i: int| 0 <= i < earlier.len() implies is_dataless(#[trigger] earlier[i]) by {
            assert(views[i] == earlier[i]);
        }
        lemma_node_count(node.children@);
        lemma_listed_dataless(nodes.drop_last(), parent);
        lemma_listed_dataless(node.children@, Some(node.variant.name));
        assert(all == before.push(Flat { node, parent }) + below);
        assert forall|i: int|
            0 <= i < all.len() && (
            #[trigger] all[i]).node.compound() implies all[i].node.variant.fields@.len() == 0 by {
            if i < before.len() {
                assert(all[i] == before[i]);
            } else if i > before.len() {
                assert(all[i] == below[i - before.len() - 1]);
            } else {
                assert(all[i].node == node);
            }
        }
    }
}

proof fn lemma_node_count(nodes: Seq<StateNode>)
    ensures
        node_list(nodes).len() == nodes.len(),
    decreases nodes.len(),
{
    if nodes.len() > 0 {
        lemma_node_count(nodes.drop_last());
    }
}

/// A definition that was read declares payloads for leaves only.
pub proof fn compound_states_carry_no_payload(
    definition: MachineDef,
    tokens: Seq<Token>,
    source: Seq<TreeView>,
    end: proc_macro2::Span,
    i: int,
)
    requires
        reads(Ok(definition), tokens, source, end),
        0 <= i < states_of(definition).len(),
        states_of(definition)[i].node.compound(),
    ensures
        states_of(definition)[i].node.variant.fields@.len() == 0,
{
    lemma_entries_dataless(tokens, source, 0, end, blank());
    lemma_listed_dataless(definition.states@, None);
    assert(states_of(definition)[i] == flattened(definition.states@, None)[i]);
}

proof fn lemma_entries_dataless(
    tokens: Seq<Token>,
    source: Seq<TreeView>,
    at: int,
    end: proc_macro2::Span,
    draft: DraftView,
)
    requires
        0 <= at,
        draft.states matches Some(states) ==> are_dataless(states),
    ensures
        entries_syntax(tokens, source, at, end, draft) matches Ok(known) ==> (
        known.states matches Some(states) ==> are_dataless(states)),
    decreases tokens.len() - at,
{
    if at < tokens.len() {
        lemma_entry_advances(tokens, source, at, end, draft);
        if let Ok((known, next)) = entry_syntax(tokens, source, at, end, draft) {
            assert(known.states matches Some(states) ==> are_dataless(states)) by {
                let start = at + 2;
                if is_group(tokens, start, Delimiter::Brace) {
                    lemma_read_dataless(tokens[start]->Group_1@, 0, tokens[start]->Group_3);
                }
            }
            lemma_entries_dataless(tokens, source, next, end, known);
        }
    }
}

/// A definition that was read has a name that can be made longer.
pub proof fn names_can_be_extended(
    definition: MachineDef,
    tokens: Seq<Token>,
    source: Seq<TreeView>,
    end: proc_macro2::Span,
)
    requires
        reads(Ok(definition), tokens, source, end),
        are_resolved(tokens),
    ensures
        definition.name.is_extensible(),
{
    lemma_entries_name(tokens, source, 0, end, blank());
}

proof fn lemma_entries_name(
    tokens: Seq<Token>,
    source: Seq<TreeView>,
    at: int,
    end: proc_macro2::Span,
    draft: DraftView,
)
    requires
        0 <= at,
        are_resolved(tokens),
        draft.name matches Some(name) ==> name.is_extensible(),
    ensures
        entries_syntax(tokens, source, at, end, draft) matches Ok(known) ==> (
        known.name matches Some(name) ==> name.is_extensible()),
    decreases tokens.len() - at,
{
    if at < tokens.len() {
        lemma_entry_advances(tokens, source, at, end, draft);
        if let Ok((known, next)) = entry_syntax(tokens, source, at, end, draft) {
            assert(known.name matches Some(name) ==> name.is_extensible()) by {
                let start = at + 2;
                if 0 <= start < tokens.len() {
                    assert(is_resolved(tokens[start]));
                }
            }
            lemma_entries_name(tokens, source, next, end, known);
        }
    }
}

} // verus!
