//! What handling an event means.
use crate::evaluate::{answers, is_evaluation, is_selected};
use crate::laws::clones_are_equal;
use crate::machine::planned;
use crate::meaning::levels::{goes_before, is_taken, lemma_differ, the_table_is_read_by_the_tree};
use crate::model::MachineDef;
use crate::outcome::is_outcome;
use crate::runtime::{Applied, Plan, ProcessError};
use crate::selection::{row_applies, tried_before};
use crate::state::{accepts, admits, same_event, same_state, Context, Event, State};
use crate::valid::valid;
use crate::validate::states_of;
use vstd::prelude::*;

verus! {

/// Whether a row is the one that handles an event: it is for the event in the active leaf, its
/// guard, where it has one, said yes, and each row for the event that goes before it has a guard
/// that said no.
pub open spec fn handles<V, F, C: Context<V, F>>(
    context: C,
    definition: MachineDef,
    state: State<V>,
    event: Event<V>,
    r: int,
) -> bool {
    &&& 0 <= r < definition.rows@.len()
    &&& is_taken(definition, state.id as int, event.id as int, r)
    &&& definition.rows@[r].guard is Some ==> answers(context, definition, r, state, event, true)
    &&& forall|j: int|
        0 <= j < definition.rows@.len() && #[trigger] is_taken(
            definition,
            state.id as int,
            event.id as int,
            j,
        ) && goes_before(definition, state.id as int, j, r) ==> definition.rows@[j].guard is Some
            && answers(context, definition, j, state, event, false)
}

proof fn lemma_handles<V, F, C: Context<V, F>>(
    context: C,
    definition: MachineDef,
    state: State<V>,
    event: Event<V>,
    r: int,
)
    requires
        valid(definition),
        states_of(definition).len() <= usize::MAX,
        admits(definition, state),
        accepts(definition, event),
        is_selected(context, definition, state, event, r),
    ensures
        handles(context, definition, state, event, r),
{
    let l = state.id as int;
    let e = event.id as int;
    lemma_differ(definition);
    the_table_is_read_by_the_tree(definition, l, e, r, r);
    assert forall|j: int|
        0 <= j < definition.rows@.len() && #[trigger] is_taken(definition, l, e, j) && goes_before(
            definition,
            l,
            j,
            r,
        ) implies definition.rows@[j].guard is Some && answers(
        context,
        definition,
        j,
        state,
        event,
        false,
    ) by {
        the_table_is_read_by_the_tree(definition, l, e, j, r);
        assert(row_applies(definition, l, e, j));
        assert(tried_before(definition, l, j, r));
    }
}

/// An event that is accepted or rejected was handled by one row, and what comes of it is the
/// outcome of that row. An event that is left unhandled is given back with the active state, and
/// each row for it has a guard that said no.
pub proof fn events_are_handled_by_the_first_row_that_passes<V: Clone, F, C: Context<V, F>>(
    context: C,
    definition: MachineDef,
    state: State<V>,
    event: Event<V>,
    result: Result<Plan<State<V>, usize, F>, ProcessError<usize, Event<V>, usize>>,
)
    requires
        valid(definition),
        states_of(definition).len() <= usize::MAX,
        admits(definition, state),
        accepts(definition, event),
        is_evaluation(context, definition, state, event, result),
    ensures
        match result {
            Err(ProcessError::Unhandled { state: at, event: of }) => {
                &&& at == state.id
                &&& of.id == event.id
                &&& of.payload@.len() == event.payload@.len()
                &&& forall|k: int|
                    0 <= k < event.payload@.len() ==> cloned(
                        #[trigger] event.payload@[k],
                        of.payload@[k],
                    )
                &&& forall|j: int|
                    0 <= j < definition.rows@.len() && #[trigger] is_taken(
                        definition,
                        state.id as int,
                        event.id as int,
                        j,
                    ) ==> definition.rows@[j].guard is Some && answers(
                        context,
                        definition,
                        j,
                        state,
                        event,
                        false,
                    )
            },
            _ => exists|r: int| #[trigger]
                handles(context, definition, state, event, r) && is_outcome(
                    definition,
                    r,
                    state,
                    event,
                    result,
                ),
        },
{
    let l = state.id as int;
    let e = event.id as int;
    lemma_differ(definition);
    match result {
        Err(ProcessError::Unhandled { .. }) => {
            assert forall|j: int|
                0 <= j < definition.rows@.len() && #[trigger] is_taken(
                    definition,
                    l,
                    e,
                    j,
                ) implies definition.rows@[j].guard is Some && answers(
                context,
                definition,
                j,
                state,
                event,
                false,
            ) by {
                the_table_is_read_by_the_tree(definition, l, e, j, j);
                assert(row_applies(definition, l, e, j));
            }
        },
        _ => {
            let r = choose|r: int|
                is_selected(context, definition, state, event, r) && #[trigger] is_outcome(
                    definition,
                    r,
                    state,
                    event,
                    result,
                );
            lemma_handles(context, definition, state, event, r);
            assert(handles(context, definition, state, event, r));
        },
    }
}

/// A machine can be in the leaves only, with one value for each payload field; it takes the events
/// of its definition only, again with one value for each payload field.
pub proof fn states_and_events_carry_their_payload<V>(
    definition: MachineDef,
    state: State<V>,
    event: Event<V>,
)
    ensures
        admits(definition, state) <==> exists|l: int|
            0 <= l < states_of(definition).len() && l == state.id && (#[trigger] states_of(
                definition,
            )[l]).node.children@.len() == 0 && states_of(definition)[l].node.variant.fields@.len()
                == state.payload@.len(),
        accepts(definition, event) <==> exists|e: int|
            0 <= e < definition.events@.len() && e == event.id && (
            #[trigger] definition.events@[e]).fields@.len() == event.payload@.len(),
{
    if admits(definition, state) {
        let l = state.id as int;
        assert(states_of(definition)[l].node.children@.len() == 0);
    }
    if accepts(definition, event) {
        let e = event.id as int;
        assert(definition.events@[e].fields@.len() == event.payload@.len());
    }
}

/// Where clones of payload values are equal to them, a copy of a state or of an event is equal to
/// it.
pub proof fn copies_are_equal<V: Clone>(
    one: State<V>,
    other: State<V>,
    event: Event<V>,
    copy: Event<V>,
)
    requires
        clones_are_equal::<V>(),
    ensures
        same_state(one, other) <==> one.id == other.id && one.payload@.len()
            == other.payload@.len() && forall|i: int|
            0 <= i < one.payload@.len() ==> cloned(#[trigger] one.payload@[i], other.payload@[i]),
        same_state(one, other) ==> one.id == other.id && one.payload@ == other.payload@,
        same_event(event, copy) ==> event.id == copy.id && event.payload@ == copy.payload@,
{
    if same_state(one, other) {
        assert forall|i: int| 0 <= i < one.payload@.len() implies one.payload@[i]
            == other.payload@[i] by {
            assert(cloned(one.payload@[i], other.payload@[i]));
        }
        assert(one.payload@ =~= other.payload@);
    }
    if same_event(event, copy) {
        assert forall|i: int| 0 <= i < event.payload@.len() implies event.payload@[i]
            == copy.payload@[i] by {
            assert(cloned(event.payload@[i], copy.payload@[i]));
        }
        assert(event.payload@ =~= copy.payload@);
    }
}

/// What was applied is what was planned: the same transition, from the same state to the same
/// state, with the same effect; and a failure stays as it is.
pub proof fn plans_are_applied_as_they_are<S, T, F, E>(result: Result<Applied<S, T, F>, E>)
    ensures
        match (result, planned(result)) {
            (Ok(applied), Ok(plan)) => applied.transition == plan.transition && applied.from
                == plan.from && applied.to == plan.to && applied.effect == plan.effect,
            (Err(one), Err(other)) => one == other,
            _ => false,
        },
{
}

} // verus!
