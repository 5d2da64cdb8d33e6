//! What comes of an event in a state.
use crate::model::MachineDef;
use crate::outcome::{are_arguments, is_outcome};
use crate::runtime::{Plan, ProcessError};
use crate::selection::{
    is_candidate, is_next, is_step, left, lemma_fewer_left, row_applies, tried_before, Step,
};
use crate::state::{accepts, admits, same_event, Context, Event, State};
use crate::table::Table;
use vstd::prelude::*;

verus! {

/// Whether the context can give an answer where it is asked for the guard of row `r` with the
/// values that the row names.
pub open spec fn answers<V, F, C: Context<V, F>>(
    context: C,
    definition: MachineDef,
    r: int,
    state: State<V>,
    event: Event<V>,
    answer: bool,
) -> bool {
    definition.rows@[r].guard matches Some(callable) && exists|name: &str, values: &Vec<&V>|
        name@ == callable.name.name@ && are_arguments(
            definition,
            r,
            state,
            event,
            callable,
            values@,
        ) && #[trigger] call_ensures(
            <C as Context<V, F>>::guard,
            (&context, name, values),
            answer,
        )
}

/// Whether the context can give an effect where it is asked for the effect of row `r` with the
/// values that the row names.
pub open spec fn produces<V, F, C: Context<V, F>>(
    context: C,
    definition: MachineDef,
    r: int,
    state: State<V>,
    event: Event<V>,
    effect: F,
) -> bool {
    definition.rows@[r].effect matches Some(callable) && exists|name: &str, values: &Vec<&V>|
        name@ == callable.name.name@ && are_arguments(
            definition,
            r,
            state,
            event,
            callable,
            values@,
        ) && #[trigger] call_ensures(
            <C as Context<V, F>>::effect,
            (&context, name, values),
            effect,
        )
}

/// Whether the rows for the event that are not tried after row `after` have guards that said no.
pub open spec fn all_refused<V, F, C: Context<V, F>>(
    context: C,
    definition: MachineDef,
    state: State<V>,
    event: Event<V>,
    after: Option<usize>,
) -> bool {
    forall|j: int| #[trigger]
        row_applies(definition, state.id as int, event.id as int, j) && !is_candidate(
            definition,
            state.id as int,
            event.id as int,
            after,
            j,
        ) ==> answers(context, definition, j, state, event, false)
}

/// Whether row `r` is selected: it is for the event, its guard, where it has one, said yes, and
/// each row for the event that is tried before it has a guard that said no.
pub open spec fn is_selected<V, F, C: Context<V, F>>(
    context: C,
    definition: MachineDef,
    state: State<V>,
    event: Event<V>,
    r: int,
) -> bool {
    let l = state.id as int;
    let e = event.id as int;
    &&& row_applies(definition, l, e, r)
    &&& definition.rows@[r].guard is Some ==> answers(context, definition, r, state, event, true)
    &&& forall|j: int| #[trigger]
        row_applies(definition, l, e, j) && tried_before(definition, l, j, r) ==> answers(
            context,
            definition,
            j,
            state,
            event,
            false,
        )
}

/// What comes of an event in a state: the selected row decides, with the effect of its factory;
/// or no row is selected, where each row for the event has a guard that said no.
pub open spec fn is_evaluation<V: Clone, F, C: Context<V, F>>(
    context: C,
    definition: MachineDef,
    state: State<V>,
    event: Event<V>,
    result: Result<Plan<State<V>, usize, F>, ProcessError<usize, Event<V>, usize>>,
) -> bool {
    match result {
        Err(ProcessError::Unhandled { state: at, event: of }) => {
            &&& at == state.id
            &&& same_event(event, of)
            &&& forall|j: int| #[trigger]
                row_applies(definition, state.id as int, event.id as int, j) ==> answers(
                    context,
                    definition,
                    j,
                    state,
                    event,
                    false,
                )
        },
        Err(ProcessError::Rejected(_)) => exists|r: int|
            is_selected(context, definition, state, event, r) && #[trigger] is_outcome(
                definition,
                r,
                state,
                event,
                result,
            ),
        Ok(plan) => exists|r: int|
            is_selected(context, definition, state, event, r) && #[trigger] is_outcome(
                definition,
                r,
                state,
                event,
                result,
            ) && (plan.effect matches Some(effect) ==> produces(
                context,
                definition,
                r,
                state,
                event,
                effect,
            )),
    }
}

impl<'a> Table<'a> {
    /// Finds what comes of an event in a state, without changing anything.
    pub fn evaluate<V: Clone, F, C: Context<V, F>>(
        &self,
        state: &State<V>,
        event: &Event<V>,
        context: &C,
    ) -> (result: Result<Plan<State<V>, usize, F>, ProcessError<usize, Event<V>, usize>>)
        requires
            admits(self.source(), *state),
            accepts(self.source(), *event),
        ensures
            is_evaluation(*context, self.source(), *state, *event, result),
            result matches Ok(plan) ==> admits(self.source(), plan.to),
    {
        let ghost def = self.source();
        let ghost l = state.id as int;
        let ghost e = event.id as int;
        let ghost mut after: Option<usize> = None;
        let mut step = self.first(state.id, event.id);
        loop
            invariant
                def == self.source(),
                l == state.id,
                e == event.id,
                admits(def, *state),
                accepts(def, *event),
                is_step(def, l, e, after, step),
                all_refused(*context, def, *state, *event, after),
            decreases left(def, l, e, after, def.rows@.len() as int),
        {
            match step {
                Step::Unhandled => {
                    assert forall|j: int| #[trigger] row_applies(def, l, e, j) implies answers(
                        *context,
                        def,
                        j,
                        *state,
                        *event,
                        false,
                    ) by {
                        assert(!is_candidate(def, l, e, after, j));
                    }
                    return Err(
                        ProcessError::Unhandled { state: state.id, event: event.clone() },
                    );
                },
                Step::Take(row) => {
                    proof {
                        lemma_selected(*context, def, *state, *event, after, row);
                    }
                    return self.take(row, state, event, context);
                },
                Step::Ask(row) => {
                    let allowed = self.ask(row, state, event, context);
                    if allowed {
                        proof {
                            lemma_selected(*context, def, *state, *event, after, row);
                        }
                        return self.take(row, state, event, context);
                    }
                    step = self.refused(state.id, event.id, row);
                    proof {
                        lemma_fewer_left(def, l, e, after, row, def.rows@.len() as int);
                        assert forall|j: int| #[trigger]
                            row_applies(def, l, e, j) && !is_candidate(
                                def,
                                l,
                                e,
                                Some(row),
                                j,
                            ) implies answers(*context, def, j, *state, *event, false) by {
                            if is_candidate(def, l, e, after, j) {
                                assert(j == row as int);
                            }
                        }
                        after = Some(row);
                    }
                },
            }
        }
    }

    /// Asks the guard of a row.
    fn ask<V, F, C: Context<V, F>>(
        &self,
        row: usize,
        state: &State<V>,
        event: &Event<V>,
        context: &C,
    ) -> (answer: bool)
        requires
            admits(self.source(), *state),
            accepts(self.source(), *event),
            row_applies(self.source(), state.id as int, event.id as int, row as int),
            self.source().rows@[row as int].guard is Some,
        ensures
            answers(*context, self.source(), row as int, *state, *event, answer),
    {
        match self.guard_call(row, state, event) {
            Some((name, values)) => {
                let answer = context.guard(name, &values);
                assert(call_ensures(
                    <C as Context<V, F>>::guard,
                    (context, name, &values),
                    answer,
                ));
                answer
            },
            None => {
                assert(false);
                false
            },
        }
    }

    /// Calls the effect factory of a selected row, where there is one, and concludes.
    fn take<V: Clone, F, C: Context<V, F>>(
        &self,
        row: usize,
        state: &State<V>,
        event: &Event<V>,
        context: &C,
    ) -> (result: Result<Plan<State<V>, usize, F>, ProcessError<usize, Event<V>, usize>>)
        requires
            admits(self.source(), *state),
            accepts(self.source(), *event),
            row_applies(self.source(), state.id as int, event.id as int, row as int),
        ensures
            is_outcome(self.source(), row as int, *state, *event, result),
            result matches Ok(plan) ==> admits(self.source(), plan.to) && (
            plan.effect matches Some(effect) ==> produces(
                *context,
                self.source(),
                row as int,
                *state,
                *event,
                effect,
            )),
    {
        let mut effect: Option<F> = None;
        if self.accepting(row) {
            if let Some((name, values)) = self.effect_call(row, state, event) {
                let made = context.effect(name, &values);
                assert(call_ensures(
                    <C as Context<V, F>>::effect,
                    (context, name, &values),
                    made,
                ));
                effect = Some(made);
            }
        }
        self.conclude(row, state, event, effect)
    }
}

/// A row that is tried next after refused rows is selected where it has no guard or its guard
/// said yes.
proof fn lemma_selected<V, F, C: Context<V, F>>(
    context: C,
    definition: MachineDef,
    state: State<V>,
    event: Event<V>,
    after: Option<usize>,
    row: usize,
)
    requires
        all_refused(context, definition, state, event, after),
        is_next(definition, state.id as int, event.id as int, after, row as int),
        definition.rows@[row as int].guard is Some ==> answers(
            context,
            definition,
            row as int,
            state,
            event,
            true,
        ),
    ensures
        is_selected(context, definition, state, event, row as int),
{
    let l = state.id as int;
    let e = event.id as int;
    assert forall|j: int| #[trigger]
        row_applies(definition, l, e, j) && tried_before(definition, l, j, row as int) implies answers(
        context,
        definition,
        j,
        state,
        event,
        false,
    ) by {
        if is_candidate(definition, l, e, after, j) {
            assert(tried_before(definition, l, row as int, j));
        }
    }
}

} // verus!
