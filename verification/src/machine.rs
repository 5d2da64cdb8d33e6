//! A machine: a table, the active state, and the context of its callbacks.
use crate::evaluate::is_evaluation;
use crate::runtime::{Applied, Plan, ProcessError};
use crate::state::{accepts, admits, same_state, Context, Event, State};
use crate::table::Table;
use crate::validate::states_of;
use crate::valid::{is_within, starts_in};
use vstd::prelude::*;

verus! {

/// A machine: a table, the active state, and the context of its callbacks.
pub struct Machine<'t, 'a, V, C> {
    table: &'t Table<'a>,
    state: State<V>,
    context: C,
}

/// The plan that was carried out, where one was.
pub open spec fn planned<S, T, F, E>(result: Result<Applied<S, T, F>, E>) -> Result<
    Plan<S, T, F>,
    E,
> {
    match result {
        Ok(applied) => Ok(
            Plan {
                transition: applied.transition,
                from: applied.from,
                to: applied.to,
                effect: applied.effect,
            },
        ),
        Err(error) => Err(error),
    }
}

impl<'t, 'a, V, C> Machine<'t, 'a, V, C> {
    /// The table that the machine runs.
    pub closed spec fn runs(self) -> Table<'a> {
        *self.table
    }

    /// The active state.
    pub closed spec fn active(self) -> State<V> {
        self.state
    }

    /// The context of the callbacks.
    pub closed spec fn callbacks(self) -> C {
        self.context
    }

    /// Whether the active state is one that can be active.
    pub open spec fn well_formed(self) -> bool {
        admits(self.runs().source(), self.active())
    }

    /// A machine in its initial leaf.
    pub fn new(table: &'t Table<'a>, context: C) -> (machine: Machine<'t, 'a, V, C>)
        ensures
            machine.well_formed(),
            machine.runs() == *table,
            machine.callbacks() == context,
            starts_in(table.source(), machine.active().id as int),
            machine.active().payload@.len() == 0,
    {
        let state = State { id: table.initial(), payload: Vec::new() };
        Machine { table, state, context }
    }

    /// A machine in a state that was stored. No event is handled, and no effect is produced.
    pub fn from_state(table: &'t Table<'a>, state: State<V>, context: C) -> (machine: Machine<
        't,
        'a,
        V,
        C,
    >)
        requires
            admits(table.source(), state),
        ensures
            machine.well_formed(),
            machine.runs() == *table,
            machine.active() == state,
            machine.callbacks() == context,
    {
        Machine { table, state, context }
    }

    /// The table that the machine runs.
    pub fn table(&self) -> (table: &'t Table<'a>)
        ensures
            *table == self.runs(),
    {
        self.table
    }

    /// The active state.
    pub fn state(&self) -> (state: &State<V>)
        ensures
            *state == self.active(),
    {
        &self.state
    }

    /// The active leaf, without its payload.
    pub fn state_id(&self) -> (id: usize)
        ensures
            id == self.active().id,
    {
        self.state.id
    }

    /// The context of the callbacks.
    pub fn context(&self) -> (context: &C)
        ensures
            *context == self.callbacks(),
    {
        &self.context
    }

    /// The context of the callbacks, to be changed. The state stays as it is.
    pub fn context_mut(&mut self) -> (context: &mut C)
        ensures
            *context == old(self).callbacks(),
            final(self).callbacks() == *final(context),
            final(self).runs() == old(self).runs(),
            final(self).active() == old(self).active(),
    {
        &mut self.context
    }

    /// Whether the active leaf is a state or lies inside it.
    pub fn is_in(&self, ancestor: usize) -> (inside: bool)
        requires
            self.well_formed(),
            ancestor < states_of(self.runs().source()).len(),
        ensures
            inside == is_within(
                states_of(self.runs().source()),
                self.active().id as int,
                ancestor as int,
            ),
    {
        self.table.is_in(self.state.id, ancestor)
    }
}

impl<'t, 'a, V: Clone, C> Machine<'t, 'a, V, C> {
    /// Makes a plan true: the machine moves to its target.
    pub fn commit<F>(&mut self, plan: Plan<State<V>, usize, F>) -> (applied: Applied<
        State<V>,
        usize,
        F,
    >)
        requires
            admits(old(self).runs().source(), plan.to),
        ensures
            final(self).well_formed(),
            final(self).runs() == old(self).runs(),
            final(self).callbacks() == old(self).callbacks(),
            same_state(plan.to, final(self).active()),
            planned::<State<V>, usize, F, ()>(Ok(applied)) == Ok::<
                Plan<State<V>, usize, F>,
                (),
            >(plan),
    {
        self.state = plan.to.clone();
        plan.confirm()
    }

    /// Handles an event. An accepted event moves the machine; a rejected or unhandled one leaves
    /// it as it is.
    pub fn process<F>(&mut self, event: Event<V>) -> (result: Result<
        Applied<State<V>, usize, F>,
        ProcessError<usize, Event<V>, usize>,
    >) where C: Context<V, F>
        requires
            old(self).well_formed(),
            accepts(old(self).runs().source(), event),
        ensures
            final(self).well_formed(),
            final(self).runs() == old(self).runs(),
            final(self).callbacks() == old(self).callbacks(),
            is_evaluation(
                old(self).callbacks(),
                old(self).runs().source(),
                old(self).active(),
                event,
                planned(result),
            ),
            match result {
                Ok(applied) => same_state(applied.to, final(self).active()),
                Err(_) => final(self).active() == old(self).active(),
            },
    {
        match self.table.evaluate(&self.state, &event, &self.context) {
            Ok(plan) => Ok(self.commit(plan)),
            Err(error) => Err(error),
        }
    }
}

} // verus!
