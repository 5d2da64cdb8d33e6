//! What a selected row gives.
use crate::bindings::{
    arguments_are_bound, binds, lemma_binding_place, pattern_binds, source_binds, target_of,
    targets_are_filled,
};
use crate::model::{
    BindingPattern, Callable, FieldDef, MachineDef, Row, RowOutcome, RowSource, TargetField,
    TargetState,
};
use crate::runtime::{Plan, ProcessError};
use crate::selection::row_applies;
use crate::state::{accepts, admits, same_state, Event, State};
use crate::table::Table;
use crate::token::Ident;
use crate::validate::declarations::resolve_initial_leaf;
use crate::validate::lookup::{
    find_field, find_state, is_named, last_field, last_state, lemma_last_field, named,
};
use crate::validate::rows::has_target_field;
use crate::validate::{states_of, table_of};
use crate::valid::{
    entering_ends_in_a_leaf, enters, is_position, label_of, labels_are_unique, lemma_found_by_name,
    reason_of, reasons_are_collected,
};
use vstd::prelude::*;

verus! {

/// The value of a payload field.
pub open spec fn field_value<V>(fields: Seq<FieldDef>, payload: Seq<V>, name: Seq<char>) -> V {
    payload[last_field(fields, fields.len() as int, name)->0]
}

/// The value that a name stands for in row `r`: that of the payload field of the state where the
/// source of the row names it, else that of the event.
pub open spec fn value_of<V>(
    definition: MachineDef,
    r: int,
    state: State<V>,
    event: Event<V>,
    name: Seq<char>,
) -> V {
    if source_binds(definition.rows@[r], name) {
        field_value(
            states_of(definition)[state.id as int].node.variant.fields@,
            state.payload@,
            name,
        )
    } else {
        field_value(definition.events@[event.id as int].fields@, event.payload@, name)
    }
}

/// Whether values are those that a callback of row `r` gets.
pub open spec fn are_arguments<V>(
    definition: MachineDef,
    r: int,
    state: State<V>,
    event: Event<V>,
    callable: Callable,
    values: Seq<&V>,
) -> bool {
    &&& values.len() == callable.arguments@.len()
    &&& forall|i: int|
        0 <= i < values.len() ==> *(#[trigger] values[i]) == value_of(
            definition,
            r,
            state,
            event,
            callable.arguments@[i].name@,
        )
}

/// Whether a target fills a payload field with a value: it names the field, and the value is a
/// clone of the one that its binding stands for.
pub open spec fn fills<V: Clone>(
    definition: MachineDef,
    r: int,
    state: State<V>,
    event: Event<V>,
    target: TargetState,
    field: FieldDef,
    value: V,
) -> bool {
    exists|i: int|
        0 <= i < target.fields@.len() && (#[trigger] target.fields@[i]).name.name@
            == field.name.name@ && cloned(
            value_of(definition, r, state, event, target.fields@[i].binding.name@),
            value,
        )
}

/// Whether row `r` moves to a state. Without a target that is a clone of the active state. A
/// compound target is entered down to its initial leaf. A leaf gets its payload from the row.
pub open spec fn moves_to<V: Clone>(
    definition: MachineDef,
    r: int,
    state: State<V>,
    event: Event<V>,
    to: State<V>,
) -> bool {
    let states = states_of(definition);
    match target_of(definition.rows@[r]) {
        None => same_state(state, to),
        Some(target) => match last_state(states, states.len() as int, target.name.name@) {
            None => false,
            Some(k) => if states[k].node.compound() {
                enters(states, k, to.id as int) && to.payload@.len() == 0
            } else {
                let fields = states[k].node.variant.fields@;
                &&& to.id == k
                &&& to.payload@.len() == fields.len()
                &&& forall|f: int|
                    0 <= f < fields.len() ==> fills(
                        definition,
                        r,
                        state,
                        event,
                        target,
                        #[trigger] fields[f],
                        to.payload@[f],
                    )
            },
        },
    }
}

/// Whether a plan is what row `r`, where it is selected, plans.
pub open spec fn is_plan<V: Clone, F>(
    definition: MachineDef,
    r: int,
    state: State<V>,
    event: Event<V>,
    plan: Plan<State<V>, usize, F>,
) -> bool {
    &&& label_of(definition.rows@[r].outcome) matches Some(label) && is_position(
        table_of(definition).transitions,
        label.name@,
        plan.transition as int,
    )
    &&& same_state(state, plan.from)
    &&& moves_to(definition, r, state, event, plan.to)
    &&& plan.effect is Some <==> definition.rows@[r].effect is Some
}

/// Whether row `r` refuses the event with a reason.
pub open spec fn is_rejection(definition: MachineDef, r: int, reason: usize) -> bool {
    reason_of(definition.rows@[r].outcome) matches Some(ident) && is_position(
        table_of(definition).rejections,
        ident.name@,
        reason as int,
    )
}

/// What row `r` gives where it is selected.
pub open spec fn is_outcome<V: Clone, F>(
    definition: MachineDef,
    r: int,
    state: State<V>,
    event: Event<V>,
    result: Result<Plan<State<V>, usize, F>, ProcessError<usize, Event<V>, usize>>,
) -> bool {
    match result {
        Ok(plan) => is_plan(definition, r, state, event, plan),
        Err(ProcessError::Rejected(reason)) => is_rejection(definition, r, reason),
        Err(ProcessError::Unhandled { .. }) => false,
    }
}

fn pattern_names(pattern: &BindingPattern, name: &String) -> (found: bool)
    ensures
        found == pattern_binds(*pattern, name@),
{
    pattern.explicit_fields && is_named(&pattern.fields, pattern.fields.len(), name)
}

fn source_names(row: &Row, name: &String) -> (found: bool)
    ensures
        found == source_binds(*row, name@),
{
    match &row.source {
        RowSource::State(pattern) => pattern_names(pattern, name),
        RowSource::Any => false,
    }
}

fn find_target_field(fields: &Vec<TargetField>, name: &String) -> (found: Option<usize>)
    ensures
        found is Some <==> has_target_field(fields@, fields@.len() as int, name@),
        found matches Some(i) ==> i < fields@.len() && fields@[i as int].name.name@ == name@,
{
    let mut i: usize = 0;
    while i < fields.len()
        invariant
            i <= fields@.len(),
            forall|k: int| 0 <= k < i ==> (#[trigger] fields@[k]).name.name@ != name@,
        decreases fields@.len() - i,
    {
        if fields[i].name.name == *name {
            return Some(i);
        }
        i = i + 1;
    }
    None
}

fn find_position(idents: &Vec<Ident>, name: &String) -> (found: Option<usize>)
    ensures
        found is Some <==> named(idents@, idents@.len() as int, name@),
        found matches Some(k) ==> is_position(idents@, name@, k as int),
{
    let mut i: usize = 0;
    while i < idents.len()
        invariant
            i <= idents@.len(),
            forall|k: int| 0 <= k < i ==> (#[trigger] idents@[k]).name@ != name@,
        decreases idents@.len() - i,
    {
        if idents[i].name == *name {
            return Some(i);
        }
        i = i + 1;
    }
    None
}

impl<'a> Table<'a> {
    /// The value that a name stands for in a row.
    fn value<'b, V>(
        &self,
        row: usize,
        state: &'b State<V>,
        event: &'b Event<V>,
        name: &String,
    ) -> (value: &'b V)
        requires
            admits(self.source(), *state),
            accepts(self.source(), *event),
            row_applies(self.source(), state.id as int, event.id as int, row as int),
            binds(self.source(), row as int, name@),
        ensures
            *value == value_of(self.source(), row as int, *state, *event, name@),
    {
        let definition = self.definition();
        let states = self.states();
        proof {
            lemma_binding_place(
                self.source(),
                row as int,
                state.id as int,
                event.id as int,
                name@,
            );
        }
        let in_state = source_names(&definition.rows[row], name);
        let fields = if in_state {
            &states[state.id].node.variant.fields
        } else {
            &definition.events[event.id].fields
        };
        proof {
            lemma_last_field(fields@, fields@.len() as int, name@);
        }
        match find_field(fields, fields.len(), name) {
            Some(k) => {
                if in_state {
                    &state.payload[k]
                } else {
                    &event.payload[k]
                }
            },
            None => {
                assert(false);
                &state.payload[0]
            },
        }
    }

    fn arguments<'b, V>(
        &self,
        row: usize,
        state: &'b State<V>,
        event: &'b Event<V>,
        callable: &Callable,
    ) -> (values: Vec<&'b V>)
        requires
            admits(self.source(), *state),
            accepts(self.source(), *event),
            row_applies(self.source(), state.id as int, event.id as int, row as int),
            forall|i: int|
                0 <= i < callable.arguments@.len() ==> binds(
                    self.source(),
                    row as int,
                    (#[trigger] callable.arguments@[i]).name@,
                ),
        ensures
            are_arguments(self.source(), row as int, *state, *event, *callable, values@),
    {
        let mut values: Vec<&'b V> = Vec::new();
        let mut i: usize = 0;
        while i < callable.arguments.len()
            invariant
                i <= callable.arguments@.len(),
                values@.len() == i,
                admits(self.source(), *state),
                accepts(self.source(), *event),
                row_applies(self.source(), state.id as int, event.id as int, row as int),
                forall|k: int|
                    0 <= k < callable.arguments@.len() ==> binds(
                        self.source(),
                        row as int,
                        (#[trigger] callable.arguments@[k]).name@,
                    ),
                forall|k: int|
                    0 <= k < i ==> *(#[trigger] values@[k]) == value_of(
                        self.source(),
                        row as int,
                        *state,
                        *event,
                        callable.arguments@[k].name@,
                    ),
            decreases callable.arguments@.len() - i,
        {
            let value = self.value(row, state, event, &callable.arguments[i].name);
            values.push(value);
            i = i + 1;
        }
        values
    }

    /// The guard of a row, and the values that it gets.
    pub fn guard_call<'b, V>(&self, row: usize, state: &'b State<V>, event: &'b Event<V>) -> (call:
        Option<(&'a str, Vec<&'b V>)>)
        requires
            admits(self.source(), *state),
            accepts(self.source(), *event),
            row_applies(self.source(), state.id as int, event.id as int, row as int),
        ensures
            call is Some <==> self.source().rows@[row as int].guard is Some,
            call matches Some((name, values)) ==> name@
                == self.source().rows@[row as int].guard->0.name.name@ && are_arguments(
                self.source(),
                row as int,
                *state,
                *event,
                self.source().rows@[row as int].guard->0,
                values@,
            ),
    {
        let definition = self.definition();
        proof {
            arguments_are_bound(self.source(), row as int);
        }
        match &definition.rows[row].guard {
            Some(callable) => {
                let values = self.arguments(row, state, event, callable);
                Some((callable.name.unraw(), values))
            },
            None => None,
        }
    }

    /// The effect factory of a row, and the values that it gets.
    pub fn effect_call<'b, V>(&self, row: usize, state: &'b State<V>, event: &'b Event<V>) -> (call:
        Option<(&'a str, Vec<&'b V>)>)
        requires
            admits(self.source(), *state),
            accepts(self.source(), *event),
            row_applies(self.source(), state.id as int, event.id as int, row as int),
        ensures
            call is Some <==> self.source().rows@[row as int].effect is Some,
            call matches Some((name, values)) ==> name@
                == self.source().rows@[row as int].effect->0.name.name@ && are_arguments(
                self.source(),
                row as int,
                *state,
                *event,
                self.source().rows@[row as int].effect->0,
                values@,
            ),
    {
        let definition = self.definition();
        proof {
            arguments_are_bound(self.source(), row as int);
        }
        match &definition.rows[row].effect {
            Some(callable) => {
                let values = self.arguments(row, state, event, callable);
                Some((callable.name.unraw(), values))
            },
            None => None,
        }
    }

    /// Whether a row is an accepting one.
    pub fn accepting(&self, row: usize) -> (accepting: bool)
        requires
            row < self.source().rows@.len(),
        ensures
            accepting == (label_of(self.source().rows@[row as int].outcome) is Some),
    {
        match &self.definition().rows[row].outcome {
            RowOutcome::Transition { .. } => true,
            RowOutcome::Reject(_) => false,
        }
    }

    /// The payload of a leaf that a row moves to.
    fn target_payload<V: Clone>(
        &self,
        row: usize,
        state: &State<V>,
        event: &Event<V>,
        target: &TargetState,
        fields: &Vec<FieldDef>,
    ) -> (payload: Vec<V>)
        requires
            admits(self.source(), *state),
            accepts(self.source(), *event),
            row_applies(self.source(), state.id as int, event.id as int, row as int),
            forall|f: int|
                0 <= f < fields@.len() ==> has_target_field(
                    target.fields@,
                    target.fields@.len() as int,
                    (#[trigger] fields@[f]).name.name@,
                ),
            fields@.len() > 0 ==> forall|i: int|
                0 <= i < target.fields@.len() ==> binds(
                    self.source(),
                    row as int,
                    (#[trigger] target.fields@[i]).binding.name@,
                ),
        ensures
            payload@.len() == fields@.len(),
            forall|f: int|
                0 <= f < fields@.len() ==> fills(
                    self.source(),
                    row as int,
                    *state,
                    *event,
                    *target,
                    #[trigger] fields@[f],
                    payload@[f],
                ),
    {
        let mut payload: Vec<V> = Vec::new();
        let mut f: usize = 0;
        while f < fields.len()
            invariant
                f <= fields@.len(),
                payload@.len() == f,
                admits(self.source(), *state),
                accepts(self.source(), *event),
                row_applies(self.source(), state.id as int, event.id as int, row as int),
                forall|g: int|
                    0 <= g < fields@.len() ==> has_target_field(
                        target.fields@,
                        target.fields@.len() as int,
                        (#[trigger] fields@[g]).name.name@,
                    ),
                fields@.len() > 0 ==> forall|i: int|
                    0 <= i < target.fields@.len() ==> binds(
                        self.source(),
                        row as int,
                        (#[trigger] target.fields@[i]).binding.name@,
                    ),
                forall|g: int|
                    0 <= g < f ==> fills(
                        self.source(),
                        row as int,
                        *state,
                        *event,
                        *target,
                        #[trigger] fields@[g],
                        payload@[g],
                    ),
            decreases fields@.len() - f,
        {
            assert(has_target_field(
                target.fields@,
                target.fields@.len() as int,
                fields@[f as int].name.name@,
            ));
            if let Some(i) = find_target_field(&target.fields, &fields[f].name.name) {
                let value = self.value(row, state, event, &target.fields[i].binding.name);
                payload.push(value.clone());
                assert(fills(
                    self.source(),
                    row as int,
                    *state,
                    *event,
                    *target,
                    fields@[f as int],
                    payload@[f as int],
                ));
            }
            f = f + 1;
        }
        payload
    }

    /// The state that an accepting row moves to.
    fn target<V: Clone>(&self, row: usize, state: &State<V>, event: &Event<V>) -> (to: State<V>)
        requires
            admits(self.source(), *state),
            accepts(self.source(), *event),
            row_applies(self.source(), state.id as int, event.id as int, row as int),
            label_of(self.source().rows@[row as int].outcome) is Some,
        ensures
            moves_to(self.source(), row as int, *state, *event, to),
            admits(self.source(), to),
    {
        let definition = self.definition();
        let states = self.states();
        let ghost all = states_of(self.source());
        proof {
            targets_are_filled(self.source(), row as int);
        }
        if let RowOutcome::Transition { target: Some(target), .. } = &definition.rows[row].outcome {
            assert(target_of(self.source().rows@[row as int]) == Some(*target));
            if let Some(k) = find_state(states, states.len(), &target.name.name) {
                let node = states[k].node;
                if node.is_compound() {
                    proof {
                        entering_ends_in_a_leaf(self.source(), k as int);
                    }
                    let ghost j = choose|j: int| #[trigger]
                        enters(all, k as int, j) && !all[j].node.compound()
                            && all[j].node.variant.fields@.len() == 0;
                    proof {
                        lemma_found_by_name(self.source(), j);
                    }
                    if let Some(leaf) = resolve_initial_leaf(node) {
                        if let Some(id) = find_state(
                            states,
                            states.len(),
                            &leaf.variant.name.name,
                        ) {
                            return State { id, payload: Vec::new() };
                        }
                    }
                } else {
                    let payload = self.target_payload(
                        row,
                        state,
                        event,
                        target,
                        &node.variant.fields,
                    );
                    return State { id: k, payload };
                }
            }
            assert(false);
        }
        state.clone()
    }

    /// What a selected row gives, with the effect that its factory computed.
    pub fn conclude<V: Clone, F>(
        &self,
        row: usize,
        state: &State<V>,
        event: &Event<V>,
        effect: Option<F>,
    ) -> (result: Result<Plan<State<V>, usize, F>, ProcessError<usize, Event<V>, usize>>)
        requires
            admits(self.source(), *state),
            accepts(self.source(), *event),
            row_applies(self.source(), state.id as int, event.id as int, row as int),
            label_of(self.source().rows@[row as int].outcome) is Some ==> (effect is Some
                <==> self.source().rows@[row as int].effect is Some),
        ensures
            is_outcome(self.source(), row as int, *state, *event, result),
            result matches Ok(plan) ==> plan.effect == effect && admits(self.source(), plan.to),
    {
        let definition = self.definition();
        proof {
            labels_are_unique(self.source(), row as int);
            reasons_are_collected(self.source(), row as int);
        }
        match &definition.rows[row].outcome {
            RowOutcome::Transition { transition, .. } => {
                let labels = self.transitions();
                let mut position: usize = 0;
                if let Some(k) = find_position(labels, &transition.name) {
                    position = k;
                }
                let to = self.target(row, state, event);
                Ok(Plan { transition: position, from: state.clone(), to, effect })
            },
            RowOutcome::Reject(reason) => {
                let reasons = self.rejections();
                let mut position: usize = 0;
                if let Some(k) = find_position(reasons, &reason.name) {
                    position = k;
                }
                Err(ProcessError::Rejected(position))
            },
        }
    }
}

} // verus!
