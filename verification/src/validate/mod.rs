//! Whether a definition makes a machine.
pub mod callables;
pub mod coverage;
pub mod declarations;
pub mod lookup;
pub mod rows;

use crate::error::{combine, messages_view, report, Error, Message, MessageView};
use crate::model::{
    flats, flatten_states, flattened, Callable, CallableRole, FieldDef, Flat, FlatState, MachineDef,
    RowOutcome,
};
use crate::text::join3;
use crate::token::Ident;
use crate::validate::callables::{
    callables_view, note_callable, noted, CallableDef, CallableView, Noted,
};
use crate::validate::coverage::{coverage_errors, validate_coverage};
use crate::validate::declarations::{declaration_errors, validate_declarations};
use crate::validate::lookup::{is_named, named};
use crate::validate::rows::{row_check, validate_row};
use vstd::prelude::*;

verus! {

/// What a machine needs to know of its transition table besides the rows.
pub struct Validated {
    /// The callbacks, in the order of their first use.
    pub callables: Vec<CallableDef>,
    /// The labels of the accepted rows, in order.
    pub transitions: Vec<Ident>,
    /// The reasons of the rejecting rows, each once, in the order of their first use.
    pub rejections: Vec<Ident>,
    /// Whether one of the callbacks is async.
    pub is_async: bool,
}

/// What is collected from the rows of a table.
pub struct Collected {
    pub callables: Seq<CallableView>,
    pub transitions: Seq<Ident>,
    pub rejections: Seq<Ident>,
    pub errors: Seq<MessageView>,
}

/// The states of a definition in declaration order, each parent before its children.
pub open spec fn states_of(definition: MachineDef) -> Seq<Flat> {
    flattened(definition.states@, None)
}

/// The transition labels after a row.
pub open spec fn labels_with(labels: Seq<Ident>, outcome: RowOutcome) -> Seq<Ident> {
    match outcome {
        RowOutcome::Transition { transition, .. } => if named(
            labels,
            labels.len() as int,
            transition.name@,
        ) {
            labels
        } else {
            labels.push(transition)
        },
        RowOutcome::Reject(_) => labels,
    }
}

/// The rejection reasons after a row.
pub open spec fn reasons_with(reasons: Seq<Ident>, outcome: RowOutcome) -> Seq<Ident> {
    match outcome {
        RowOutcome::Transition { .. } => reasons,
        RowOutcome::Reject(reason) => if named(reasons, reasons.len() as int, reason.name@) {
            reasons
        } else {
            reasons.push(reason)
        },
    }
}

/// The messages on the outcome of a row, where `labels` are those of the rows before it.
pub open spec fn outcome_errors(labels: Seq<Ident>, outcome: RowOutcome) -> Seq<MessageView> {
    match outcome {
        RowOutcome::Transition { transition, .. } => if named(
            labels,
            labels.len() as int,
            transition.name@,
        ) {
            seq![
                MessageView {
                    span: transition.span,
                    text: "duplicate transition label `"@ + transition.spelled() + "`"@,
                    failed: None,
                },
            ]
        } else {
            Seq::empty()
        },
        RowOutcome::Reject(_) => Seq::empty(),
    }
}

/// What noting the use of a callback, where there is one, gives.
pub open spec fn noted_use(
    callable: Option<Callable>,
    role: CallableRole,
    bindings: Seq<FieldDef>,
    callables: Seq<CallableView>,
) -> Noted {
    match callable {
        Some(callable) => noted(callable, role, bindings, callables),
        None => Noted { callables, errors: Seq::empty() },
    }
}

/// What is collected from the first `n` rows.
pub open spec fn collected(definition: MachineDef, n: int) -> Collected
    decreases n,
{
    if n <= 0 {
        Collected {
            callables: Seq::empty(),
            transitions: Seq::empty(),
            rejections: Seq::empty(),
            errors: Seq::empty(),
        }
    } else {
        let before = collected(definition, n - 1);
        let row = definition.rows@[n - 1];
        let check = row_check(row, states_of(definition), definition.events@);
        let guard = noted_use(row.guard, CallableRole::Guard, check.bindings, before.callables);
        let effect = noted_use(row.effect, CallableRole::Effect, check.bindings, guard.callables);
        Collected {
            callables: effect.callables,
            transitions: labels_with(before.transitions, row.outcome),
            rejections: reasons_with(before.rejections, row.outcome),
            errors: before.errors + check.errors + outcome_errors(before.transitions, row.outcome)
                + guard.errors + effect.errors,
        }
    }
}

/// What is collected from all rows.
pub open spec fn table_of(definition: MachineDef) -> Collected {
    collected(definition, definition.rows@.len() as int)
}

/// The first effect callback from position `i` on.
pub open spec fn first_effect(callables: Seq<CallableView>, i: int) -> Option<int>
    decreases callables.len() - i,
{
    if i < 0 || i >= callables.len() {
        None
    } else if callables[i].role == CallableRole::Effect {
        Some(i)
    } else {
        first_effect(callables, i + 1)
    }
}

/// The messages on a context type that callbacks need.
pub open spec fn context_errors(definition: MachineDef, callables: Seq<CallableView>) -> Seq<
    MessageView,
> {
    if definition.context is None && callables.len() > 0 {
        seq![
            MessageView {
                span: callables[0].name.span,
                text: "`context` is required when transition callbacks are used"@,
                failed: None,
            },
        ]
    } else {
        Seq::empty()
    }
}

/// The messages on an effect type that effect callbacks need.
pub open spec fn effect_errors(definition: MachineDef, callables: Seq<CallableView>) -> Seq<
    MessageView,
> {
    match first_effect(callables, 0) {
        Some(k) => if definition.effect is None {
            seq![
                MessageView {
                    span: callables[k].name.span,
                    text: "`effect` is required because effect callback `"@
                        + callables[k].name.spelled() + "` is used"@,
                    failed: None,
                },
            ]
        } else {
            Seq::empty()
        },
        None => Seq::empty(),
    }
}

/// Everything that is wrong with a definition.
pub open spec fn validation_errors(definition: MachineDef) -> Seq<MessageView> {
    let states = states_of(definition);
    let table = table_of(definition);
    declaration_errors(definition, states) + table.errors + (if states.len() > 0
        && definition.events@.len() > 0 {
        coverage_errors(definition, states)
    } else {
        Seq::empty()
    }) + context_errors(definition, table.callables) + effect_errors(definition, table.callables)
}

/// Whether one of the first `n` callbacks is async.
pub open spec fn some_async(callables: Seq<CallableView>, n: int) -> bool {
    exists|i: int| 0 <= i < n && (#[trigger] callables[i]).is_async
}

/// What is found in a valid definition is what its rows hold.
pub open spec fn describes(validated: Validated, definition: MachineDef) -> bool {
    let table = table_of(definition);
    &&& callables_view(validated.callables@) == table.callables
    &&& validated.transitions@ == table.transitions
    &&& validated.rejections@ == table.rejections
    &&& validated.is_async == some_async(table.callables, table.callables.len() as int)
}

fn find_effect(callables: &Vec<CallableDef>) -> (found: Option<usize>)
    ensures
        found is Some <==> first_effect(callables_view(callables@), 0) is Some,
        found matches Some(k) ==> first_effect(callables_view(callables@), 0) == Some(k as int) && k
            < callables@.len(),
{
    let ghost all = callables_view(callables@);
    let mut i: usize = 0;
    while i < callables.len()
        invariant
            i <= callables@.len(),
            all == callables_view(callables@),
            first_effect(all, 0) == first_effect(all, i as int),
        decreases callables@.len() - i,
    {
        assert(all[i as int] == callables@[i as int]@);
        if callables[i].role == CallableRole::Effect {
            return Some(i);
        }
        i = i + 1;
    }
    None
}

fn any_async(callables: &Vec<CallableDef>) -> (found: bool)
    ensures
        found == some_async(callables_view(callables@), callables@.len() as int),
{
    let ghost all = callables_view(callables@);
    let mut i: usize = 0;
    while i < callables.len()
        invariant
            i <= callables@.len(),
            all == callables_view(callables@),
            !some_async(all, i as int),
        decreases callables@.len() - i,
    {
        assert(all[i as int] == callables@[i as int]@);
        if callables[i].is_async {
            return true;
        }
        i = i + 1;
    }
    false
}

/// Collects what the outcome of a row adds.
fn note_outcome(
    outcome: &RowOutcome,
    transitions: &mut Vec<Ident>,
    rejections: &mut Vec<Ident>,
    errors: &mut Vec<Message>,
)
    ensures
        final(transitions)@ == labels_with(old(transitions)@, *outcome),
        final(rejections)@ == reasons_with(old(rejections)@, *outcome),
        messages_view(final(errors)@) == messages_view(old(errors)@) + outcome_errors(
            old(transitions)@,
            *outcome,
        ),
{
    match outcome {
        RowOutcome::Transition { transition, .. } => {
            if is_named(transitions, transitions.len(), &transition.name) {
                let name = transition.spelling();
                report(
                    errors,
                    transition.span,
                    join3("duplicate transition label `", name.as_str(), "`"),
                );
            } else {
                transitions.push(transition.clone());
            }
        },
        RowOutcome::Reject(reason) => {
            if !is_named(rejections, rejections.len(), &reason.name) {
                rejections.push(reason.clone());
            }
        },
    }
    assert(messages_view(errors@) =~= messages_view(old(errors)@) + outcome_errors(
        old(transitions)@,
        *outcome,
    ));
}

/// Notes the use of a callback, where there is one.
fn note_use(
    callable: &Option<Callable>,
    role: CallableRole,
    bindings: &Vec<FieldDef>,
    callables: &mut Vec<CallableDef>,
    errors: &mut Vec<Message>,
)
    ensures
        callables_view(final(callables)@) == noted_use(
            *callable,
            role,
            bindings@,
            callables_view(old(callables)@),
        ).callables,
        messages_view(final(errors)@) == messages_view(old(errors)@) + noted_use(
            *callable,
            role,
            bindings@,
            callables_view(old(callables)@),
        ).errors,
{
    match callable {
        Some(callable) => note_callable(callable, role, bindings, callables, errors),
        None => {
            assert(messages_view(errors@) =~= messages_view(errors@) + Seq::<MessageView>::empty());
        },
    }
}

/// Checks the rows one by one, and collects what they hold.
fn validate_rows(
    definition: &MachineDef,
    states: &Vec<FlatState<'_>>,
    errors: &mut Vec<Message>,
) -> (found: (Vec<CallableDef>, Vec<Ident>, Vec<Ident>))
    requires
        flats(states@) == states_of(*definition),
    ensures
        callables_view(found.0@) == table_of(*definition).callables,
        found.1@ == table_of(*definition).transitions,
        found.2@ == table_of(*definition).rejections,
        messages_view(final(errors)@) == messages_view(old(errors)@) + table_of(
            *definition,
        ).errors,
{
    let ghost before = messages_view(errors@);
    let mut callables: Vec<CallableDef> = Vec::new();
    let mut transitions: Vec<Ident> = Vec::new();
    let mut rejections: Vec<Ident> = Vec::new();
    let mut i: usize = 0;
    assert(callables_view(callables@) =~= collected(*definition, 0).callables);
    assert(before =~= before + collected(*definition, 0).errors);
    while i < definition.rows.len()
        invariant
            i <= definition.rows@.len(),
            flats(states@) == states_of(*definition),
            callables_view(callables@) == collected(*definition, i as int).callables,
            transitions@ == collected(*definition, i as int).transitions,
            rejections@ == collected(*definition, i as int).rejections,
            messages_view(errors@) == before + collected(*definition, i as int).errors,
        decreases definition.rows@.len() - i,
    {
        let row = &definition.rows[i];
        let bindings = validate_row(row, states, &definition.events, errors);
        note_outcome(&row.outcome, &mut transitions, &mut rejections, errors);
        note_use(&row.guard, CallableRole::Guard, &bindings, &mut callables, errors);
        note_use(&row.effect, CallableRole::Effect, &bindings, &mut callables, errors);
        assert(messages_view(errors@) =~= before + collected(*definition, i + 1).errors);
        i = i + 1;
    }
    (callables, transitions, rejections)
}

/// Reports a context or an effect type that the callbacks need and the definition lacks.
fn validate_callback_types(
    definition: &MachineDef,
    callables: &Vec<CallableDef>,
    errors: &mut Vec<Message>,
)
    ensures
        messages_view(final(errors)@) == messages_view(old(errors)@) + context_errors(
            *definition,
            callables_view(callables@),
        ) + effect_errors(*definition, callables_view(callables@)),
{
    let ghost before = messages_view(errors@);
    let ghost all = callables_view(callables@);
    if definition.context.is_none() && callables.len() > 0 {
        assert(all[0] == callables@[0]@);
        report(
            errors,
            callables[0].name.span,
            "`context` is required when transition callbacks are used".to_owned(),
        );
    }
    assert(messages_view(errors@) =~= before + context_errors(*definition, all));
    if definition.effect.is_none() {
        if let Some(k) = find_effect(callables) {
            assert(all[k as int] == callables@[k as int]@);
            let name = callables[k].name.spelling();
            report(
                errors,
                callables[k].name.span,
                join3(
                    "`effect` is required because effect callback `",
                    name.as_str(),
                    "` is used",
                ),
            );
        }
    }
    assert(messages_view(errors@) =~= before + context_errors(*definition, all) + effect_errors(
        *definition,
        all,
    ));
}

/// Checks a whole definition. Either it makes a machine, or every message on it is given.
pub fn validate(definition: &MachineDef) -> (result: Result<Validated, Error>)
    ensures
        result is Ok <==> validation_errors(*definition).len() == 0,
        result matches Ok(validated) ==> describes(validated, *definition),
        result matches Err(error) ==> error@ == validation_errors(*definition),
{
    let mut errors: Vec<Message> = Vec::new();
    let states: Vec<FlatState<'_>> = flatten_states(definition.states.as_slice());
    validate_declarations(definition, &states, &mut errors);
    let (callables, transitions, rejections) = validate_rows(definition, &states, &mut errors);
    assert(states_of(*definition).len() == states@.len());
    if states.len() > 0 && definition.events.len() > 0 {
        validate_coverage(definition, &states, &mut errors);
    }
    validate_callback_types(definition, &callables, &mut errors);
    assert(messages_view(errors@) =~= validation_errors(*definition));
    if errors.len() == 0 {
        let is_async = any_async(&callables);
        Ok(Validated { callables, transitions, rejections, is_async })
    } else {
        Err(combine(errors))
    }
}

} // verus!
