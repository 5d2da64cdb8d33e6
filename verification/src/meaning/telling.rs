//! What the messages on a refused definition tell.
use crate::error::MessageView;
use crate::expand::is_context_trait;
use crate::model::{
    BindingPattern, Callable, CallableRole, FieldDef, Flat, MachineDef, Row, RowEvent, RowOutcome,
    RowSource, StateNode, TargetField, TargetState, VariantDef,
};
use crate::parse::cursor::{arrow_syntax, name_syntax, punct_syntax, separator_syntax};
use crate::parse::definition::{
    bool_syntax, braces_syntax, definition_of, duplicate, set_once, unknown, DraftView,
};
use crate::runtime::{rejected_text, unhandled_text};
use crate::text::decimal;
use crate::token::{is_raw, unraw, Ident, Token};
use crate::valid::{effect_noted, guard_noted};
use crate::validate::callables::{noted, typed_arguments, CallableView};
use crate::validate::coverage::{
    comma_separated, coverage_errors, handled, missing_events, missing_pairs, missing_text,
    pair_text, reachable, unreachable_errors, SHOWN_PAIRS,
};
use crate::validate::declarations::{
    declaration_errors, event_errors, extra_initial_errors, field_errors, first_initial,
    own_initial_errors, state_errors,
};
use crate::validate::lookup::{
    has_event, has_field, has_state, last_event, last_field, last_state, named,
};
use crate::validate::rows::{
    event_check, leaf_target_errors, pattern_check, pattern_fields, source_check, target_errors,
    target_field_error, target_field_errors,
};
use crate::validate::{
    collected, context_errors, effect_errors, first_effect, outcome_errors, states_of, table_of,
    validation_errors,
};
use vstd::prelude::*;

verus! {

/// Whether a text stands in another at a position.
pub open spec fn stands_in(whole: Seq<char>, part: Seq<char>, i: int) -> bool {
    0 <= i && i + part.len() <= whole.len() && whole.subrange(i, i + part.len()) == part
}

/// Whether a text stands somewhere in another.
pub open spec fn occurs(whole: Seq<char>, part: Seq<char>) -> bool {
    exists|i: int| stands_in(whole, part, i)
}

/// Whether a message is at the place of a name and has the name, as it was spelled, in its text.
pub open spec fn tells_of(message: MessageView, name: Ident) -> bool {
    message.span == name.span && occurs(message.text, name.spelled())
}

/// Whether a message is at a place and has a text in its text.
pub open spec fn tells_at(message: MessageView, span: proc_macro2::Span, part: Seq<char>) -> bool {
    message.span == span && occurs(message.text, part)
}

proof fn lemma_inside(before: Seq<char>, part: Seq<char>, behind: Seq<char>)
    ensures
        occurs(before + part + behind, part),
{
    let whole = before + part + behind;
    let i = before.len() as int;
    assert(whole.subrange(i, i + part.len()) =~= part);
    assert(stands_in(whole, part, i));
}

proof fn lemma_still_inside(before: Seq<char>, whole: Seq<char>, behind: Seq<char>, part: Seq<char>)
    requires
        occurs(whole, part),
    ensures
        occurs(before + whole + behind, part),
{
    let i = choose|i: int| stands_in(whole, part, i);
    let all = before + whole + behind;
    let j = before.len() + i;
    assert(all.subrange(j, j + part.len()) =~= whole.subrange(i, i + part.len()));
    assert(stands_in(all, part, j));
}

/// The numbers below another that a condition holds of, in order.
pub open spec fn picked(n: int, holds: spec_fn(int) -> bool) -> Seq<int>
    decreases n,
{
    if n <= 0 {
        Seq::empty()
    } else if holds(n - 1) {
        picked(n - 1, holds).push(n - 1)
    } else {
        picked(n - 1, holds)
    }
}

pub(crate) proof fn lemma_picked(n: int, holds: spec_fn(int) -> bool)
    ensures
        forall|k: int|
            0 <= k < picked(n, holds).len() ==> 0 <= #[trigger] picked(n, holds)[k] < n && holds(
                picked(n, holds)[k],
            ),
    decreases n,
{
    if n > 0 {
        lemma_picked(n - 1, holds);
        let before = picked(n - 1, holds);
        let all = picked(n, holds);
        assert forall|k: int| 0 <= k < all.len() implies 0 <= #[trigger] all[k] < n && holds(
            all[k],
        ) by {
            if k < before.len() {
                assert(all[k] == before[k]);
            }
        }
    }
}

/// Whether a field of a state or an event has the name of one before it.
pub open spec fn is_repeated_field(fields: Seq<FieldDef>) -> spec_fn(int) -> bool {
    |j: int|
        exists|i: int|
            0 <= i < j && (#[trigger] fields[i]).name.name@ == fields[j].name.name@
}

/// Each repeated field is told of, in order, and nothing else is: its message names the field and
/// the state or event.
pub proof fn repeated_fields_are_told(variant: VariantDef, kind: Seq<char>, n: int)
    requires
        0 <= n <= variant.fields@.len(),
    ensures
        ({
            let told = picked(n, is_repeated_field(variant.fields@));
            let errors = field_errors(variant, kind, n);
            &&& errors.len() == told.len()
            &&& forall|k: int|
                0 <= k < told.len() ==> tells_of(
                    #[trigger] errors[k],
                    variant.fields@[told[k]].name,
                ) && occurs(errors[k].text, variant.name.spelled())
        }),
    decreases n,
{
    if n > 0 {
        repeated_fields_are_told(variant, kind, n - 1);
        let holds = is_repeated_field(variant.fields@);
        let before = field_errors(variant, kind, n - 1);
        let errors = field_errors(variant, kind, n);
        let told = picked(n, holds);
        let field = variant.fields@[n - 1];
        assert(holds(n - 1) <==> has_field(variant.fields@, n - 1, field.name.name@));
        if holds(n - 1) {
            let own = errors.last();
            let between = "` in "@ + kind + " `"@;
            lemma_inside(
                "duplicate field `"@,
                field.name.spelled(),
                between + variant.name.spelled() + "`"@,
            );
            assert(own.text =~= "duplicate field `"@ + field.name.spelled() + (between
                + variant.name.spelled() + "`"@));
            lemma_inside(
                "duplicate field `"@ + field.name.spelled() + between,
                variant.name.spelled(),
                "`"@,
            );
            assert forall|k: int| 0 <= k < told.len() implies tells_of(
                #[trigger] errors[k],
                variant.fields@[told[k]].name,
            ) && occurs(errors[k].text, variant.name.spelled()) by {
                if k < before.len() {
                    assert(errors[k] == before[k]);
                }
            }
        }
    }
}

/// With one state more there is one message more exactly where it has the name of one before it,
/// which tells of it, and behind that the messages on its fields.
pub proof fn repeated_states_are_told(states: Seq<Flat>, n: int)
    requires
        0 < n <= states.len(),
    ensures
        ({
            let variant = states[n - 1].node.variant;
            let before = state_errors(states, n - 1);
            let after = state_errors(states, n);
            let own = field_errors(variant, "state"@, variant.fields@.len() as int);
            if exists|i: int|
                0 <= i < n - 1 && (#[trigger] states[i]).node.variant.name.name@
                    == variant.name.name@ {
                exists|message: MessageView| #[trigger]
                    tells_of(message, variant.name) && after == before + seq![message] + own
            } else {
                after == before + own
            }
        }),
{
    let variant = states[n - 1].node.variant;
    let before = state_errors(states, n - 1);
    let after = state_errors(states, n);
    let own = field_errors(variant, "state"@, variant.fields@.len() as int);
    if has_state(states, n - 1, variant.name.name@) {
        let message = after[before.len() as int];
        lemma_inside("duplicate state `"@, variant.name.spelled(), "`"@);
        assert(tells_of(message, variant.name));
        assert(after =~= before + seq![message] + own);
    }
}

/// With one event more there is one message more exactly where it has the name of one before it,
/// which tells of it, and behind that the messages on its fields.
pub proof fn repeated_events_are_told(events: Seq<VariantDef>, n: int)
    requires
        0 < n <= events.len(),
    ensures
        ({
            let variant = events[n - 1];
            let before = event_errors(events, n - 1);
            let after = event_errors(events, n);
            let own = field_errors(variant, "event"@, variant.fields@.len() as int);
            if exists|i: int|
                0 <= i < n - 1 && (#[trigger] events[i]).name.name@ == variant.name.name@ {
                exists|message: MessageView| #[trigger]
                    tells_of(message, variant.name) && after == before + seq![message] + own
            } else {
                after == before + own
            }
        }),
{
    let variant = events[n - 1];
    let before = event_errors(events, n - 1);
    let after = event_errors(events, n);
    let own = field_errors(variant, "event"@, variant.fields@.len() as int);
    if has_event(events, n - 1, variant.name.name@) {
        let message = after[before.len() as int];
        lemma_inside("duplicate event `"@, variant.name.spelled(), "`"@);
        assert(tells_of(message, variant.name));
        assert(after =~= before + seq![message] + own);
    }
}

/// Whether a state of a group is marked as initial though one before it is.
pub open spec fn is_extra(nodes: Seq<StateNode>) -> spec_fn(int) -> bool {
    |j: int| nodes[j].initial && exists|i: int| 0 <= i < j && (#[trigger] nodes[i]).initial
}

proof fn lemma_extra(nodes: Seq<StateNode>, owner: Seq<char>, first: int, n: int)
    requires
        0 <= first,
        0 <= n <= nodes.len(),
        first < nodes.len(),
        nodes[first].initial,
        forall|i: int| 0 <= i < first ==> !(#[trigger] nodes[i]).initial,
    ensures
        ({
            let told = picked(n, is_extra(nodes));
            let errors = extra_initial_errors(nodes, owner, first, n);
            &&& errors.len() == told.len()
            &&& forall|k: int|
                0 <= k < told.len() ==> tells_at(
                    #[trigger] errors[k],
                    nodes[told[k]].variant.name.span,
                    owner,
                )
        }),
    decreases n,
{
    if n > 0 {
        lemma_extra(nodes, owner, first, n - 1);
        let holds = is_extra(nodes);
        let before = extra_initial_errors(nodes, owner, first, n - 1);
        let errors = extra_initial_errors(nodes, owner, first, n);
        let told = picked(n, holds);
        if holds(n - 1) {
            let i = choose|i: int| 0 <= i < n - 1 && (#[trigger] nodes[i]).initial;
            assert(n - 1 > first);
        }
        if n - 1 > first && nodes[n - 1].initial {
            assert(nodes[first].initial);
            assert(holds(n - 1));
            lemma_inside(Seq::empty(), owner, " has more than one `*` initial state"@);
            assert(Seq::<char>::empty() + owner =~= owner);
            assert forall|k: int| 0 <= k < told.len() implies tells_at(
                #[trigger] errors[k],
                nodes[told[k]].variant.name.span,
                owner,
            ) by {
                if k < before.len() {
                    assert(errors[k] == before[k]);
                }
            }
        }
    }
}

proof fn lemma_first(nodes: Seq<StateNode>, i: int)
    requires
        0 <= i,
    ensures
        match first_initial(nodes, i) {
            Some(k) => i <= k < nodes.len() && nodes[k].initial && forall|j: int|
                i <= j < k ==> !(#[trigger] nodes[j]).initial,
            None => forall|j: int| i <= j < nodes.len() ==> !(#[trigger] nodes[j]).initial,
        },
    decreases nodes.len() - i,
{
    if i < nodes.len() && !nodes[i].initial {
        lemma_first(nodes, i + 1);
    }
}

/// A group without an initial state is told of at its first state, or at the definition where it
/// has none; one with several is told of at each but the first. Either message names the group.
pub proof fn initial_states_are_told(
    nodes: Seq<StateNode>,
    owner: Seq<char>,
    call_site: proc_macro2::Span,
)
    ensures
        ({
            let errors = own_initial_errors(nodes, owner, call_site);
            let told = picked(nodes.len() as int, is_extra(nodes));
            &&& (forall|i: int| 0 <= i < nodes.len() ==> !(#[trigger] nodes[i]).initial)
                ==> errors.len() == 1 && tells_at(
                errors[0],
                if nodes.len() == 0 {
                    call_site
                } else {
                    nodes[0].variant.name.span
                },
                owner,
            )
            &&& told.len() > 0 ==> errors.len() == told.len() && forall|k: int|
                0 <= k < told.len() ==> tells_at(
                    #[trigger] errors[k],
                    nodes[told[k]].variant.name.span,
                    owner,
                )
        }),
{
    let n = nodes.len() as int;
    let errors = own_initial_errors(nodes, owner, call_site);
    let told = picked(n, is_extra(nodes));
    lemma_first(nodes, 0);
    match first_initial(nodes, 0) {
        None => {
            lemma_inside(Seq::empty(), owner, " requires exactly one `*` initial state"@);
            assert(Seq::<char>::empty() + owner =~= owner);
            lemma_none_picked(nodes, n);
        },
        Some(first) => {
            lemma_extra(nodes, owner, first, n);
            lemma_first(nodes, first + 1);
            if first_initial(nodes, first + 1) is None {
                lemma_one_picked(nodes, first, n);
            }
        },
    }
}

proof fn lemma_none_picked(nodes: Seq<StateNode>, n: int)
    requires
        0 <= n <= nodes.len(),
        forall|i: int| 0 <= i < nodes.len() ==> !(#[trigger] nodes[i]).initial,
    ensures
        picked(n, is_extra(nodes)).len() == 0,
    decreases n,
{
    if n > 0 {
        lemma_none_picked(nodes, n - 1);
        assert(!nodes[n - 1].initial);
    }
}

proof fn lemma_one_picked(nodes: Seq<StateNode>, first: int, n: int)
    requires
        0 <= n <= nodes.len(),
        0 <= first < nodes.len(),
        forall|i: int| 0 <= i < first ==> !(#[trigger] nodes[i]).initial,
        forall|i: int| first + 1 <= i < nodes.len() ==> !(#[trigger] nodes[i]).initial,
    ensures
        picked(n, is_extra(nodes)).len() == 0,
    decreases n,
{
    if n > 0 {
        lemma_one_picked(nodes, first, n - 1);
        let holds = is_extra(nodes);
        if holds(n - 1) {
            let i = choose|i: int| 0 <= i < n - 1 && (#[trigger] nodes[i]).initial;
            assert(nodes[n - 1].initial);
        }
    }
}

/// With one listed field more there is at most one message more, and then it tells of that field.
pub proof fn listed_fields_are_told(
    pattern: BindingPattern,
    variant: VariantDef,
    kind: Seq<char>,
    bindings: Seq<FieldDef>,
    n: int,
)
    requires
        0 < n <= pattern.fields@.len(),
    ensures
        ({
            let before = pattern_fields(pattern, variant, kind, bindings, n - 1).errors;
            let after = pattern_fields(pattern, variant, kind, bindings, n).errors;
            after == before || exists|message: MessageView| #[trigger]
                tells_of(message, pattern.fields@[n - 1]) && after == before + seq![message]
        }),
{
    let before = pattern_fields(pattern, variant, kind, bindings, n - 1);
    let after = pattern_fields(pattern, variant, kind, bindings, n);
    let binding = pattern.fields@[n - 1];
    let name = binding.spelled();
    if after.errors != before.errors {
        let message = after.errors.last();
        let field = variant.fields@[last_field(
            variant.fields@,
            variant.fields@.len() as int,
            binding.name@,
        )->0];
        if named(pattern.fields@, n - 1, binding.name@) {
            lemma_inside("duplicate pattern field `"@, name, "`"@);
        } else if last_field(variant.fields@, variant.fields@.len() as int, binding.name@) is None {
            let behind = ("` on "@ + kind + " `"@) + variant.name.spelled() + "`"@;
            lemma_inside("unknown field `"@, name, behind);
            assert(message.text =~= "unknown field `"@ + name + behind);
        } else {
            let p = last_field(
                before.bindings,
                before.bindings.len() as int,
                binding.name@,
            )->0;
            let behind = ("` is ambiguous between `"@ + before.bindings[p].name.spelled()
                + "` and `"@) + field.name.spelled() + "`"@;
            lemma_inside("binding `"@, name, behind);
            assert(message.text =~= "binding `"@ + name + behind);
        }
        assert(tells_of(message, binding));
        assert(after.errors =~= before.errors + seq![message]);
    }
}

/// A field that a target fills is told of where it is filled twice or not declared, and the name
/// that it is filled from where the row does not bind it: these messages, and no others, in this
/// order.
pub proof fn filled_fields_are_told(
    target: TargetState,
    field: TargetField,
    fields: Seq<FieldDef>,
    bindings: Seq<FieldDef>,
    repeated: bool,
)
    ensures
        ({
            let errors = target_field_error(target, field, fields, bindings, repeated);
            let unknown = forall|j: int|
                0 <= j < fields.len() ==> (#[trigger] fields[j]).name.name@ != field.name.name@;
            let unbound = forall|j: int|
                0 <= j < bindings.len() ==> (#[trigger] bindings[j]).name.name@
                    != field.binding.name@;
            let first = if repeated {
                1int
            } else {
                0int
            };
            let second = first + if unknown {
                1int
            } else {
                0int
            };
            &&& errors.len() == second + if unbound {
                1int
            } else {
                0int
            }
            &&& forall|k: int|
                0 <= k < second ==> tells_of(#[trigger] errors[k], field.name)
            &&& unbound ==> tells_of(errors[second], field.binding) && occurs(
                errors[second].text,
                field.name.spelled(),
            )
        }),
{
    let errors = target_field_error(target, field, fields, bindings, repeated);
    let name = field.name.spelled();
    let unknown = forall|j: int|
        0 <= j < fields.len() ==> (#[trigger] fields[j]).name.name@ != field.name.name@;
    let unbound = forall|j: int|
        0 <= j < bindings.len() ==> (#[trigger] bindings[j]).name.name@ != field.binding.name@;
    assert(unknown <==> !has_field(fields, fields.len() as int, field.name.name@));
    assert(unbound <==> !has_field(bindings, bindings.len() as int, field.binding.name@));
    lemma_inside("duplicate target field `"@, name, "`"@);
    let place = "` on target state `"@ + target.name.spelled() + "`"@;
    lemma_inside("unknown field `"@, name, place);
    assert("unknown field `"@ + name + "` on target state `"@ + target.name.spelled() + "`"@
        =~= "unknown field `"@ + name + place);
    let front = "target field `"@ + name + "` references unknown binding `"@;
    lemma_inside(front, field.binding.spelled(), "`"@);
    let back = "` references unknown binding `"@ + field.binding.spelled() + "`"@;
    lemma_inside("target field `"@, name, back);
    assert(front + field.binding.spelled() + "`"@ =~= "target field `"@ + name + back);
}

/// With one argument more there is one message more, which tells of it, exactly where the argument
/// is given twice or the row does not bind it.
pub proof fn arguments_are_told(callable: Callable, bindings: Seq<FieldDef>, n: int)
    requires
        0 < n <= callable.arguments@.len(),
    ensures
        ({
            let before = typed_arguments(callable, bindings, n - 1).errors;
            let after = typed_arguments(callable, bindings, n).errors;
            after == before || exists|message: MessageView| #[trigger]
                tells_of(message, callable.arguments@[n - 1]) && after == before + seq![message]
        }),
{
    let before = typed_arguments(callable, bindings, n - 1).errors;
    let after = typed_arguments(callable, bindings, n).errors;
    let argument = callable.arguments@[n - 1];
    if after != before {
        let message = after.last();
        if named(callable.arguments@, n - 1, argument.name@) {
            lemma_inside("duplicate callback argument `"@, argument.spelled(), "`"@);
        } else {
            lemma_inside(
                "callback argument `"@,
                argument.spelled(),
                "` is not bound by this row"@,
            );
        }
        assert(tells_of(message, argument));
        assert(after =~= before + seq![message]);
    }
}

/// A use of a callback that does not agree with its first use is told of, behind the messages on
/// its arguments.
pub proof fn disagreeing_uses_are_told(
    callable: Callable,
    role: CallableRole,
    bindings: Seq<FieldDef>,
    callables: Seq<CallableView>,
)
    ensures
        ({
            let own = typed_arguments(callable, bindings, callable.arguments@.len() as int).errors;
            let after = noted(callable, role, bindings, callables).errors;
            after == own || exists|message: MessageView| #[trigger]
                tells_of(message, callable.name) && after == own + seq![message]
        }),
{
    let own = typed_arguments(callable, bindings, callable.arguments@.len() as int).errors;
    let after = noted(callable, role, bindings, callables).errors;
    if after != own {
        let message = after.last();
        lemma_inside(
            "callback `"@,
            callable.name.spelled(),
            "` is used with incompatible roles, async modes, or argument types"@,
        );
        assert(tells_of(message, callable.name));
        assert(after =~= own + seq![message]);
    }
}

/// A label that a row before has is told of at the row that has it again.
pub proof fn repeated_labels_are_told(labels: Seq<Ident>, outcome: RowOutcome)
    ensures
        match outcome {
            RowOutcome::Transition { transition, .. } => {
                let errors = outcome_errors(labels, outcome);
                if exists|i: int|
                    0 <= i < labels.len() && (#[trigger] labels[i]).name@ == transition.name@ {
                    errors.len() == 1 && tells_of(errors[0], transition)
                } else {
                    errors.len() == 0
                }
            },
            RowOutcome::Reject(_) => outcome_errors(labels, outcome).len() == 0,
        },
{
    if let RowOutcome::Transition { transition, .. } = outcome {
        lemma_inside("duplicate transition label `"@, transition.spelled(), "`"@);
        assert(named(labels, labels.len() as int, transition.name@) <==> exists|i: int|
            0 <= i < labels.len() && (#[trigger] labels[i]).name@ == transition.name@);
    }
}

/// A source, an event or a target that is not declared is told of, and nothing else is told of it.
pub proof fn unknown_names_are_told(
    row: Row,
    target: TargetState,
    states: Seq<Flat>,
    events: Seq<VariantDef>,
    bindings: Seq<FieldDef>,
)
    ensures
        row.source matches RowSource::State(pattern) ==> last_state(
            states,
            states.len() as int,
            pattern.name.name@,
        ) is None ==> source_check(row, states).errors.len() == 1 && tells_of(
            source_check(row, states).errors[0],
            pattern.name,
        ),
        row.event matches RowEvent::Event(pattern) ==> last_event(
            events,
            events.len() as int,
            pattern.name.name@,
        ) is None ==> event_check(row, events, bindings).errors.len() == 1 && tells_of(
            event_check(row, events, bindings).errors[0],
            pattern.name,
        ),
        last_state(states, states.len() as int, target.name.name@) is None ==> target_errors(
            target,
            states,
            bindings,
        ).len() == 1 && tells_of(target_errors(target, states, bindings)[0], target.name),
{
    if let RowSource::State(pattern) = row.source {
        lemma_inside("unknown source state `"@, pattern.name.spelled(), "`"@);
    }
    if let RowEvent::Event(pattern) = row.event {
        lemma_inside("unknown event `"@, pattern.name.spelled(), "`"@);
    }
    lemma_inside("unknown target state `"@, target.name.spelled(), "`"@);
}

proof fn lemma_listed(texts: Seq<Seq<char>>, n: int, i: int)
    requires
        0 <= i < n <= texts.len(),
    ensures
        occurs(comma_separated(texts, n), texts[i]),
    decreases n,
{
    if n == 1 {
        lemma_inside(Seq::empty(), texts[0], Seq::empty());
        assert(Seq::<char>::empty() + texts[0] + Seq::<char>::empty() =~= texts[0]);
    } else if i == n - 1 {
        let front = comma_separated(texts, n - 1) + ", "@;
        lemma_inside(front, texts[i], Seq::empty());
        assert(front + texts[i] + Seq::<char>::empty() =~= comma_separated(texts, n));
    } else {
        lemma_listed(texts, n - 1, i);
        let back = ", "@ + texts[n - 1];
        lemma_still_inside(Seq::empty(), comma_separated(texts, n - 1), back, texts[i]);
        assert(Seq::<char>::empty() + comma_separated(texts, n - 1) + back =~= comma_separated(
            texts,
            n,
        ));
    }
}

/// The message on events that are not handled names the machine and each pair of a leaf and an
/// event, but not more pairs than are shown; and then it says how many more there are.
pub proof fn missing_pairs_are_told(name: Ident, missing: Seq<Seq<char>>, i: int)
    requires
        0 <= i < missing.len(),
    ensures
        occurs(missing_text(name, missing), name.spelled()),
        i < SHOWN_PAIRS ==> occurs(missing_text(name, missing), missing[i]),
        missing.len() > SHOWN_PAIRS ==> occurs(
            missing_text(name, missing),
            " and "@ + decimal((missing.len() - SHOWN_PAIRS) as nat) + " more"@,
        ),
{
    let shown = if missing.len() > SHOWN_PAIRS {
        SHOWN_PAIRS as int
    } else {
        missing.len() as int
    };
    let list = comma_separated(missing, shown);
    let rest = if missing.len() > SHOWN_PAIRS {
        " and "@ + decimal((missing.len() - SHOWN_PAIRS) as nat) + " more"@
    } else {
        Seq::empty()
    };
    let front = "unhandled leaf/event pairs in `"@ + name.spelled() + "`: "@;
    let whole = missing_text(name, missing);
    assert(whole =~= front + list + rest);
    assert(whole =~= "unhandled leaf/event pairs in `"@ + name.spelled() + ("`: "@ + list + rest));
    lemma_inside("unhandled leaf/event pairs in `"@, name.spelled(), "`: "@ + list + rest);
    if i < shown {
        lemma_listed(missing, shown, i);
        lemma_still_inside(front, list, rest, missing[i]);
    }
    if missing.len() > SHOWN_PAIRS {
        lemma_inside(front + list, rest, Seq::empty());
        assert(front + list + rest + Seq::<char>::empty() =~= whole);
    }
}

/// A pair of a leaf and an event is named by both names, as they were spelled.
pub proof fn pairs_are_named(leaf: Ident, event: Ident)
    ensures
        occurs(pair_text(leaf, event), leaf.spelled()),
        occurs(pair_text(leaf, event), event.spelled()),
{
    let back = ", "@ + event.spelled() + ")"@;
    lemma_inside("("@, leaf.spelled(), back);
    assert("("@ + leaf.spelled() + back =~= pair_text(leaf, event));
    lemma_inside("("@ + leaf.spelled() + ", "@, event.spelled(), ")"@);
}

/// Whether no row is for an event in a leaf.
pub open spec fn is_missing(definition: MachineDef, l: int) -> spec_fn(int) -> bool {
    |e: int|
        !handled(
            definition.rows@,
            states_of(definition),
            states_of(definition)[l].node.variant.name.name@,
            definition.events@[e].name.name@,
        )
}

/// The pairs of a leaf that no row is for are those with the events that no row is for, in order.
pub proof fn missing_events_are_listed(definition: MachineDef, l: int, n: int)
    requires
        0 <= n <= definition.events@.len(),
    ensures
        ({
            let told = picked(n, is_missing(definition, l));
            let pairs = missing_events(definition, states_of(definition), l, n);
            &&& pairs.len() == told.len()
            &&& forall|k: int|
                0 <= k < told.len() ==> #[trigger] pairs[k] == pair_text(
                    states_of(definition)[l].node.variant.name,
                    definition.events@[told[k]].name,
                )
        }),
    decreases n,
{
    if n > 0 {
        missing_events_are_listed(definition, l, n - 1);
        let holds = is_missing(definition, l);
        let told = picked(n, holds);
        let before = missing_events(definition, states_of(definition), l, n - 1);
        let pairs = missing_events(definition, states_of(definition), l, n);
        if holds(n - 1) {
            assert forall|k: int| 0 <= k < told.len() implies #[trigger] pairs[k] == pair_text(
                states_of(definition)[l].node.variant.name,
                definition.events@[told[k]].name,
            ) by {
                if k < before.len() {
                    assert(pairs[k] == before[k]);
                }
            }
        }
    }
}

/// Whether a row can never be selected.
pub open spec fn is_unreachable(definition: MachineDef) -> spec_fn(int) -> bool {
    |r: int| !reachable(definition, states_of(definition), r)
}

/// Each row that can never be selected is told of at its place, in the order of the table, and no
/// other row is.
pub proof fn unreachable_rows_are_told(definition: MachineDef, n: int)
    requires
        0 <= n <= definition.rows@.len(),
    ensures
        ({
            let told = picked(n, is_unreachable(definition));
            let errors = unreachable_errors(definition, states_of(definition), n);
            &&& errors.len() == told.len()
            &&& forall|k: int|
                0 <= k < told.len() ==> (#[trigger] errors[k]).span
                    == definition.rows@[told[k]].span
        }),
    decreases n,
{
    if n > 0 {
        unreachable_rows_are_told(definition, n - 1);
        let holds = is_unreachable(definition);
        let told = picked(n, holds);
        let before = unreachable_errors(definition, states_of(definition), n - 1);
        let errors = unreachable_errors(definition, states_of(definition), n);
        if holds(n - 1) {
            assert forall|k: int| 0 <= k < told.len() implies (#[trigger] errors[k]).span
                == definition.rows@[told[k]].span by {
                if k < before.len() {
                    assert(errors[k] == before[k]);
                }
            }
        }
    }
}

/// A key that is given again and one that is not known are told of; a key that is given once keeps
/// its value.
pub proof fn keys_are_told<T>(slot: Option<T>, value: T, key: Ident)
    ensures
        tells_of(duplicate(key), key),
        tells_of(unknown(key), key),
        slot is None ==> set_once(slot, value, key) == Ok::<Option<T>, MessageView>(Some(value)),
        slot is Some ==> (set_once(slot, value, key) matches Err(message) && tells_of(
            message,
            key,
        )),
{
    lemma_inside("duplicate key `"@, key.spelled(), "`"@);
    lemma_inside(
        "unknown key `"@,
        key.spelled(),
        "`; expected name, serde, context, effect, states, events, or transitions"@,
    );
}

/// A keyword that stands where a name is expected is told of.
pub proof fn keywords_are_told(tokens: Seq<Token>, at: int, end: proc_macro2::Span)
    requires
        0 <= at < tokens.len(),
    ensures
        tokens[at] matches Token::Ident(ident, usable) ==> match name_syntax(tokens, at, end) {
            Ok((name, next)) => usable && name == ident && next == at + 1,
            Err(message) => !usable && tells_of(message, ident),
        },
{
    if let Token::Ident(ident, _) = tokens[at] {
        lemma_inside("expected identifier, found keyword `"@, ident.spelled(), "`"@);
    }
}

/// Leaf by leaf, in the order in which the states are listed, the pairs that no row is for are
/// gathered; a compound state has none.
pub proof fn missing_pairs_are_gathered(definition: MachineDef, n: int)
    requires
        0 < n <= states_of(definition).len(),
    ensures
        ({
            let states = states_of(definition);
            let before = missing_pairs(definition, states, n - 1);
            let after = missing_pairs(definition, states, n);
            if states[n - 1].node.children@.len() > 0 {
                after == before
            } else {
                after == before + missing_events(
                    definition,
                    states,
                    n - 1,
                    definition.events@.len() as int,
                )
            }
        }),
{
}

/// Where callbacks are used without a context type, that is told of at the first of them; where
/// effects are used without an effect type, at the first effect, by its name.
pub proof fn needed_types_are_told(definition: MachineDef, callables: Seq<CallableView>, k: int)
    requires
        0 <= k < callables.len(),
        callables[k].role is Effect,
        forall|i: int| 0 <= i < k ==> !((#[trigger] callables[i]).role is Effect),
    ensures
        definition.context is None ==> context_errors(definition, callables).len() == 1
            && context_errors(definition, callables)[0].span == callables[0].name.span,
        definition.effect is None ==> effect_errors(definition, callables).len() == 1 && tells_of(
            effect_errors(definition, callables)[0],
            callables[k].name,
        ),
        definition.context is Some ==> context_errors(definition, callables).len() == 0,
        definition.effect is Some ==> effect_errors(definition, callables).len() == 0,
{
    lemma_first_effect(callables, 0, k);
    lemma_inside(
        "`effect` is required because effect callback `"@,
        callables[k].name.spelled(),
        "` is used"@,
    );
}

proof fn lemma_first_effect(callables: Seq<CallableView>, i: int, k: int)
    requires
        0 <= i <= k < callables.len(),
        callables[k].role is Effect,
        forall|j: int| 0 <= j < k ==> !((#[trigger] callables[j]).role is Effect),
    ensures
        first_effect(callables, i) == Some(k),
    decreases k - i,
{
    if i < k {
        assert(!(callables[i].role is Effect));
        lemma_first_effect(callables, i + 1, k);
    }
}

/// The place of a token: a group has that of its opening bracket.
pub open spec fn is_place_of(token: Token, span: proc_macro2::Span) -> bool {
    match token {
        Token::Ident(ident, _) => span == ident.span,
        Token::Punct(_, _, own) => span == own,
        Token::Literal(_, own) => span == own,
        Token::Group(_, _, open, _, _) => span == open,
    }
}

/// Whether a message is where reading stopped: at the token there, or at the end where there is
/// none.
pub open spec fn is_told_at(
    message: MessageView,
    tokens: Seq<Token>,
    at: int,
    end: proc_macro2::Span,
) -> bool {
    if 0 <= at < tokens.len() {
        is_place_of(tokens[at], message.span)
    } else {
        message.span == end
    }
}

/// What is expected and not found is told of at the token that stands there instead, or at the end.
pub proof fn failures_are_told_where_reading_stops(
    tokens: Seq<Token>,
    at: int,
    end: proc_macro2::Span,
    ch: char,
    text: Seq<char>,
)
    ensures
        name_syntax(tokens, at, end) matches Err(message) ==> is_told_at(message, tokens, at, end),
        punct_syntax(tokens, at, end, ch, text) matches Err(message) ==> is_told_at(
            message,
            tokens,
            at,
            end,
        ) && message.text == text,
        arrow_syntax(tokens, at, end) matches Err(message) ==> is_told_at(message, tokens, at, end),
        separator_syntax(tokens, at, end, text) matches Err(message) ==> is_told_at(
            message,
            tokens,
            at,
            end,
        ) && occurs(message.text, text),
        bool_syntax(tokens, at, end) matches Err(message) ==> is_told_at(message, tokens, at, end),
        braces_syntax(tokens, at, end) matches Err(message) ==> is_told_at(
            message,
            tokens,
            at,
            end,
        ),
{
    let told = "expected `,` after "@ + text;
    lemma_inside("expected `,` after "@, text, Seq::empty());
    assert(told + Seq::<char>::empty() =~= told);
    lemma_still_inside("unexpected end of input, "@, told, Seq::empty(), text);
    assert("unexpected end of input, "@ + told + Seq::<char>::empty()
        =~= "unexpected end of input, "@ + told);
}

/// The messages come in the order of the definition: what is wrong with the rows before stays in
/// front, and what is wrong with one row comes behind it, first on its source, then on its event,
/// its target, its label, its guard and its effect.
pub proof fn messages_come_row_by_row(definition: MachineDef, n: int)
    requires
        0 < n <= definition.rows@.len(),
    ensures
        ({
            let row = definition.rows@[n - 1];
            let before = collected(definition, n - 1);
            let after = collected(definition, n).errors;
            let source = source_check(row, states_of(definition));
            let event = event_check(row, definition.events@, source.bindings);
            let target = match row.outcome {
                RowOutcome::Transition { target: Some(target), .. } => target_errors(
                    target,
                    states_of(definition),
                    event.bindings,
                ),
                _ => Seq::empty(),
            };
            let label = outcome_errors(before.transitions, row.outcome);
            let guard = guard_noted(definition, n - 1).errors;
            let effect = effect_noted(definition, n - 1).errors;
            after == before.errors + (source.errors + (event.errors + (target + (label + (guard
                + effect)))))
        }),
{
    let row = definition.rows@[n - 1];
    let before = collected(definition, n - 1);
    let source = source_check(row, states_of(definition));
    let event = event_check(row, definition.events@, source.bindings);
    let target = match row.outcome {
        RowOutcome::Transition { target: Some(target), .. } => target_errors(
            target,
            states_of(definition),
            event.bindings,
        ),
        _ => Seq::empty(),
    };
    let label = outcome_errors(before.transitions, row.outcome);
    let guard = guard_noted(definition, n - 1).errors;
    let effect = effect_noted(definition, n - 1).errors;
    assert(collected(definition, n).errors =~= before.errors + (source.errors + (event.errors + (
    target + (label + (guard + effect))))));
}

/// What is wrong with the declarations is told first, then what is wrong with the rows, then what
/// they leave uncovered, and last which types are missing.
pub proof fn declarations_are_told_first(definition: MachineDef)
    requires
        definition.events@.len() > 0,
        states_of(definition).len() > 0,
    ensures
        ({
            let states = states_of(definition);
            let table = table_of(definition);
            validation_errors(definition) == declaration_errors(definition, states) + (table.errors
                + (coverage_errors(definition, states) + (context_errors(
                definition,
                table.callables,
            ) + effect_errors(definition, table.callables))))
        }),
{
    let states = states_of(definition);
    let table = table_of(definition);
    assert(validation_errors(definition) =~= declaration_errors(definition, states) + (table.errors
        + (coverage_errors(definition, states) + (context_errors(definition, table.callables)
        + effect_errors(definition, table.callables)))));
}

/// The context trait of a machine has the name of the machine and more, so that machines with
/// different names have different traits.
pub proof fn context_traits_differ(
    one: MachineDef,
    other: MachineDef,
    left: Ident,
    right: Ident,
)
    requires
        is_context_trait(one, left),
        is_context_trait(other, right),
    ensures
        left.name@ == right.name@ <==> one.name.name@ == other.name.name@,
        left.name@.len() > one.name.name@.len(),
        left.name@.take(one.name.name@.len() as int) == one.name.name@,
        left.span == one.name.span,
        !left.raw,
{
    reveal_strlit("Context");
    let suffix = "Context"@;
    assert(left.name@.take(one.name.name@.len() as int) =~= one.name.name@);
    assert(right.name@.take(other.name.name@.len() as int) =~= other.name.name@);
    if left.name@ == right.name@ {
        assert(one.name.name@.len() == other.name.name@.len());
    }
}

/// A raw identifier is the same name as the plain one: the prefix is taken off once, and nothing
/// else is.
pub proof fn raw_names_are_plain_names(name: Seq<char>)
    ensures
        unraw("r#"@ + name) == name,
        is_raw("r#"@ + name),
        !is_raw(name) ==> unraw(name) == name,
{
    reveal_strlit("r#");
    assert(("r#"@ + name).skip(2) =~= name);
}

/// What is said of an event that was not handled names the event and the state, and what is said of
/// one that was rejected names the reason.
pub proof fn process_errors_say_what_happened(
    state: Seq<char>,
    event: Seq<char>,
    reason: Seq<char>,
)
    ensures
        occurs(unhandled_text(state, event), state),
        occurs(unhandled_text(state, event), event),
        occurs(rejected_text(reason), reason),
{
    let back = " was not handled in state "@ + state;
    lemma_inside("event "@, event, back);
    assert("event "@ + event + back =~= unhandled_text(state, event));
    lemma_inside("event "@ + event + " was not handled in state "@, state, Seq::empty());
    assert("event "@ + event + " was not handled in state "@ + state + Seq::<char>::empty()
        =~= unhandled_text(state, event));
    lemma_inside("event was rejected: "@, reason, Seq::empty());
    assert("event was rejected: "@ + reason + Seq::<char>::empty() =~= rejected_text(reason));
}

/// What is wrong with a pattern as a whole is told at its name, behind what is wrong with the
/// fields that it lists: it leaves out fields without saying so.
pub proof fn incomplete_patterns_are_told(
    pattern: BindingPattern,
    variant: VariantDef,
    kind: Seq<char>,
    bindings: Seq<FieldDef>,
)
    requires
        pattern.explicit_fields,
    ensures
        ({
            let each = pattern_fields(
                pattern,
                variant,
                kind,
                bindings,
                pattern.fields@.len() as int,
            ).errors;
            let all = pattern_check(pattern, variant, kind, bindings).errors;
            if !pattern.rest && pattern.fields@.len() != variant.fields@.len() {
                &&& all.len() == each.len() + 1
                &&& all.drop_last() == each
                &&& tells_at(all.last(), pattern.name.span, variant.name.spelled())
            } else {
                all == each
            }
        }),
{
    let each = pattern_fields(pattern, variant, kind, bindings, pattern.fields@.len() as int).errors;
    let all = pattern_check(pattern, variant, kind, bindings).errors;
    if !pattern.rest && pattern.fields@.len() != variant.fields@.len() {
        assert(all.drop_last() =~= each);
        lemma_inside(
            "pattern for "@ + kind + " `"@,
            variant.name.spelled(),
            "` must bind every field or end with `..`"@,
        );
    }
}

/// A target that is given fields that it does not have, or that is not given the fields that it
/// has, is told of at its name.
pub proof fn unfit_targets_are_told(
    target: TargetState,
    fields: Seq<FieldDef>,
    bindings: Seq<FieldDef>,
)
    ensures
        ({
            let errors = leaf_target_errors(target, fields, bindings);
            let each = target_field_errors(target, fields, bindings, target.fields@.len() as int);
            &&& fields.len() == 0 && target.explicit_fields && target.fields@.len() > 0
                ==> errors.len() == 1 && tells_of(errors[0], target.name)
            &&& fields.len() > 0 && !target.explicit_fields ==> errors.len() == 1 && tells_of(
                errors[0],
                target.name,
            )
            &&& fields.len() > 0 && target.explicit_fields ==> errors == each || errors.len()
                == each.len() + 1 && errors.drop_last() == each && tells_of(
                errors.last(),
                target.name,
            )
        }),
{
    let errors = leaf_target_errors(target, fields, bindings);
    let each = target_field_errors(target, fields, bindings, target.fields@.len() as int);
    lemma_inside("target state `"@, target.name.spelled(), "` has no payload fields"@);
    lemma_inside("target state `"@, target.name.spelled(), "` requires payload fields"@);
    lemma_inside("target state `"@, target.name.spelled(), "` requires every payload field"@);
    if fields.len() > 0 && target.explicit_fields && errors != each {
        assert(errors.drop_last() =~= each);
    }
}

/// A key that a definition lacks is told of by its word, at the end; the first of several, in this
/// order: name, states, events, transitions.
pub proof fn missing_keys_are_told(
    tokens: Seq<Token>,
    end: proc_macro2::Span,
    draft: DraftView,
)
    ensures
        match definition_of(tokens, end, draft) {
            Ok(definition) => draft.name == Some(definition.name) && draft.states == Some(
                definition.states,
            ) && draft.events == Some(definition.events) && draft.rows == Some(definition.rows),
            Err(message) => tells_at(
                message,
                end,
                if draft.name is None {
                    "`name`"@
                } else if draft.states is None {
                    "`states`"@
                } else if draft.events is None {
                    "`events`"@
                } else {
                    "`transitions`"@
                },
            ),
        },
{
    let front = "unexpected end of input, "@;
    reveal_strlit("missing required key `name`");
    reveal_strlit("missing required key `states`");
    reveal_strlit("missing required key `events`");
    reveal_strlit("missing required key `transitions`");
    reveal_strlit("missing required key ");
    reveal_strlit("`name`");
    reveal_strlit("`states`");
    reveal_strlit("`events`");
    reveal_strlit("`transitions`");
    let key = if draft.name is None {
        "`name`"@
    } else if draft.states is None {
        "`states`"@
    } else if draft.events is None {
        "`events`"@
    } else {
        "`transitions`"@
    };
    assert("missing required key "@ + "`name`"@ =~= "missing required key `name`"@);
    assert("missing required key "@ + "`states`"@ =~= "missing required key `states`"@);
    assert("missing required key "@ + "`events`"@ =~= "missing required key `events`"@);
    assert("missing required key "@ + "`transitions`"@ =~= "missing required key `transitions`"@);
    lemma_inside(front + "missing required key "@, key, Seq::empty());
    assert(front + "missing required key "@ + key + Seq::<char>::empty() =~= front + (
    "missing required key "@ + key));
}

} // verus!
