//! Where the values that a row names come from.
use crate::model::{
    BindingPattern, Callable, FieldDef, Flat, MachineDef, Row, RowEvent, RowOutcome, RowSource,
    TargetField, TargetState, VariantDef,
};
use crate::validate::callables::typed_arguments;
use crate::validate::coverage::{ancestor, applies, distance, levels_to};
use crate::validate::lookup::{
    has_field, last_event, last_state, lemma_last_event, lemma_last_field, lemma_last_state, named,
};
use crate::validate::rows::{
    distinct_fields, distinct_target_fields, has_target_field, leaf_target_errors, pattern_check,
    pattern_fields, source_check, target_errors, target_field_error, target_field_errors,
};
use crate::validate::states_of;
use crate::valid::{
    ancestors_are_compound, bindings_of, distinct_field_names, effect_noted, event_name,
    guard_noted, lemma_found_by_name, lemma_no_messages, lemma_row_messages, names_are_distinct,
    state_name, valid,
};
use vstd::prelude::*;

verus! {

/// Whether a pattern names a field.
pub open spec fn pattern_binds(pattern: BindingPattern, name: Seq<char>) -> bool {
    pattern.explicit_fields && named(pattern.fields@, pattern.fields@.len() as int, name)
}

/// Whether the source of a row names a field.
pub open spec fn source_binds(row: Row, name: Seq<char>) -> bool {
    row.source matches RowSource::State(pattern) && pattern_binds(pattern, name)
}

/// Whether the event of a row names a field.
pub open spec fn event_binds(row: Row, name: Seq<char>) -> bool {
    row.event matches RowEvent::Event(pattern) && pattern_binds(pattern, name)
}

/// Whether a row binds a name.
pub open spec fn binds(definition: MachineDef, r: int, name: Seq<char>) -> bool {
    has_field(bindings_of(definition, r), bindings_of(definition, r).len() as int, name)
}

proof fn lemma_pattern_fields(
    pattern: BindingPattern,
    variant: VariantDef,
    kind: Seq<char>,
    bindings: Seq<FieldDef>,
    n: int,
    name: Seq<char>,
)
    requires
        0 <= n <= pattern.fields@.len(),
    ensures
        has_field(
            pattern_fields(pattern, variant, kind, bindings, n).bindings,
            pattern_fields(pattern, variant, kind, bindings, n).bindings.len() as int,
            name,
        ) ==> has_field(bindings, bindings.len() as int, name) || named(pattern.fields@, n, name)
            && has_field(variant.fields@, variant.fields@.len() as int, name),
    decreases n,
{
    let after = pattern_fields(pattern, variant, kind, bindings, n).bindings;
    if n > 0 && has_field(after, after.len() as int, name) {
        let before = pattern_fields(pattern, variant, kind, bindings, n - 1).bindings;
        let own = pattern.fields@[n - 1].name@;
        lemma_pattern_fields(pattern, variant, kind, bindings, n - 1, name);
        lemma_last_field(variant.fields@, variant.fields@.len() as int, own);
        let j = choose|j: int| 0 <= j < after.len() && (#[trigger] after[j]).name.name@ == name;
        if j < before.len() {
            assert(before[j] == after[j]);
        } else {
            assert(pattern.fields@[n - 1].name@ == name);
        }
        if named(pattern.fields@, n - 1, name) {
            assert(named(pattern.fields@, n, name));
        }
    }
}

proof fn lemma_named_fields_exist(
    pattern: BindingPattern,
    variant: VariantDef,
    kind: Seq<char>,
    bindings: Seq<FieldDef>,
    n: int,
)
    requires
        0 <= n <= pattern.fields@.len(),
        pattern_fields(pattern, variant, kind, bindings, n).errors.len() == 0,
    ensures
        forall|i: int|
            0 <= i < n ==> has_field(
                variant.fields@,
                variant.fields@.len() as int,
                (#[trigger] pattern.fields@[i]).name@,
            ),
    decreases n,
{
    if n > 0 {
        lemma_named_fields_exist(pattern, variant, kind, bindings, n - 1);
        lemma_last_field(
            variant.fields@,
            variant.fields@.len() as int,
            pattern.fields@[n - 1].name@,
        );
    }
}

/// A field that the source of a row names is a payload field of it, and the source is a leaf.
proof fn lemma_source_field(definition: MachineDef, r: int, name: Seq<char>)
    requires
        valid(definition),
        0 <= r < definition.rows@.len(),
        source_binds(definition.rows@[r], name),
    ensures
        last_state(
            states_of(definition),
            states_of(definition).len() as int,
            definition.rows@[r].source->State_0.name.name@,
        ) matches Some(k) && !states_of(definition)[k].node.compound() && has_field(
            states_of(definition)[k].node.variant.fields@,
            states_of(definition)[k].node.variant.fields@.len() as int,
            name,
        ),
{
    let states = states_of(definition);
    let row = definition.rows@[r];
    let pattern = row.source->State_0;
    lemma_no_messages(definition);
    lemma_row_messages(definition, definition.rows@.len() as int, r);
    assert(source_check(row, states).errors.len() == 0);
    if let Some(k) = last_state(states, states.len() as int, pattern.name.name@) {
        if !states[k].node.compound() {
            let variant = states[k].node.variant;
            let n = pattern.fields@.len() as int;
            assert(pattern_check(pattern, variant, "state"@, Seq::empty()).errors.len() == 0);
            assert(pattern_fields(pattern, variant, "state"@, Seq::empty(), n).errors.len() == 0);
            lemma_named_fields_exist(pattern, variant, "state"@, Seq::empty(), n);
            let i = choose|i: int| 0 <= i < n && (#[trigger] pattern.fields@[i]).name@ == name;
            assert(has_field(
                variant.fields@,
                variant.fields@.len() as int,
                pattern.fields@[i].name@,
            ));
        }
    }
}

/// What a row binds is a payload field of its source, which is a leaf, or of its event.
proof fn lemma_bound(definition: MachineDef, r: int, name: Seq<char>)
    requires
        valid(definition),
        0 <= r < definition.rows@.len(),
        binds(definition, r, name),
    ensures
        ({
            let row = definition.rows@[r];
            let states = states_of(definition);
            ||| source_binds(row, name) && (last_state(
                states,
                states.len() as int,
                row.source->State_0.name.name@,
            ) matches Some(k) && !states[k].node.compound() && has_field(
                states[k].node.variant.fields@,
                states[k].node.variant.fields@.len() as int,
                name,
            ))
            ||| event_binds(row, name) && (last_event(
                definition.events@,
                definition.events@.len() as int,
                row.event->Event_0.name.name@,
            ) matches Some(k) && has_field(
                definition.events@[k].fields@,
                definition.events@[k].fields@.len() as int,
                name,
            ))
        }),
{
    let row = definition.rows@[r];
    let states = states_of(definition);
    let source = source_check(row, states);
    if let RowEvent::Event(pattern) = row.event {
        if let Some(k) = last_event(
            definition.events@,
            definition.events@.len() as int,
            pattern.name.name@,
        ) {
            lemma_pattern_fields(
                pattern,
                definition.events@[k],
                "event"@,
                source.bindings,
                pattern.fields@.len() as int,
                name,
            );
        }
    }
    if let RowSource::State(pattern) = row.source {
        if let Some(k) = last_state(states, states.len() as int, pattern.name.name@) {
            lemma_pattern_fields(
                pattern,
                states[k].node.variant,
                "state"@,
                Seq::empty(),
                pattern.fields@.len() as int,
                name,
            );
        }
    }
}

pub(crate) proof fn lemma_levels(states: Seq<Flat>, name: Seq<char>, target: Seq<char>, k: nat)
    ensures
        levels_to(states, name, target, k) matches Some(d) ==> k <= d < states.len() && ancestor(
            states,
            name,
            d,
        ) == Some(target),
    decreases states.len() - k,
{
    if k < states.len() && ancestor(states, name, k) != Some(target) {
        lemma_levels(states, name, target, k + 1);
    }
}

/// A row whose source is a leaf is for that leaf only.
pub proof fn lemma_leaf_source(definition: MachineDef, r: int, l: int)
    requires
        valid(definition),
        0 <= r < definition.rows@.len(),
        0 <= l < states_of(definition).len(),
        distance(
            definition.rows@[r],
            state_name(states_of(definition), l),
            states_of(definition),
        ) is Some,
    ensures
        definition.rows@[r].source matches RowSource::State(pattern) ==> last_state(
            states_of(definition),
            states_of(definition).len() as int,
            pattern.name.name@,
        ) matches Some(k) && (states_of(definition)[k].node.compound() || k == l),
{
    let states = states_of(definition);
    if let RowSource::State(pattern) = definition.rows@[r].source {
        let target = pattern.name.name@;
        lemma_levels(states, state_name(states, l), target, 0);
        let d = levels_to(states, state_name(states, l), target, 0)->0;
        ancestors_are_compound(definition, l, d);
        let j = choose|j: int|
            #![trigger state_name(states, j)]
            0 <= j <= l - d && state_name(states, j) == target && (d > 0
                ==> states[j].node.compound());
        lemma_found_by_name(definition, j);
        if d == 0 {
            lemma_found_by_name(definition, l);
        }
    }
}

/// An event is found under its own name.
pub proof fn lemma_event_found(definition: MachineDef, e: int)
    requires
        valid(definition),
        0 <= e < definition.events@.len(),
    ensures
        last_event(
            definition.events@,
            definition.events@.len() as int,
            event_name(definition, e),
        ) == Some(e),
{
    let events = definition.events@;
    let name = event_name(definition, e);
    names_are_distinct(definition);
    lemma_last_event(events, events.len() as int, name);
    assert(events[e].name.name@ == name);
    let k = last_event(events, events.len() as int, name)->0;
    assert(event_name(definition, k) == name);
}

/// What an applying row binds is a payload field of the active leaf or of the event.
pub proof fn lemma_binding_place(definition: MachineDef, r: int, l: int, e: int, name: Seq<char>)
    requires
        valid(definition),
        0 <= r < definition.rows@.len(),
        0 <= l < states_of(definition).len(),
        0 <= e < definition.events@.len(),
        applies(
            definition.rows@[r],
            state_name(states_of(definition), l),
            event_name(definition, e),
            states_of(definition),
        ),
        binds(definition, r, name),
    ensures
        ({
            let row = definition.rows@[r];
            let fields = states_of(definition)[l].node.variant.fields@;
            let event_fields = definition.events@[e].fields@;
            if source_binds(row, name) {
                has_field(fields, fields.len() as int, name)
            } else {
                event_binds(row, name) && has_field(event_fields, event_fields.len() as int, name)
            }
        }),
{
    lemma_bound(definition, r, name);
    if source_binds(definition.rows@[r], name) {
        lemma_source_field(definition, r, name);
    }
    lemma_leaf_source(definition, r, l);
    lemma_event_found(definition, e);
}

proof fn lemma_arguments(callable: Callable, bindings: Seq<FieldDef>, n: int)
    requires
        0 <= n <= callable.arguments@.len(),
        typed_arguments(callable, bindings, n).errors.len() == 0,
    ensures
        forall|i: int|
            0 <= i < n ==> has_field(
                bindings,
                bindings.len() as int,
                (#[trigger] callable.arguments@[i]).name@,
            ),
    decreases n,
{
    if n > 0 {
        lemma_arguments(callable, bindings, n - 1);
        lemma_last_field(bindings, bindings.len() as int, callable.arguments@[n - 1].name@);
    }
}

/// The arguments of the callbacks of a row are bound by the row.
pub proof fn arguments_are_bound(definition: MachineDef, r: int)
    requires
        valid(definition),
        0 <= r < definition.rows@.len(),
    ensures
        definition.rows@[r].guard matches Some(callable) ==> forall|i: int|
            0 <= i < callable.arguments@.len() ==> binds(
                definition,
                r,
                (#[trigger] callable.arguments@[i]).name@,
            ),
        definition.rows@[r].effect matches Some(callable) ==> forall|i: int|
            0 <= i < callable.arguments@.len() ==> binds(
                definition,
                r,
                (#[trigger] callable.arguments@[i]).name@,
            ),
{
    lemma_no_messages(definition);
    lemma_row_messages(definition, definition.rows@.len() as int, r);
    let bindings = bindings_of(definition, r);
    if let Some(callable) = definition.rows@[r].guard {
        assert(guard_noted(definition, r).errors.len() == 0);
        lemma_arguments(callable, bindings, callable.arguments@.len() as int);
    }
    if let Some(callable) = definition.rows@[r].effect {
        assert(effect_noted(definition, r).errors.len() == 0);
        lemma_arguments(callable, bindings, callable.arguments@.len() as int);
    }
}

/// The target of a row.
pub open spec fn target_of(row: Row) -> Option<TargetState> {
    match row.outcome {
        RowOutcome::Transition { target, .. } => target,
        RowOutcome::Reject(_) => None,
    }
}

pub(crate) proof fn lemma_target_fields(
    target: TargetState,
    fields: Seq<FieldDef>,
    bindings: Seq<FieldDef>,
    n: int,
)
    requires
        0 <= n <= target.fields@.len(),
        target_field_errors(target, fields, bindings, n).len() == 0,
    ensures
        distinct_target_fields(target.fields@, n) == n,
        forall|i: int, j: int|
            0 <= i < j < n ==> (#[trigger] target.fields@[i]).name.name@ != (
            #[trigger] target.fields@[j]).name.name@,
        forall|i: int|
            0 <= i < n ==> has_field(
                fields,
                fields.len() as int,
                (#[trigger] target.fields@[i]).name.name@,
            ) && has_field(bindings, bindings.len() as int, target.fields@[i].binding.name@),
    decreases n,
{
    if n > 0 {
        let field = target.fields@[n - 1];
        let repeated = has_target_field(target.fields@, n - 1, field.name.name@);
        let own = target_field_error(target, field, fields, bindings, repeated);
        assert(target_field_errors(target, fields, bindings, n).len() == target_field_errors(
            target,
            fields,
            bindings,
            n - 1,
        ).len() + own.len());
        lemma_target_fields(target, fields, bindings, n - 1);
        assert(!repeated);
        assert forall|i: int, j: int| 0 <= i < j < n implies (
        #[trigger] target.fields@[i]).name.name@ != (#[trigger] target.fields@[j]).name.name@ by {
            if j == n - 1 {
                assert(target.fields@[i].name.name@ != field.name.name@);
            }
        }
    }
}

proof fn lemma_distinct_fields(fields: Seq<FieldDef>, n: int)
    requires
        0 <= n <= fields.len(),
        distinct_field_names(fields),
    ensures
        distinct_fields(fields, n) == n,
    decreases n,
{
    if n > 0 {
        lemma_distinct_fields(fields, n - 1);
    }
}

/// As many different target fields as payload fields, each of which is one: none is left out.
proof fn lemma_no_field_left_out(target: Seq<TargetField>, fields: Seq<FieldDef>, f: int)
    requires
        target.len() == fields.len(),
        distinct_field_names(fields),
        forall|i: int, j: int|
            0 <= i < j < target.len() ==> (#[trigger] target[i]).name.name@ != (
            #[trigger] target[j]).name.name@,
        forall|i: int|
            0 <= i < target.len() ==> has_field(
                fields,
                fields.len() as int,
                (#[trigger] target[i]).name.name@,
            ),
        0 <= f < fields.len(),
    ensures
        has_target_field(target, target.len() as int, fields[f].name.name@),
{
    let given = target.map_values(|field: TargetField| field.name.name@);
    let declared = fields.map_values(|field: FieldDef| field.name.name@);
    assert(given.no_duplicates()) by {
        assert forall|i: int, j: int|
            0 <= i < given.len() && 0 <= j < given.len() && i != j implies given[i] != given[j] by {
            assert(target[i].name.name@ == given[i] && target[j].name.name@ == given[j]);
        }
    }
    assert(declared.no_duplicates()) by {
        assert forall|i: int, j: int|
            0 <= i < declared.len() && 0 <= j < declared.len() && i != j implies declared[i]
            != declared[j] by {
            assert(fields[i].name.name@ == declared[i] && fields[j].name.name@ == declared[j]);
        }
    }
    given.unique_seq_to_set();
    declared.unique_seq_to_set();
    assert(given.to_set().subset_of(declared.to_set())) by {
        assert forall|name: Seq<char>| given.to_set().contains(name) implies declared.to_set().contains(
            name,
        ) by {
            let i = choose|i: int| 0 <= i < given.len() && given[i] == name;
            assert(target[i].name.name@ == name);
            let j = choose|j: int|
                0 <= j < fields.len() && (#[trigger] fields[j]).name.name@ == name;
            assert(declared[j] == name);
        }
    }
    vstd::set_lib::lemma_subset_equality(given.to_set(), declared.to_set());
    assert(declared[f] == fields[f].name.name@);
    assert(declared.to_set().contains(declared[f]));
    let i = choose|i: int| 0 <= i < given.len() && given[i] == declared[f];
    assert(target[i].name.name@ == fields[f].name.name@);
}

/// The target of a row is a declared state. Where it is a leaf with a payload, each payload field
/// is filled, and nothing else, from a binding of the row.
pub proof fn targets_are_filled(definition: MachineDef, r: int)
    requires
        valid(definition),
        0 <= r < definition.rows@.len(),
    ensures
        target_of(definition.rows@[r]) matches Some(target) ==> (last_state(
            states_of(definition),
            states_of(definition).len() as int,
            target.name.name@,
        ) matches Some(k) && (!states_of(definition)[k].node.compound() ==> ({
            let fields = states_of(definition)[k].node.variant.fields@;
            &&& forall|f: int|
                0 <= f < fields.len() ==> has_target_field(
                    target.fields@,
                    target.fields@.len() as int,
                    (#[trigger] fields[f]).name.name@,
                )
            &&& fields.len() > 0 ==> forall|i: int|
                0 <= i < target.fields@.len() ==> binds(
                    definition,
                    r,
                    (#[trigger] target.fields@[i]).binding.name@,
                ) && has_field(fields, fields.len() as int, target.fields@[i].name.name@)
        }))),
{
    let states = states_of(definition);
    lemma_no_messages(definition);
    lemma_row_messages(definition, definition.rows@.len() as int, r);
    names_are_distinct(definition);
    if let Some(target) = target_of(definition.rows@[r]) {
        let bindings = bindings_of(definition, r);
        assert(target_errors(target, states, bindings).len() == 0);
        lemma_last_state(states, states.len() as int, target.name.name@);
        let k = last_state(states, states.len() as int, target.name.name@)->0;
        let fields = states[k].node.variant.fields@;
        if !states[k].node.compound() && fields.len() > 0 {
            let n = target.fields@.len() as int;
            assert(leaf_target_errors(target, fields, bindings).len() == 0);
            lemma_target_fields(target, fields, bindings, n);
            lemma_distinct_fields(fields, fields.len() as int);
            assert forall|f: int| 0 <= f < fields.len() implies has_target_field(
                target.fields@,
                n,
                (#[trigger] fields[f]).name.name@,
            ) by {
                lemma_no_field_left_out(target.fields@, fields, f);
            }
        }
    }
}

} // verus!
