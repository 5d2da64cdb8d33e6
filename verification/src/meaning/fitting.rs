//! Which rows fit the states and events of their definition.
use crate::bindings::{event_binds, pattern_binds, source_binds, target_of};
use crate::meaning::blocks::{
    event_names_differ, field_names_differ, is_event_named, is_state_named, lemma_event_at,
    lemma_state_at, state_names_differ,
};
use crate::meaning::callbacks::{are_different, lemma_last_field, stands_for};
use crate::model::{
    BindingPattern, FieldDef, Flat, MachineDef, Row, RowEvent, RowOutcome, RowSource, StateNode,
    TargetState, VariantDef,
};
use crate::token::Ident;
use crate::validate::lookup::{
    event_named, has_field, last_event, last_field, last_index, last_state, named, state_named,
};
use crate::validate::states_of;
use crate::validate::rows::{
    distinct_fields, distinct_target_fields, event_check, has_target_field, leaf_target_errors,
    pattern_check, pattern_fields, row_check, source_check, target_errors, target_field_error,
    target_field_errors,
};
use vstd::prelude::*;

verus! {

/// Whether a state or an event declares a field.
pub open spec fn declares(variant: VariantDef, name: Ident) -> bool {
    exists|j: int|
        0 <= j < variant.fields@.len() && (#[trigger] variant.fields@[j]).name.name@ == name.name@
}

/// Whether the names are different.
pub open spec fn names_differ(names: Seq<Ident>) -> bool {
    forall|i: int, j: int|
        0 <= i < j < names.len() ==> (#[trigger] names[i]).name@ != (#[trigger] names[j]).name@
}

/// Whether a pattern fits a state or an event: the fields that it lists are different ones that are
/// declared, and they are all of them unless it ends with `..`.
pub open spec fn pattern_fits(pattern: BindingPattern, variant: VariantDef) -> bool {
    pattern.explicit_fields ==> {
        &&& names_differ(pattern.fields@)
        &&& forall|i: int|
            0 <= i < pattern.fields@.len() ==> declares(variant, #[trigger] pattern.fields@[i])
        &&& pattern.rest || pattern.fields@.len() == variant.fields@.len()
    }
}

/// Whether none of the names is that of a field.
pub open spec fn are_new(names: Seq<Ident>, fields: Seq<FieldDef>) -> bool {
    forall|i: int, j: int|
        0 <= i < names.len() && 0 <= j < fields.len() ==> (#[trigger] names[i]).name@ != (
        #[trigger] fields[j]).name.name@
}

/// The declared field that the listed field at a position stands for.
spec fn field_at(pattern: BindingPattern, variant: VariantDef, i: int) -> FieldDef {
    variant.fields@[last_field(
        variant.fields@,
        variant.fields@.len() as int,
        pattern.fields@[i].name@,
    )->0]
}

spec fn fits_at(
    pattern: BindingPattern,
    variant: VariantDef,
    bindings: Seq<FieldDef>,
    i: int,
) -> bool {
    &&& !named(pattern.fields@, i, pattern.fields@[i].name@)
    &&& last_field(
        variant.fields@,
        variant.fields@.len() as int,
        pattern.fields@[i].name@,
    ) is Some
    &&& last_field(bindings, bindings.len() as int, pattern.fields@[i].name@) is None
}

proof fn lemma_pattern_fields(
    pattern: BindingPattern,
    variant: VariantDef,
    kind: Seq<char>,
    bindings: Seq<FieldDef>,
    n: int,
)
    requires
        0 <= n <= pattern.fields@.len(),
    ensures
        ({
            let after = pattern_fields(pattern, variant, kind, bindings, n);
            &&& after.errors.len() == 0 <==> (forall|i: int|
                0 <= i < n ==> #[trigger] fits_at(pattern, variant, bindings, i))
            &&& after.errors.len() == 0 ==> after.bindings == bindings + Seq::new(
                n as nat,
                |i: int| field_at(pattern, variant, i),
            )
        }),
    decreases n,
{
    let after = pattern_fields(pattern, variant, kind, bindings, n);
    if n > 0 {
        lemma_pattern_fields(pattern, variant, kind, bindings, n - 1);
        let before = pattern_fields(pattern, variant, kind, bindings, n - 1);
        let name = pattern.fields@[n - 1].name@;
        lemma_last_field(variant.fields@, variant.fields@.len() as int, name);
        lemma_last_field(before.bindings, before.bindings.len() as int, name);
        lemma_last_field(bindings, bindings.len() as int, name);
        assert(after.errors.len() >= before.errors.len());
        if before.errors.len() == 0 && !named(pattern.fields@, n - 1, name) {
            assert forall|i: int| 0 <= i < n - 1 implies (#[trigger] before.bindings[bindings.len()
                + i]).name.name@ != name by {
                assert(fits_at(pattern, variant, bindings, i));
                lemma_last_field(
                    variant.fields@,
                    variant.fields@.len() as int,
                    pattern.fields@[i].name@,
                );
                assert(before.bindings[bindings.len() + i] == field_at(pattern, variant, i));
                assert(pattern.fields@[i].name@ != name);
            }
            let known = last_field(bindings, bindings.len() as int, name);
            let found = last_field(before.bindings, before.bindings.len() as int, name);
            if let Some(k) = found {
                if k >= bindings.len() {
                    assert(before.bindings[bindings.len() + (k - bindings.len())].name.name@
                        != name);
                } else {
                    assert(bindings[k] == before.bindings[k]);
                }
                assert(known is Some);
            }
            if let Some(k) = known {
                assert(before.bindings[k] == bindings[k]);
                assert(found is Some);
            }
        }
        if before.errors.len() == 0 {
            assert(after.errors.len() == 0 <==> fits_at(pattern, variant, bindings, n - 1));
        } else {
            let i = choose|i: int|
                0 <= i < n - 1 && !#[trigger] fits_at(pattern, variant, bindings, i);
            assert(!fits_at(pattern, variant, bindings, i));
        }
        if after.errors.len() == 0 {
            assert(after.bindings =~= bindings + Seq::new(
                n as nat,
                |i: int| field_at(pattern, variant, i),
            ));
        }
    } else {
        assert(after.bindings =~= bindings + Seq::new(0, |i: int| field_at(pattern, variant, i)));
    }
}

/// A pattern gives no message exactly where it fits, and where it names nothing that is bound
/// already. Then it binds, behind what is bound already, the fields that it lists, in order.
proof fn lemma_pattern(
    pattern: BindingPattern,
    variant: VariantDef,
    kind: Seq<char>,
    bindings: Seq<FieldDef>,
)
    ensures
        ({
            let after = pattern_check(pattern, variant, kind, bindings);
            &&& after.errors.len() == 0 <==> pattern_fits(pattern, variant) && (
            pattern.explicit_fields ==> are_new(pattern.fields@, bindings))
            &&& after.errors.len() == 0 ==> after.bindings == bindings + (
            if pattern.explicit_fields {
                Seq::new(pattern.fields@.len(), |i: int| field_at(pattern, variant, i))
            } else {
                Seq::empty()
            })
        }),
{
    let n = pattern.fields@.len() as int;
    let after = pattern_check(pattern, variant, kind, bindings);
    lemma_pattern_fields(pattern, variant, kind, bindings, n);
    if pattern.explicit_fields {
        if pattern_fields(pattern, variant, kind, bindings, n).errors.len() == 0 {
            assert forall|i: int, j: int| 0 <= i < j < n implies (#[trigger] pattern.fields@[i]).name@
                != (#[trigger] pattern.fields@[j]).name@ by {
                assert(fits_at(pattern, variant, bindings, j));
            }
            assert forall|i: int| 0 <= i < n implies declares(
                variant,
                #[trigger] pattern.fields@[i],
            ) by {
                assert(fits_at(pattern, variant, bindings, i));
                lemma_last_field(
                    variant.fields@,
                    variant.fields@.len() as int,
                    pattern.fields@[i].name@,
                );
            }
            assert forall|i: int, j: int| 0 <= i < n && 0 <= j < bindings.len() implies (
            #[trigger] pattern.fields@[i]).name@ != (#[trigger] bindings[j]).name.name@ by {
                assert(fits_at(pattern, variant, bindings, i));
                lemma_last_field(bindings, bindings.len() as int, pattern.fields@[i].name@);
            }
        }
        if pattern_fits(pattern, variant) && are_new(pattern.fields@, bindings) {
            assert forall|i: int| 0 <= i < n implies #[trigger] fits_at(
                pattern,
                variant,
                bindings,
                i,
            ) by {
                let name = pattern.fields@[i].name@;
                assert(declares(variant, pattern.fields@[i]));
                lemma_last_field(variant.fields@, variant.fields@.len() as int, name);
                lemma_last_field(bindings, bindings.len() as int, name);
            }
        }
    } else {
        assert(after.bindings =~= bindings + Seq::<FieldDef>::empty());
    }
}

/// Whether a pattern lists the name of a declared field.
pub open spec fn lists_field(
    pattern: BindingPattern,
    variant: VariantDef,
    name: Ident,
    field: FieldDef,
) -> bool {
    &&& pattern_binds(pattern, name.name@)
    &&& field.name.name@ == name.name@
    &&& exists|j: int| 0 <= j < variant.fields@.len() && #[trigger] variant.fields@[j] == field
}

/// Whether a name stands for a field in a row: the pattern of its source lists it, and the source
/// declares the field; or the pattern of its event lists it, and the event declares the field.
pub open spec fn binds_field(definition: MachineDef, r: int, name: Ident, field: FieldDef) -> bool {
    let row = definition.rows@[r];
    let states = states_of(definition);
    ||| (row.source matches RowSource::State(pattern) && exists|k: int| #[trigger]
        is_state_named(states, pattern.name, k) && states[k].node.children@.len() == 0
            && lists_field(pattern, states[k].node.variant, name, field))
    ||| (row.event matches RowEvent::Event(pattern) && exists|k: int| #[trigger]
        is_event_named(definition.events@, pattern.name, k) && lists_field(
            pattern,
            definition.events@[k],
            name,
            field,
        ))
}

/// Whether the source of a row fits: it is a declared state, whose fields are not listed where it
/// is compound, and whose pattern fits where it is a leaf.
pub open spec fn source_fits(row: Row, states: Seq<Flat>) -> bool {
    match row.source {
        RowSource::Any => true,
        RowSource::State(pattern) => exists|k: int| #[trigger]
            is_state_named(states, pattern.name, k) && if states[k].node.children@.len() > 0 {
                !pattern.explicit_fields
            } else {
                pattern_fits(pattern, states[k].node.variant)
            },
    }
}

/// Whether the event of a row fits: it is a declared event, whose pattern fits.
pub open spec fn event_fits(row: Row, events: Seq<VariantDef>) -> bool {
    match row.event {
        RowEvent::Any => true,
        RowEvent::Event(pattern) => exists|k: int| #[trigger]
            is_event_named(events, pattern.name, k) && pattern_fits(pattern, events[k]),
    }
}

/// Whether a row binds a name in its source or in its event.
pub open spec fn row_binds(row: Row, name: Ident) -> bool {
    source_binds(row, name.name@) || event_binds(row, name.name@)
}

/// Whether no name is bound both in the source and in the event of a row.
pub open spec fn is_unambiguous(row: Row) -> bool {
    forall|name: Seq<char>| !(#[trigger] source_binds(row, name) && event_binds(row, name))
}

/// Whether a target fits the state that it names: a compound state and one without a payload are
/// given no fields; one with a payload is given each of its fields once, from names that the row
/// binds.
pub open spec fn target_fits(row: Row, target: TargetState, node: StateNode) -> bool {
    if node.children@.len() > 0 {
        !target.explicit_fields
    } else if node.variant.fields@.len() == 0 {
        !target.explicit_fields || target.fields@.len() == 0
    } else {
        &&& target.explicit_fields
        &&& forall|i: int, j: int|
            0 <= i < j < target.fields@.len() ==> (#[trigger] target.fields@[i]).name.name@ != (
            #[trigger] target.fields@[j]).name.name@
        &&& forall|i: int|
            0 <= i < target.fields@.len() ==> declares(
                node.variant,
                (#[trigger] target.fields@[i]).name,
            ) && row_binds(row, target.fields@[i].binding)
        &&& target.fields@.len() == node.variant.fields@.len()
    }
}

/// Whether a row fits its definition: its source and its event fit, no name is bound in both, and
/// its target, where it has one, is a declared state that it fits.
pub open spec fn row_fits(row: Row, states: Seq<Flat>, events: Seq<VariantDef>) -> bool {
    &&& source_fits(row, states)
    &&& event_fits(row, events)
    &&& is_unambiguous(row)
    &&& target_of(row) matches Some(target) ==> exists|k: int| #[trigger]
        is_state_named(states, target.name, k) && target_fits(row, target, states[k].node)
}

proof fn lemma_index(n: int, holds: spec_fn(int) -> bool)
    ensures
        match last_index(n, holds) {
            Some(k) => 0 <= k < n && holds(k),
            None => forall|k: int| 0 <= k < n ==> !#[trigger] holds(k),
        },
    decreases n,
{
    if n > 0 {
        lemma_index(n - 1, holds);
    }
}

proof fn lemma_named_state(states: Seq<Flat>, name: Ident)
    requires
        state_names_differ(states),
    ensures
        match last_state(states, states.len() as int, name.name@) {
            Some(k) => is_state_named(states, name, k) && forall|j: int|
                #[trigger] is_state_named(states, name, j) ==> j == k,
            None => forall|j: int| !#[trigger] is_state_named(states, name, j),
        },
{
    let holds = state_named(states, name.name@);
    lemma_index(states.len() as int, holds);
    assert forall|j: int| #[trigger] is_state_named(states, name, j) implies last_state(
        states,
        states.len() as int,
        name.name@,
    ) == Some(j) by {
        lemma_state_at(states, name, j);
    }
    if let Some(k) = last_state(states, states.len() as int, name.name@) {
        assert(holds(k));
    }
}

proof fn lemma_named_event(events: Seq<VariantDef>, name: Ident)
    requires
        event_names_differ(events),
    ensures
        match last_event(events, events.len() as int, name.name@) {
            Some(k) => is_event_named(events, name, k) && forall|j: int|
                #[trigger] is_event_named(events, name, j) ==> j == k,
            None => forall|j: int| !#[trigger] is_event_named(events, name, j),
        },
{
    let holds = event_named(events, name.name@);
    lemma_index(events.len() as int, holds);
    assert forall|j: int| #[trigger] is_event_named(events, name, j) implies last_event(
        events,
        events.len() as int,
        name.name@,
    ) == Some(j) by {
        lemma_event_at(events, name, j);
    }
    if let Some(k) = last_event(events, events.len() as int, name.name@) {
        assert(holds(k));
    }
}

/// The fields that a pattern binds, in order.
spec fn bound_by(pattern: BindingPattern, variant: VariantDef) -> Seq<FieldDef> {
    if pattern.explicit_fields {
        Seq::new(pattern.fields@.len(), |i: int| field_at(pattern, variant, i))
    } else {
        Seq::empty()
    }
}

proof fn lemma_bound_by(pattern: BindingPattern, variant: VariantDef)
    requires
        pattern_fits(pattern, variant),
    ensures
        are_different(bound_by(pattern, variant)),
        forall|name: Ident, field: FieldDef|
            field_names_differ(variant) ==> (#[trigger] stands_for(
                bound_by(pattern, variant),
                name,
                field,
            ) <==> lists_field(pattern, variant, name, field)),
        forall|i: int|
            0 <= i < bound_by(pattern, variant).len() ==> (#[trigger] bound_by(
                pattern,
                variant,
            )[i]).name.name@ == pattern.fields@[i].name@,
{
    let bound = bound_by(pattern, variant);
    assert forall|i: int| 0 <= i < bound.len() implies (#[trigger] bound[i]).name.name@
        == pattern.fields@[i].name@ && (exists|j: int|
        0 <= j < variant.fields@.len() && #[trigger] variant.fields@[j] == bound[i]) by {
        assert(declares(variant, pattern.fields@[i]));
        lemma_last_field(
            variant.fields@,
            variant.fields@.len() as int,
            pattern.fields@[i].name@,
        );
        let k = last_field(
            variant.fields@,
            variant.fields@.len() as int,
            pattern.fields@[i].name@,
        )->0;
        assert(variant.fields@[k] == bound[i]);
    }
    assert forall|i: int, j: int| 0 <= i < j < bound.len() implies (#[trigger] bound[i]).name.name@
        != (#[trigger] bound[j]).name.name@ by {
        assert(pattern.fields@[i].name@ != pattern.fields@[j].name@);
    }
    assert forall|name: Ident, field: FieldDef| field_names_differ(variant) implies (
    #[trigger] stands_for(bound, name, field) <==> lists_field(pattern, variant, name, field)) by {
        if stands_for(bound, name, field) {
            let k = choose|k: int|
                0 <= k < bound.len() && #[trigger] bound[k] == field && field.name.name@
                    == name.name@;
            assert(pattern.fields@[k].name@ == name.name@);
            assert(named(pattern.fields@, pattern.fields@.len() as int, name.name@));
        }
        if lists_field(pattern, variant, name, field) {
            let i = choose|i: int|
                0 <= i < pattern.fields@.len() && (#[trigger] pattern.fields@[i]).name@
                    == name.name@;
            let j = choose|j: int|
                0 <= j < variant.fields@.len() && #[trigger] variant.fields@[j] == field;
            assert(bound[i].name.name@ == name.name@);
            let m = choose|m: int|
                0 <= m < variant.fields@.len() && #[trigger] variant.fields@[m] == bound[i];
            assert(variant.fields@[m].name.name@ == variant.fields@[j].name.name@);
            assert(m == j);
            assert(bound[i] == field);
        }
    }
}

spec fn source_bound(row: Row, states: Seq<Flat>) -> Seq<FieldDef> {
    match row.source {
        RowSource::Any => Seq::empty(),
        RowSource::State(pattern) => match last_state(
            states,
            states.len() as int,
            pattern.name.name@,
        ) {
            Some(k) => if states[k].node.compound() {
                Seq::empty()
            } else {
                bound_by(pattern, states[k].node.variant)
            },
            None => Seq::empty(),
        },
    }
}

spec fn event_bound(row: Row, events: Seq<VariantDef>) -> Seq<FieldDef> {
    match row.event {
        RowEvent::Any => Seq::empty(),
        RowEvent::Event(pattern) => match last_event(
            events,
            events.len() as int,
            pattern.name.name@,
        ) {
            Some(k) => bound_by(pattern, events[k]),
            None => Seq::empty(),
        },
    }
}

proof fn lemma_source(row: Row, states: Seq<Flat>)
    requires
        state_names_differ(states),
    ensures
        source_check(row, states).errors.len() == 0 <==> source_fits(row, states),
        source_fits(row, states) ==> source_check(row, states).bindings == source_bound(
            row,
            states,
        ),
{
    if let RowSource::State(pattern) = row.source {
        lemma_named_state(states, pattern.name);
        if let Some(k) = last_state(states, states.len() as int, pattern.name.name@) {
            let variant = states[k].node.variant;
            lemma_pattern(pattern, variant, "state"@, Seq::empty());
            assert(is_state_named(states, pattern.name, k));
            assert(are_new(pattern.fields@, Seq::<FieldDef>::empty()));
            assert(Seq::<FieldDef>::empty() + bound_by(pattern, variant) =~= bound_by(
                pattern,
                variant,
            ));
        }
    }
}

proof fn lemma_event(row: Row, events: Seq<VariantDef>, bindings: Seq<FieldDef>)
    requires
        event_names_differ(events),
    ensures
        event_check(row, events, bindings).errors.len() == 0 <==> event_fits(row, events) && (
        row.event matches RowEvent::Event(pattern) ==> pattern.explicit_fields ==> are_new(
            pattern.fields@,
            bindings,
        )),
        event_check(row, events, bindings).errors.len() == 0 ==> event_check(
            row,
            events,
            bindings,
        ).bindings == bindings + event_bound(row, events),
{
    if let RowEvent::Event(pattern) = row.event {
        lemma_named_event(events, pattern.name);
        if let Some(k) = last_event(events, events.len() as int, pattern.name.name@) {
            lemma_pattern(pattern, events[k], "event"@, bindings);
            assert(is_event_named(events, pattern.name, k));
        }
    } else {
        assert(bindings + event_bound(row, events) =~= bindings);
    }
}

proof fn lemma_source_names(row: Row, states: Seq<Flat>, name: Seq<char>)
    requires
        state_names_differ(states),
        source_fits(row, states),
    ensures
        source_binds(row, name) <==> has_field(
            source_bound(row, states),
            source_bound(row, states).len() as int,
            name,
        ),
        are_different(source_bound(row, states)),
{
    let bound = source_bound(row, states);
    if let RowSource::State(pattern) = row.source {
        lemma_named_state(states, pattern.name);
        let k = last_state(states, states.len() as int, pattern.name.name@)->0;
        if !states[k].node.compound() {
            lemma_bound_by(pattern, states[k].node.variant);
            if source_binds(row, name) {
                let i = choose|i: int|
                    0 <= i < pattern.fields@.len() && (#[trigger] pattern.fields@[i]).name@ == name;
                assert(bound[i].name.name@ == name);
            }
            if has_field(bound, bound.len() as int, name) {
                let j = choose|j: int|
                    0 <= j < bound.len() && (#[trigger] bound[j]).name.name@ == name;
                assert(pattern.fields@[j].name@ == name);
            }
        }
    }
}

proof fn lemma_event_names(row: Row, events: Seq<VariantDef>, name: Seq<char>)
    requires
        event_names_differ(events),
        event_fits(row, events),
    ensures
        event_binds(row, name) <==> has_field(
            event_bound(row, events),
            event_bound(row, events).len() as int,
            name,
        ),
        are_different(event_bound(row, events)),
{
    let bound = event_bound(row, events);
    if let RowEvent::Event(pattern) = row.event {
        lemma_named_event(events, pattern.name);
        let k = last_event(events, events.len() as int, pattern.name.name@)->0;
        lemma_bound_by(pattern, events[k]);
        if event_binds(row, name) {
            let i = choose|i: int|
                0 <= i < pattern.fields@.len() && (#[trigger] pattern.fields@[i]).name@ == name;
            assert(bound[i].name.name@ == name);
        }
        if has_field(bound, bound.len() as int, name) {
            let j = choose|j: int|
                0 <= j < bound.len() && (#[trigger] bound[j]).name.name@ == name;
            assert(pattern.fields@[j].name@ == name);
        }
    }
}

proof fn lemma_has_either(one: Seq<FieldDef>, other: Seq<FieldDef>, name: Seq<char>)
    ensures
        has_field(one + other, (one + other).len() as int, name) <==> has_field(
            one,
            one.len() as int,
            name,
        ) || has_field(other, other.len() as int, name),
{
    let all = one + other;
    if has_field(all, all.len() as int, name) {
        let j = choose|j: int| 0 <= j < all.len() && (#[trigger] all[j]).name.name@ == name;
        if j < one.len() {
            assert(one[j].name.name@ == name);
        } else {
            assert(other[j - one.len()].name.name@ == name);
        }
    }
    if has_field(one, one.len() as int, name) {
        let j = choose|j: int| 0 <= j < one.len() && (#[trigger] one[j]).name.name@ == name;
        assert(all[j].name.name@ == name);
    }
    if has_field(other, other.len() as int, name) {
        let j = choose|j: int| 0 <= j < other.len() && (#[trigger] other[j]).name.name@ == name;
        assert(all[one.len() + j].name.name@ == name);
    }
}

/// What the source and the event of a row give no message on binds exactly the names that their
/// patterns list.
proof fn lemma_ends(row: Row, states: Seq<Flat>, events: Seq<VariantDef>)
    requires
        state_names_differ(states),
        event_names_differ(events),
    ensures
        ({
            let source = source_check(row, states);
            let event = event_check(row, events, source.bindings);
            &&& source.errors.len() == 0 && event.errors.len() == 0 <==> source_fits(row, states)
                && event_fits(row, events) && is_unambiguous(row)
            &&& source.errors.len() == 0 && event.errors.len() == 0 ==> {
                &&& event.bindings == source_bound(row, states) + event_bound(row, events)
                &&& are_different(event.bindings)
                &&& forall|name: Seq<char>|
                    #[trigger] has_field(event.bindings, event.bindings.len() as int, name)
                        <==> source_binds(row, name) || event_binds(row, name)
            }
        }),
{
    let source = source_check(row, states);
    let event = event_check(row, events, source.bindings);
    let one = source_bound(row, states);
    let other = event_bound(row, events);
    lemma_source(row, states);
    lemma_event(row, events, source.bindings);
    if source_fits(row, states) && event_fits(row, events) {
        assert forall|name: Seq<char>| #[trigger] source_binds(row, name) <==> has_field(
            one,
            one.len() as int,
            name,
        ) by {
            lemma_source_names(row, states, name);
        }
        assert forall|name: Seq<char>| #[trigger] event_binds(row, name) <==> has_field(
            other,
            other.len() as int,
            name,
        ) by {
            lemma_event_names(row, events, name);
        }
        lemma_source_names(row, states, Seq::empty());
        lemma_event_names(row, events, Seq::empty());
        if let RowEvent::Event(pattern) = row.event {
            if pattern.explicit_fields {
                if are_new(pattern.fields@, one) {
                    assert forall|name: Seq<char>| !(#[trigger] source_binds(row, name)
                        && event_binds(row, name)) by {
                        if source_binds(row, name) && event_binds(row, name) {
                            let i = choose|i: int|
                                0 <= i < pattern.fields@.len() && (
                                #[trigger] pattern.fields@[i]).name@ == name;
                            let j = choose|j: int|
                                0 <= j < one.len() && (#[trigger] one[j]).name.name@ == name;
                            assert(pattern.fields@[i].name@ != one[j].name.name@);
                        }
                    }
                }
                if is_unambiguous(row) {
                    assert forall|i: int, j: int|
                        0 <= i < pattern.fields@.len() && 0 <= j < one.len() implies (
                    #[trigger] pattern.fields@[i]).name@ != (#[trigger] one[j]).name.name@ by {
                        let name = one[j].name.name@;
                        if pattern.fields@[i].name@ == name {
                            assert(has_field(one, one.len() as int, name));
                            assert(source_binds(row, name));
                            assert(named(pattern.fields@, pattern.fields@.len() as int, name));
                            assert(event_binds(row, name));
                        }
                    }
                }
            }
        }
        if event.errors.len() == 0 {
            let all = one + other;
            assert(is_unambiguous(row));
            assert forall|name: Seq<char>|
                #[trigger] has_field(all, all.len() as int, name) <==> source_binds(row, name)
                    || event_binds(row, name) by {
                lemma_has_either(one, other, name);
                assert(source_binds(row, name) <==> has_field(one, one.len() as int, name));
                assert(event_binds(row, name) <==> has_field(other, other.len() as int, name));
            }
            assert forall|i: int, j: int| 0 <= i < j < all.len() implies (
            #[trigger] all[i]).name.name@ != (#[trigger] all[j]).name.name@ by {
                if j < one.len() {
                    assert(one[i].name.name@ != one[j].name.name@);
                } else if i >= one.len() {
                    assert(other[i - one.len()].name.name@ != other[j - one.len()].name.name@);
                } else {
                    let name = one[i].name.name@;
                    assert(has_field(one, one.len() as int, name));
                    assert(source_binds(row, name));
                    assert(!event_binds(row, name));
                    assert(!has_field(other, other.len() as int, name));
                    assert(all[j] == other[j - one.len()]);
                }
            }
        }
    }
}

proof fn lemma_target_fields(
    target: TargetState,
    fields: Seq<FieldDef>,
    bindings: Seq<FieldDef>,
    n: int,
)
    requires
        0 <= n <= target.fields@.len(),
    ensures
        target_field_errors(target, fields, bindings, n).len() == 0 <==> (forall|i: int|
            0 <= i < n ==> !has_target_field(
                target.fields@,
                i,
                (#[trigger] target.fields@[i]).name.name@,
            ) && has_field(fields, fields.len() as int, target.fields@[i].name.name@) && has_field(
                bindings,
                bindings.len() as int,
                target.fields@[i].binding.name@,
            )),
        target_field_errors(target, fields, bindings, n).len() == 0 ==> distinct_target_fields(
            target.fields@,
            n,
        ) == n,
    decreases n,
{
    if n > 0 {
        lemma_target_fields(target, fields, bindings, n - 1);
        let field = target.fields@[n - 1];
        let repeated = has_target_field(target.fields@, n - 1, field.name.name@);
        let own = target_field_error(target, field, fields, bindings, repeated);
        let before = target_field_errors(target, fields, bindings, n - 1);
        assert(target_field_errors(target, fields, bindings, n) == before + own);
        assert((before + own).len() == before.len() + own.len());
        assert(own.len() == 0 <==> !repeated && has_field(
            fields,
            fields.len() as int,
            field.name.name@,
        ) && has_field(bindings, bindings.len() as int, field.binding.name@));
    }
}

proof fn lemma_all_distinct(variant: VariantDef, n: int)
    requires
        0 <= n <= variant.fields@.len(),
        field_names_differ(variant),
    ensures
        distinct_fields(variant.fields@, n) == n,
    decreases n,
{
    if n > 0 {
        lemma_all_distinct(variant, n - 1);
    }
}

proof fn lemma_target(
    row: Row,
    target: TargetState,
    states: Seq<Flat>,
    bindings: Seq<FieldDef>,
)
    requires
        state_names_differ(states),
        forall|i: int|
            0 <= i < states.len() ==> field_names_differ((#[trigger] states[i]).node.variant),
        forall|name: Seq<char>|
            #[trigger] has_field(bindings, bindings.len() as int, name) <==> source_binds(row, name)
                || event_binds(row, name),
    ensures
        target_errors(target, states, bindings).len() == 0 <==> exists|k: int| #[trigger]
            is_state_named(states, target.name, k) && target_fits(row, target, states[k].node),
{
    lemma_named_state(states, target.name);
    if let Some(k) = last_state(states, states.len() as int, target.name.name@) {
        let node = states[k].node;
        let fields = node.variant.fields@;
        let n = target.fields@.len() as int;
        assert(is_state_named(states, target.name, k));
        if !node.compound() && fields.len() > 0 && target.explicit_fields {
            lemma_target_fields(target, fields, bindings, n);
            lemma_all_distinct(node.variant, fields.len() as int);
            let each = target_field_errors(target, fields, bindings, n);
            if leaf_target_errors(target, fields, bindings).len() == 0 {
                assert(each.len() == 0);
                assert forall|i: int, j: int| 0 <= i < j < n implies (
                #[trigger] target.fields@[i]).name.name@ != (
                #[trigger] target.fields@[j]).name.name@ by {
                    assert(!has_target_field(target.fields@, j, target.fields@[j].name.name@));
                }
                assert forall|i: int| 0 <= i < n implies declares(
                    node.variant,
                    (#[trigger] target.fields@[i]).name,
                ) && row_binds(row, target.fields@[i].binding) by {
                    assert(has_field(fields, fields.len() as int, target.fields@[i].name.name@));
                    let j = choose|j: int|
                        0 <= j < fields.len() && (#[trigger] fields[j]).name.name@
                            == target.fields@[i].name.name@;
                    assert(node.variant.fields@[j].name.name@ == target.fields@[i].name.name@);
                    assert(has_field(
                        bindings,
                        bindings.len() as int,
                        target.fields@[i].binding.name@,
                    ));
                }
                assert(target_fits(row, target, node));
            }
            if target_fits(row, target, node) {
                assert forall|i: int| 0 <= i < n implies !has_target_field(
                    target.fields@,
                    i,
                    (#[trigger] target.fields@[i]).name.name@,
                ) && has_field(fields, fields.len() as int, target.fields@[i].name.name@)
                    && has_field(
                    bindings,
                    bindings.len() as int,
                    target.fields@[i].binding.name@,
                ) by {
                    assert(declares(node.variant, target.fields@[i].name));
                    assert(row_binds(row, target.fields@[i].binding));
                }
                assert(each.len() == 0);
            }
        }
    }
}

/// A row gives no message of its own exactly where it fits. Then the fields that it binds have
/// different names, and a name stands for a field exactly where the source or the event of the row
/// lists it and declares the field.
pub proof fn rows_must_fit(definition: MachineDef, r: int)
    requires
        state_names_differ(states_of(definition)),
        event_names_differ(definition.events@),
        forall|i: int|
            0 <= i < states_of(definition).len() ==> field_names_differ(
                (#[trigger] states_of(definition)[i]).node.variant,
            ),
        forall|i: int|
            0 <= i < definition.events@.len() ==> field_names_differ(
                #[trigger] definition.events@[i],
            ),
        0 <= r < definition.rows@.len(),
    ensures
        ({
            let row = definition.rows@[r];
            let states = states_of(definition);
            let check = row_check(row, states, definition.events@);
            &&& check.errors.len() == 0 <==> row_fits(row, states, definition.events@)
            &&& row_fits(row, states, definition.events@) ==> {
                &&& are_different(check.bindings)
                &&& forall|name: Ident, field: FieldDef|
                    #[trigger] stands_for(check.bindings, name, field) <==> binds_field(
                        definition,
                        r,
                        name,
                        field,
                    )
                &&& forall|name: Seq<char>|
                    #[trigger] has_field(check.bindings, check.bindings.len() as int, name)
                        <==> source_binds(row, name) || event_binds(row, name)
            }
        }),
{
    let row = definition.rows@[r];
    let states = states_of(definition);
    let events = definition.events@;
    let source = source_check(row, states);
    let event = event_check(row, events, source.bindings);
    let check = row_check(row, states, events);
    lemma_ends(row, states, events);
    let target = match row.outcome {
        RowOutcome::Transition { target: Some(target), .. } => target_errors(
            target,
            states,
            event.bindings,
        ),
        _ => Seq::empty(),
    };
    assert(check.errors == source.errors + event.errors + target);
    assert(check.errors.len() == source.errors.len() + event.errors.len() + target.len());
    if source.errors.len() == 0 && event.errors.len() == 0 {
        if let Some(own) = target_of(row) {
            lemma_target(row, own, states, event.bindings);
        }
        assert forall|name: Ident, field: FieldDef|
            #[trigger] stands_for(check.bindings, name, field) <==> binds_field(
                definition,
                r,
                name,
                field,
            ) by {
            lemma_stands(definition, r, name, field);
        }
    }
}

proof fn lemma_stands(definition: MachineDef, r: int, name: Ident, field: FieldDef)
    requires
        state_names_differ(states_of(definition)),
        event_names_differ(definition.events@),
        forall|i: int|
            0 <= i < states_of(definition).len() ==> field_names_differ(
                (#[trigger] states_of(definition)[i]).node.variant,
            ),
        forall|i: int|
            0 <= i < definition.events@.len() ==> field_names_differ(
                #[trigger] definition.events@[i],
            ),
        source_fits(definition.rows@[r], states_of(definition)),
        event_fits(definition.rows@[r], definition.events@),
    ensures
        stands_for(
            source_bound(definition.rows@[r], states_of(definition))
                + event_bound(definition.rows@[r], definition.events@),
            name,
            field,
        ) <==> binds_field(definition, r, name, field),
{
    let row = definition.rows@[r];
    let states = states_of(definition);
    let events = definition.events@;
    let one = source_bound(row, states);
    let other = event_bound(row, events);
    let all = one + other;
    let mut in_source = false;
    let mut in_event = false;
    if let RowSource::State(pattern) = row.source {
        lemma_named_state(states, pattern.name);
        let k = last_state(states, states.len() as int, pattern.name.name@)->0;
        if !states[k].node.compound() {
            lemma_bound_by(pattern, states[k].node.variant);
            in_source = lists_field(pattern, states[k].node.variant, name, field);
            assert(stands_for(one, name, field) <==> in_source);
            assert(is_state_named(states, pattern.name, k));
        }
    }
    if let RowEvent::Event(pattern) = row.event {
        lemma_named_event(events, pattern.name);
        let k = last_event(events, events.len() as int, pattern.name.name@)->0;
        lemma_bound_by(pattern, events[k]);
        in_event = lists_field(pattern, events[k], name, field);
        assert(stands_for(other, name, field) <==> in_event);
        assert(is_event_named(events, pattern.name, k));
    }
    if stands_for(all, name, field) {
        let j = choose|j: int|
            0 <= j < all.len() && #[trigger] all[j] == field && field.name.name@ == name.name@;
        if j < one.len() {
            assert(one[j] == field);
            assert(stands_for(one, name, field));
        } else {
            assert(other[j - one.len()] == field);
            assert(stands_for(other, name, field));
        }
    }
    if stands_for(one, name, field) {
        let j = choose|j: int|
            0 <= j < one.len() && #[trigger] one[j] == field && field.name.name@ == name.name@;
        assert(all[j] == field);
    }
    if stands_for(other, name, field) {
        let j = choose|j: int|
            0 <= j < other.len() && #[trigger] other[j] == field && field.name.name@ == name.name@;
        assert(all[one.len() + j] == field);
    }
}

} // verus!
