//! Checks on the rows of the transition table.
use crate::error::{messages_view, report, Message, MessageView};
use crate::model::{
    flats, BindingPattern, FieldDef, Flat, FlatState, Row, RowEvent, RowOutcome, RowSource,
    TargetField, TargetState, VariantDef,
};
use crate::text::{join3, join5};
use crate::validate::lookup::{
    find_event, find_field, find_state, has_field, is_named, last_event, last_field, last_state,
    named,
};
use vstd::prelude::*;

verus! {

/// What checking a part of a row gives: the payload fields that the row binds, a later one of
/// a name in place of an earlier one, and the messages.
pub struct Checked {
    pub bindings: Seq<FieldDef>,
    pub errors: Seq<MessageView>,
}

/// What the first `n` fields of a pattern bind.
pub open spec fn pattern_fields(
    pattern: BindingPattern,
    variant: VariantDef,
    kind: Seq<char>,
    bindings: Seq<FieldDef>,
    n: int,
) -> Checked
    decreases n,
{
    if n <= 0 {
        Checked { bindings, errors: Seq::empty() }
    } else {
        let before = pattern_fields(pattern, variant, kind, bindings, n - 1);
        let binding = pattern.fields@[n - 1];
        let name = binding.name@;
        if named(pattern.fields@, n - 1, name) {
            Checked {
                errors: before.errors.push(
                    MessageView {
                        span: binding.span,
                        text: "duplicate pattern field `"@ + binding.spelled() + "`"@,
                        failed: None,
                    },
                ),
                ..before
            }
        } else {
            match last_field(variant.fields@, variant.fields@.len() as int, name) {
                None => Checked {
                    errors: before.errors.push(
                        MessageView {
                            span: binding.span,
                            text: "unknown field `"@ + binding.spelled() + ("` on "@ + kind + " `"@)
                                + variant.name.spelled() + "`"@,
                            failed: None,
                        },
                    ),
                    ..before
                },
                Some(k) => {
                    let field = variant.fields@[k];
                    let bound = before.bindings.push(field);
                    match last_field(before.bindings, before.bindings.len() as int, name) {
                        None => Checked { bindings: bound, errors: before.errors },
                        Some(p) => Checked {
                            bindings: bound,
                            errors: before.errors.push(
                                MessageView {
                                    span: binding.span,
                                    text: "binding `"@ + binding.spelled() + (
                                    "` is ambiguous between `"@
                                        + before.bindings[p].name.spelled() + "` and `"@)
                                        + field.name.spelled() + "`"@,
                                    failed: None,
                                },
                            ),
                        },
                    }
                },
            }
        }
    }
}

/// What a pattern binds.
pub open spec fn pattern_check(
    pattern: BindingPattern,
    variant: VariantDef,
    kind: Seq<char>,
    bindings: Seq<FieldDef>,
) -> Checked {
    if !pattern.explicit_fields {
        Checked { bindings, errors: Seq::empty() }
    } else {
        let fields = pattern_fields(
            pattern,
            variant,
            kind,
            bindings,
            pattern.fields@.len() as int,
        );
        if !pattern.rest && pattern.fields@.len() != variant.fields@.len() {
            Checked {
                errors: fields.errors.push(
                    MessageView {
                        span: pattern.name.span,
                        text: "pattern for "@ + kind + " `"@ + variant.name.spelled()
                            + "` must bind every field or end with `..`"@,
                        failed: None,
                    },
                ),
                ..fields
            }
        } else {
            fields
        }
    }
}

/// How many different names the first `n` fields have.
pub open spec fn distinct_fields(fields: Seq<FieldDef>, n: int) -> nat
    decreases n,
{
    if n <= 0 {
        0
    } else if has_field(fields, n - 1, fields[n - 1].name.name@) {
        distinct_fields(fields, n - 1)
    } else {
        distinct_fields(fields, n - 1) + 1
    }
}

/// Whether one of the first `n` fields of a target has the name.
pub open spec fn has_target_field(fields: Seq<TargetField>, n: int, name: Seq<char>) -> bool {
    exists|j: int| 0 <= j < n && (#[trigger] fields[j]).name.name@ == name
}

/// How many different names the first `n` fields of a target have.
pub open spec fn distinct_target_fields(fields: Seq<TargetField>, n: int) -> nat
    decreases n,
{
    if n <= 0 {
        0
    } else if has_target_field(fields, n - 1, fields[n - 1].name.name@) {
        distinct_target_fields(fields, n - 1)
    } else {
        distinct_target_fields(fields, n - 1) + 1
    }
}

/// The messages on one field of a target, where `repeated` says that an earlier one has its name.
pub open spec fn target_field_error(
    target: TargetState,
    field: TargetField,
    fields: Seq<FieldDef>,
    bindings: Seq<FieldDef>,
    repeated: bool,
) -> Seq<MessageView> {
    let duplicate = if repeated {
        seq![
            MessageView {
                span: field.name.span,
                text: "duplicate target field `"@ + field.name.spelled() + "`"@,
                failed: None,
            },
        ]
    } else {
        Seq::empty()
    };
    let unknown = if !has_field(fields, fields.len() as int, field.name.name@) {
        duplicate.push(
            MessageView {
                span: field.name.span,
                text: "unknown field `"@ + field.name.spelled() + "` on target state `"@
                    + target.name.spelled() + "`"@,
                failed: None,
            },
        )
    } else {
        duplicate
    };
    if !has_field(bindings, bindings.len() as int, field.binding.name@) {
        unknown.push(
            MessageView {
                span: field.binding.span,
                text: "target field `"@ + field.name.spelled() + "` references unknown binding `"@
                    + field.binding.spelled() + "`"@,
                failed: None,
            },
        )
    } else {
        unknown
    }
}

/// The messages on the first `n` fields of a target.
pub open spec fn target_field_errors(
    target: TargetState,
    fields: Seq<FieldDef>,
    bindings: Seq<FieldDef>,
    n: int,
) -> Seq<MessageView>
    decreases n,
{
    if n <= 0 {
        Seq::empty()
    } else {
        let field = target.fields@[n - 1];
        target_field_errors(target, fields, bindings, n - 1) + target_field_error(
            target,
            field,
            fields,
            bindings,
            has_target_field(target.fields@, n - 1, field.name.name@),
        )
    }
}

/// The messages on a target that is a leaf with the given payload fields.
pub open spec fn leaf_target_errors(
    target: TargetState,
    fields: Seq<FieldDef>,
    bindings: Seq<FieldDef>,
) -> Seq<MessageView> {
    if fields.len() == 0 {
        if target.explicit_fields && target.fields@.len() > 0 {
            seq![
                MessageView {
                    span: target.name.span,
                    text: "target state `"@ + target.name.spelled() + "` has no payload fields"@,
                    failed: None,
                },
            ]
        } else {
            Seq::empty()
        }
    } else if !target.explicit_fields {
        seq![
            MessageView {
                span: target.name.span,
                text: "target state `"@ + target.name.spelled() + "` requires payload fields"@,
                failed: None,
            },
        ]
    } else {
        let each = target_field_errors(target, fields, bindings, target.fields@.len() as int);
        if distinct_target_fields(target.fields@, target.fields@.len() as int) != distinct_fields(
            fields,
            fields.len() as int,
        ) {
            each.push(
                MessageView {
                    span: target.name.span,
                    text: "target state `"@ + target.name.spelled()
                        + "` requires every payload field"@,
                    failed: None,
                },
            )
        } else {
            each
        }
    }
}

/// The messages on the target of a row.
pub open spec fn target_errors(
    target: TargetState,
    states: Seq<Flat>,
    bindings: Seq<FieldDef>,
) -> Seq<MessageView> {
    match last_state(states, states.len() as int, target.name.name@) {
        None => seq![
            MessageView {
                span: target.name.span,
                text: "unknown target state `"@ + target.name.spelled() + "`"@,
                failed: None,
            },
        ],
        Some(k) => if states[k].node.compound() {
            if target.explicit_fields {
                seq![
                    MessageView {
                        span: target.name.span,
                        text: "compound target states cannot carry payload fields"@,
                        failed: None,
                    },
                ]
            } else {
                Seq::empty()
            }
        } else {
            leaf_target_errors(target, states[k].node.variant.fields@, bindings)
        },
    }
}

/// What the source of a row binds.
pub open spec fn source_check(row: Row, states: Seq<Flat>) -> Checked {
    match row.source {
        RowSource::Any => Checked { bindings: Seq::empty(), errors: Seq::empty() },
        RowSource::State(pattern) => match last_state(
            states,
            states.len() as int,
            pattern.name.name@,
        ) {
            Some(k) => if states[k].node.compound() {
                Checked {
                    bindings: Seq::empty(),
                    errors: if pattern.explicit_fields {
                        seq![
                            MessageView {
                                span: pattern.name.span,
                                text: "compound source states cannot bind payload fields"@,
                                failed: None,
                            },
                        ]
                    } else {
                        Seq::empty()
                    },
                }
            } else {
                pattern_check(pattern, states[k].node.variant, "state"@, Seq::empty())
            },
            None => Checked {
                bindings: Seq::empty(),
                errors: seq![
                    MessageView {
                        span: pattern.name.span,
                        text: "unknown source state `"@ + pattern.name.spelled() + "`"@,
                        failed: None,
                    },
                ],
            },
        },
    }
}

/// What the event of a row binds, on top of what its source binds.
pub open spec fn event_check(row: Row, events: Seq<VariantDef>, bindings: Seq<FieldDef>) -> Checked {
    match row.event {
        RowEvent::Any => Checked { bindings, errors: Seq::empty() },
        RowEvent::Event(pattern) => match last_event(
            events,
            events.len() as int,
            pattern.name.name@,
        ) {
            Some(k) => pattern_check(pattern, events[k], "event"@, bindings),
            None => Checked {
                bindings,
                errors: seq![
                    MessageView {
                        span: pattern.name.span,
                        text: "unknown event `"@ + pattern.name.spelled() + "`"@,
                        failed: None,
                    },
                ],
            },
        },
    }
}

/// What checking a row gives.
pub open spec fn row_check(row: Row, states: Seq<Flat>, events: Seq<VariantDef>) -> Checked {
    let source = source_check(row, states);
    let event = event_check(row, events, source.bindings);
    let target = match row.outcome {
        RowOutcome::Transition { target: Some(target), .. } => target_errors(
            target,
            states,
            event.bindings,
        ),
        _ => Seq::empty(),
    };
    Checked { bindings: event.bindings, errors: source.errors + event.errors + target }
}

/// Binds the payload fields that a pattern names, and reports what is wrong with it.
fn validate_pattern(
    pattern: &BindingPattern,
    variant: &VariantDef,
    kind: &str,
    bindings: &mut Vec<FieldDef>,
    errors: &mut Vec<Message>,
)
    ensures
        final(bindings)@ == pattern_check(*pattern, *variant, kind@, old(bindings)@).bindings,
        messages_view(final(errors)@) == messages_view(old(errors)@) + pattern_check(
            *pattern,
            *variant,
            kind@,
            old(bindings)@,
        ).errors,
{
    let ghost before = messages_view(errors@);
    let ghost first = bindings@;
    if !pattern.explicit_fields {
        assert(before =~= before + Seq::<MessageView>::empty());
        return ;
    }
    let mut i: usize = 0;
    assert(before =~= before + pattern_fields(*pattern, *variant, kind@, first, 0).errors);
    while i < pattern.fields.len()
        invariant
            i <= pattern.fields@.len(),
            bindings@ == pattern_fields(*pattern, *variant, kind@, first, i as int).bindings,
            messages_view(errors@) == before + pattern_fields(
                *pattern,
                *variant,
                kind@,
                first,
                i as int,
            ).errors,
        decreases pattern.fields@.len() - i,
    {
        let binding = &pattern.fields[i];
        let ghost so_far = messages_view(errors@);
        if is_named(&pattern.fields, i, &binding.name) {
            let name = binding.spelling();
            report(errors, binding.span, join3("duplicate pattern field `", name.as_str(), "`"));
        } else {
            match find_field(&variant.fields, variant.fields.len(), &binding.name) {
                None => {
                    let name = binding.spelling();
                    let variant_name = variant.name.spelling();
                    let place = join3("` on ", kind, " `");
                    report(
                        errors,
                        binding.span,
                        join5(
                            "unknown field `",
                            name.as_str(),
                            place.as_str(),
                            variant_name.as_str(),
                            "`",
                        ),
                    );
                },
                Some(k) => {
                    let field = &variant.fields[k];
                    if let Some(p) = find_field(bindings, bindings.len(), &binding.name) {
                        let name = binding.spelling();
                        let previous = bindings[p].name.spelling();
                        let field_name = field.name.spelling();
                        let place = join3(
                            "` is ambiguous between `",
                            previous.as_str(),
                            "` and `",
                        );
                        report(
                            errors,
                            binding.span,
                            join5(
                                "binding `",
                                name.as_str(),
                                place.as_str(),
                                field_name.as_str(),
                                "`",
                            ),
                        );
                    }
                    bindings.push(field.clone());
                },
            }
        }
        assert(messages_view(errors@) =~= before + pattern_fields(
            *pattern,
            *variant,
            kind@,
            first,
            i + 1,
        ).errors);
        i = i + 1;
    }
    if !pattern.rest && pattern.fields.len() != variant.fields.len() {
        let variant_name = variant.name.spelling();
        report(
            errors,
            pattern.name.span,
            join5(
                "pattern for ",
                kind,
                " `",
                variant_name.as_str(),
                "` must bind every field or end with `..`",
            ),
        );
    }
    assert(messages_view(errors@) =~= before + pattern_check(
        *pattern,
        *variant,
        kind@,
        first,
    ).errors);
}

/// Whether one of the first `n` fields of a target has the name.
fn names_target_field(fields: &Vec<TargetField>, n: usize, name: &String) -> (found: bool)
    requires
        n <= fields@.len(),
    ensures
        found == has_target_field(fields@, n as int, name@),
{
    let mut i: usize = 0;
    while i < n
        invariant
            i <= n <= fields@.len(),
            !has_target_field(fields@, i as int, name@),
        decreases n - i,
    {
        if fields[i].name.name == *name {
            assert(fields@[i as int].name.name@ == name@);
            return true;
        }
        i = i + 1;
    }
    false
}

fn count_fields(fields: &Vec<FieldDef>) -> (count: usize)
    ensures
        count == distinct_fields(fields@, fields@.len() as int),
{
    let mut count: usize = 0;
    let mut i: usize = 0;
    while i < fields.len()
        invariant
            count <= i <= fields@.len(),
            count == distinct_fields(fields@, i as int),
        decreases fields@.len() - i,
    {
        if find_field(fields, i, &fields[i].name.name).is_none() {
            count = count + 1;
        }
        i = i + 1;
    }
    count
}

/// Reports what is wrong with the target of a row.
fn validate_target(
    target: &TargetState,
    states: &Vec<FlatState<'_>>,
    bindings: &Vec<FieldDef>,
    errors: &mut Vec<Message>,
)
    ensures
        messages_view(final(errors)@) == messages_view(old(errors)@) + target_errors(
            *target,
            flats(states@),
            bindings@,
        ),
{
    let ghost before = messages_view(errors@);
    let ghost all = flats(states@);
    let target_name = target.name.spelling();
    let found = find_state(states, states.len(), &target.name.name);
    if found.is_none() {
        report(
            errors,
            target.name.span,
            join3("unknown target state `", target_name.as_str(), "`"),
        );
        assert(messages_view(errors@) =~= before + target_errors(*target, all, bindings@));
        return ;
    }
    let k: usize = found.unwrap();
    let node = states[k].node;
    assert(all[k as int].node == *node);
    if node.is_compound() {
        if target.explicit_fields {
            report(
                errors,
                target.name.span,
                "compound target states cannot carry payload fields".to_owned(),
            );
        }
        assert(messages_view(errors@) =~= before + target_errors(*target, all, bindings@));
        return ;
    }
    let fields = &node.variant.fields;
    if fields.len() == 0 {
        if target.explicit_fields && target.fields.len() > 0 {
            report(
                errors,
                target.name.span,
                join3("target state `", target_name.as_str(), "` has no payload fields"),
            );
        }
        assert(messages_view(errors@) =~= before + target_errors(*target, all, bindings@));
        return ;
    }
    if !target.explicit_fields {
        report(
            errors,
            target.name.span,
            join3("target state `", target_name.as_str(), "` requires payload fields"),
        );
        assert(messages_view(errors@) =~= before + target_errors(*target, all, bindings@));
        return ;
    }
    let mut seen: usize = 0;
    let mut i: usize = 0;
    assert(before =~= before + target_field_errors(*target, fields@, bindings@, 0));
    while i < target.fields.len()
        invariant
            seen <= i <= target.fields@.len(),
            seen == distinct_target_fields(target.fields@, i as int),
            target_name@ == target.name.spelled(),
            messages_view(errors@) == before + target_field_errors(
                *target,
                fields@,
                bindings@,
                i as int,
            ),
        decreases target.fields@.len() - i,
    {
        let field = &target.fields[i];
        let field_name = field.name.spelling();
        if names_target_field(&target.fields, i, &field.name.name) {
            report(
                errors,
                field.name.span,
                join3("duplicate target field `", field_name.as_str(), "`"),
            );
        } else {
            seen = seen + 1;
        }
        if find_field(fields, fields.len(), &field.name.name).is_none() {
            report(
                errors,
                field.name.span,
                join5(
                    "unknown field `",
                    field_name.as_str(),
                    "` on target state `",
                    target_name.as_str(),
                    "`",
                ),
            );
        }
        if find_field(bindings, bindings.len(), &field.binding.name).is_none() {
            let binding_name = field.binding.spelling();
            report(
                errors,
                field.binding.span,
                join5(
                    "target field `",
                    field_name.as_str(),
                    "` references unknown binding `",
                    binding_name.as_str(),
                    "`",
                ),
            );
        }
        assert(messages_view(errors@) =~= before + target_field_errors(
            *target,
            fields@,
            bindings@,
            i + 1,
        ));
        i = i + 1;
    }
    if seen != count_fields(fields) {
        report(
            errors,
            target.name.span,
            join3("target state `", target_name.as_str(), "` requires every payload field"),
        );
    }
    assert(messages_view(errors@) =~= before + target_errors(*target, all, bindings@));
}

/// Reports what is wrong with a row, and gives the payload fields that it binds.
pub(crate) fn validate_row(
    row: &Row,
    states: &Vec<FlatState<'_>>,
    events: &Vec<VariantDef>,
    errors: &mut Vec<Message>,
) -> (bindings: Vec<FieldDef>)
    ensures
        bindings@ == row_check(*row, flats(states@), events@).bindings,
        messages_view(final(errors)@) == messages_view(old(errors)@) + row_check(
            *row,
            flats(states@),
            events@,
        ).errors,
{
    let ghost before = messages_view(errors@);
    let ghost all = flats(states@);
    let mut bindings: Vec<FieldDef> = Vec::new();
    match &row.source {
        RowSource::Any => {},
        RowSource::State(pattern) => match find_state(states, states.len(), &pattern.name.name) {
            Some(k) => {
                let node = states[k].node;
                assert(all[k as int].node == *node);
                if node.is_compound() {
                    if pattern.explicit_fields {
                        report(
                            errors,
                            pattern.name.span,
                            "compound source states cannot bind payload fields".to_owned(),
                        );
                    }
                } else {
                    validate_pattern(pattern, &node.variant, "state", &mut bindings, errors);
                }
            },
            None => {
                let name = pattern.name.spelling();
                report(
                    errors,
                    pattern.name.span,
                    join3("unknown source state `", name.as_str(), "`"),
                );
            },
        },
    }
    let ghost source = source_check(*row, all);
    assert(bindings@ =~= source.bindings);
    assert(messages_view(errors@) =~= before + source.errors);
    match &row.event {
        RowEvent::Any => {},
        RowEvent::Event(pattern) => match find_event(events, events.len(), &pattern.name.name) {
            Some(k) => validate_pattern(pattern, &events[k], "event", &mut bindings, errors),
            None => {
                let name = pattern.name.spelling();
                report(errors, pattern.name.span, join3("unknown event `", name.as_str(), "`"));
            },
        },
    }
    let ghost event = event_check(*row, events@, source.bindings);
    assert(bindings@ =~= event.bindings);
    assert(messages_view(errors@) =~= before + source.errors + event.errors);
    match &row.outcome {
        RowOutcome::Transition { target, .. } => {
            if let Some(target) = target {
                validate_target(target, states, &bindings, errors);
            }
        },
        RowOutcome::Reject(_) => {},
    }
    assert(messages_view(errors@) =~= before + row_check(*row, all, events@).errors);
    bindings
}

} // verus!
