//! The code of the rows of the table.
use crate::code::{
    braced, code_made, codes, joined, name_of, parenthesized, put_all, put_braces, put_item,
    put_name, put_parens, put_text, put_text_if, put_type, start, text_if, text_of, type_of, Code,
    CodeView,
};
use crate::error::{Message, MessageView};
use crate::model::{
    flats, BindingPattern, Callable, Flat, FlatState, MachineDef, Row, RowEvent, RowOutcome,
    RowSource, StateNode, TargetField, TargetState, Type, VariantDef,
};
use crate::token::Ident;
use crate::validate::declarations::{find_initial, first_initial, lemma_first_initial};
use crate::validate::lookup::{
    find_event, find_field, find_state, last_event, last_field, last_state,
};
use vstd::prelude::*;

verus! {

/// The context type in code; the unit type where the definition has none.
pub open spec fn context_code(definition: MachineDef) -> Seq<CodeView> {
    match definition.context {
        Some(ty) => type_of(ty),
        None => text_of("()"),
    }
}

/// The effect type in code; a type without values where the definition has none.
pub open spec fn effect_code(definition: MachineDef) -> Seq<CodeView> {
    match definition.effect {
        Some(ty) => type_of(ty),
        None => text_of("::core::convert::Infallible"),
    }
}

/// The first `n` names, with commas in between.
pub open spec fn names_code(names: Seq<Ident>, n: int) -> Seq<CodeView>
    decreases n,
{
    if n <= 0 {
        Seq::empty()
    } else {
        joined(names_code(names, n - 1), name_of(names[n - 1]))
    }
}

/// The call of a callback.
pub open spec fn callback_call_code(
    callable: Callable,
    definition: MachineDef,
    context_trait: Ident,
) -> Seq<CodeView> {
    text_of("<") + context_code(definition) + text_of("as") + name_of(context_trait) + text_of(
        ">::",
    ) + name_of(callable.name) + parenthesized(
        text_of("context,") + names_code(callable.arguments@, callable.arguments@.len() as int),
    ) + text_if(callable.is_async, ".await")
}

/// The pattern that a state or an event of a row is matched with.
pub open spec fn binding_pattern_code(
    prefix: &str,
    pattern: BindingPattern,
    variant: VariantDef,
) -> Seq<CodeView> {
    let path = text_of(prefix) + name_of(pattern.name);
    let names = names_code(pattern.fields@, pattern.fields@.len() as int);
    if variant.fields@.len() == 0 {
        path
    } else if !pattern.explicit_fields || pattern.rest && pattern.fields@.len() == 0 {
        path + braced(text_of(".."))
    } else if pattern.rest {
        path + braced(names + text_of(", .."))
    } else {
        path + braced(names)
    }
}

/// The pattern that matches a state or an event whatever its payload.
pub open spec fn ignored_variant_code(prefix: &str, variant: VariantDef) -> Seq<CodeView> {
    let path = text_of(prefix) + name_of(variant.name);
    if variant.fields@.len() == 0 {
        path
    } else {
        path + braced(text_of(".."))
    }
}

/// The leaf that entering a state ends in, as an expression.
pub open spec fn initial_code(node: StateNode) -> Result<Seq<CodeView>, MessageView>
    decreases node,
{
    if !node.compound() {
        Ok(text_of("State::") + name_of(node.variant.name))
    } else {
        proof {
            lemma_first_initial(node.children@, 0);
        }
        match first_initial(node.children@, 0) {
            Some(i) => initial_code(node.children@[i]),
            None => Err(
                MessageView {
                    span: node.variant.name.span,
                    text: "validated compound initial state disappeared"@,
                    failed: None,
                },
            ),
        }
    }
}

/// The first `n` payload fields of a target, as they stand in a struct expression.
pub open spec fn target_fields_code(target: TargetState, variant: VariantDef, n: int) -> Result<
    Seq<CodeView>,
    MessageView,
>
    decreases n,
{
    if n <= 0 {
        Ok(Seq::empty())
    } else {
        match target_fields_code(target, variant, n - 1) {
            Err(message) => Err(message),
            Ok(before) => {
                let field = target.fields@[n - 1];
                match last_field(
                    variant.fields@,
                    variant.fields@.len() as int,
                    field.name.name@,
                ) {
                    None => Err(
                        MessageView {
                            span: field.name.span,
                            text: "validated target field disappeared"@,
                            failed: None,
                        },
                    ),
                    Some(k) => Ok(joined(before, target_field_code(field, variant.fields@[k].ty))),
                }
            },
        }
    }
}

/// A payload field of a target, filled with a clone of a binding.
pub open spec fn target_field_code(field: TargetField, ty: Type) -> Seq<CodeView> {
    name_of(field.name) + text_of(": <") + type_of(ty) + text_of("as ::core::clone::Clone>::clone")
        + parenthesized(name_of(field.binding))
}

/// The target of a row, as an expression.
pub open spec fn target_code(target: TargetState, states: Seq<Flat>) -> Result<
    Seq<CodeView>,
    MessageView,
> {
    match last_state(states, states.len() as int, target.name.name@) {
        None => Err(
            MessageView { span: target.name.span, text: "validated target state disappeared"@, failed: None },
        ),
        Some(k) => {
            let node = states[k].node;
            if node.compound() {
                initial_code(node)
            } else if node.variant.fields@.len() == 0 {
                Ok(text_of("State::") + name_of(target.name))
            } else {
                match target_fields_code(target, node.variant, target.fields@.len() as int) {
                    Err(message) => Err(message),
                    Ok(fields) => Ok(
                        text_of("State::") + name_of(target.name) + braced(fields),
                    ),
                }
            }
        },
    }
}

/// A rejection that is returned.
pub open spec fn rejection_code(reason: Ident) -> Seq<CodeView> {
    text_of("return ::core::result::Result::Err") + parenthesized(
        text_of("::rfsm::ProcessError::Rejected") + parenthesized(
            text_of("Rejection::") + name_of(reason),
        ),
    ) + text_of(";")
}

/// The effect of a row, as an expression.
pub open spec fn effect_value_code(
    effect: Option<Callable>,
    definition: MachineDef,
    context_trait: Ident,
) -> Seq<CodeView> {
    match effect {
        Some(callable) => text_of("::core::option::Option::Some") + parenthesized(
            callback_call_code(callable, definition, context_trait),
        ),
        None => text_of("::core::option::Option::None"),
    }
}

/// A plan that is returned.
pub open spec fn plan_code(
    transition: Ident,
    target: Seq<CodeView>,
    effect_type: Seq<CodeView>,
    effect: Seq<CodeView>,
) -> Seq<CodeView> {
    text_of("let to =") + target + text_of("; let effect: ::core::option::Option<") + effect_type
        + text_of("> =") + effect + text_of("; return ::core::result::Result::Ok") + parenthesized(
        text_of("::rfsm::Plan") + braced(
            text_of("transition: Transition::") + name_of(transition) + text_of(
                ", from: state.clone(), to, effect,",
            ),
        ),
    ) + text_of(";")
}

/// What a selected row does.
pub open spec fn selected_row_code(
    row: Row,
    definition: MachineDef,
    context_trait: Ident,
    states: Seq<Flat>,
) -> Result<Seq<CodeView>, MessageView> {
    match row.outcome {
        RowOutcome::Reject(reason) => Ok(rejection_code(reason)),
        RowOutcome::Transition { transition, target } => {
            let to = match target {
                Some(target) => target_code(target, states),
                None => Ok(text_of("state.clone()")),
            };
            match to {
                Err(message) => Err(message),
                Ok(to) => Ok(
                    plan_code(
                        transition,
                        to,
                        effect_code(definition),
                        effect_value_code(row.effect, definition, context_trait),
                    ),
                ),
            }
        },
    }
}

/// The pattern of the source of a row; none where the row is for any source or a compound state.
pub open spec fn source_code(row: Row, states: Seq<Flat>) -> Result<
    Option<Seq<CodeView>>,
    MessageView,
> {
    match row.source {
        RowSource::Any => Ok(None),
        RowSource::State(pattern) => match last_state(
            states,
            states.len() as int,
            pattern.name.name@,
        ) {
            None => Err(
                MessageView {
                    span: pattern.name.span,
                    text: "validated source state disappeared"@,
                    failed: None,
                },
            ),
            Some(k) => if states[k].node.compound() {
                Ok(None)
            } else {
                Ok(Some(binding_pattern_code("State::", pattern, states[k].node.variant)))
            },
        },
    }
}

/// The pattern of the event of a row; none where the row is for any event.
pub open spec fn event_code(row: Row, events: Seq<VariantDef>) -> Result<
    Option<Seq<CodeView>>,
    MessageView,
> {
    match row.event {
        RowEvent::Any => Ok(None),
        RowEvent::Event(pattern) => match last_event(
            events,
            events.len() as int,
            pattern.name.name@,
        ) {
            None => Err(
                MessageView { span: pattern.name.span, text: "validated event disappeared"@, failed: None },
            ),
            Some(k) => Ok(Some(binding_pattern_code("Event::", pattern, events[k]))),
        },
    }
}

/// Code behind the guard of its row.
pub open spec fn guarded_code(
    guard: Option<Callable>,
    definition: MachineDef,
    context_trait: Ident,
    body: Seq<CodeView>,
) -> Seq<CodeView> {
    match guard {
        Some(callable) => text_of("if") + callback_call_code(callable, definition, context_trait)
            + braced(body),
        None => body,
    }
}

/// Code behind the patterns of its row.
pub open spec fn matched_code(
    source: Option<Seq<CodeView>>,
    event: Option<Seq<CodeView>>,
    guarded: Seq<CodeView>,
) -> Seq<CodeView> {
    match (source, event) {
        (Some(source), Some(event)) => text_of("if let") + parenthesized(
            source + text_of(",") + event,
        ) + text_of("= (state, event)") + braced(guarded),
        (Some(source), None) => text_of("if let") + source + text_of("= state") + braced(guarded),
        (None, Some(event)) => text_of("if let") + event + text_of("= event") + braced(guarded),
        (None, None) => guarded,
    }
}

/// The block of a row.
pub open spec fn row_code(
    row: Row,
    definition: MachineDef,
    context_trait: Ident,
    states: Seq<Flat>,
) -> Result<Seq<CodeView>, MessageView> {
    match source_code(row, states) {
        Err(message) => Err(message),
        Ok(source) => match event_code(row, definition.events@) {
            Err(message) => Err(message),
            Ok(event) => match selected_row_code(row, definition, context_trait, states) {
                Err(message) => Err(message),
                Ok(body) => Ok(
                    matched_code(
                        source,
                        event,
                        guarded_code(row.guard, definition, context_trait, body),
                    ),
                ),
            },
        },
    }
}

pub(crate) fn put_context(out: &mut Vec<Code>, definition: &MachineDef)
    ensures
        codes(final(out)@) == codes(old(out)@) + context_code(*definition),
{
    match &definition.context {
        Some(ty) => put_type(out, ty),
        None => put_text(out, "()"),
    }
}

pub(crate) fn put_effect(out: &mut Vec<Code>, definition: &MachineDef)
    ensures
        codes(final(out)@) == codes(old(out)@) + effect_code(*definition),
{
    match &definition.effect {
        Some(ty) => put_type(out, ty),
        None => put_text(out, "::core::convert::Infallible"),
    }
}

/// Code of one name.
pub(crate) fn single_name(ident: &Ident) -> (out: Vec<Code>)
    ensures
        codes(out@) == name_of(*ident),
{
    let mut out: Vec<Code> = Vec::new();
    put_name(&mut out, ident);
    assert(codes(out@) =~= name_of(*ident));
    out
}

pub(crate) fn list_names(names: &Vec<Ident>) -> (out: Vec<Code>)
    ensures
        codes(out@) == names_code(names@, names@.len() as int),
{
    let mut out: Vec<Code> = Vec::new();
    let mut i: usize = 0;
    while i < names.len()
        invariant
            i <= names@.len(),
            codes(out@) == names_code(names@, i as int),
        decreases names@.len() - i,
    {
        put_item(&mut out, single_name(&names[i]));
        i = i + 1;
    }
    out
}

fn callback_call(callable: &Callable, definition: &MachineDef, context_trait: &Ident) -> (out: Vec<
    Code,
>)
    ensures
        codes(out@) == callback_call_code(*callable, *definition, *context_trait),
{
    let mut out = start("<");
    put_context(&mut out, definition);
    put_text(&mut out, "as");
    put_name(&mut out, context_trait);
    put_text(&mut out, ">::");
    put_name(&mut out, &callable.name);
    let mut arguments = start("context,");
    put_all(&mut arguments, list_names(&callable.arguments));
    put_parens(&mut out, arguments);
    put_text_if(&mut out, callable.is_async, ".await");
    out
}

fn binding_pattern(prefix: &'static str, pattern: &BindingPattern, variant: &VariantDef) -> (out:
    Vec<Code>)
    ensures
        codes(out@) == binding_pattern_code(prefix, *pattern, *variant),
{
    let mut out = start(prefix);
    put_name(&mut out, &pattern.name);
    if variant.fields.len() == 0 {
        return out;
    }
    if !pattern.explicit_fields || pattern.rest && pattern.fields.len() == 0 {
        put_braces(&mut out, start(".."));
        return out;
    }
    let mut names = list_names(&pattern.fields);
    if pattern.rest {
        put_text(&mut names, ", ..");
    }
    put_braces(&mut out, names);
    out
}

pub(crate) fn ignored_variant_pattern(prefix: &'static str, variant: &VariantDef) -> (out: Vec<Code>)
    ensures
        codes(out@) == ignored_variant_code(prefix, *variant),
{
    let mut out = start(prefix);
    put_name(&mut out, &variant.name);
    if variant.fields.len() > 0 {
        put_braces(&mut out, start(".."));
    }
    out
}

pub(crate) fn initial_expression(node: &StateNode) -> (result: Result<Vec<Code>, Message>)
    ensures
        code_made(result) == initial_code(*node),
    decreases *node,
{
    if node.is_compound() {
        match find_initial(&node.children, 0) {
            Some(i) => initial_expression(&node.children[i]),
            None => Err(
                Message {
                    span: node.variant.name.span,
                    text: "validated compound initial state disappeared".to_owned(),
                    failure: None,
                },
            ),
        }
    } else {
        let mut out = start("State::");
        put_name(&mut out, &node.variant.name);
        Ok(out)
    }
}

fn target_field(field: &TargetField, ty: &Type) -> (out: Vec<Code>)
    ensures
        codes(out@) == target_field_code(*field, *ty),
{
    let mut out = single_name(&field.name);
    put_text(&mut out, ": <");
    put_type(&mut out, ty);
    put_text(&mut out, "as ::core::clone::Clone>::clone");
    put_parens(&mut out, single_name(&field.binding));
    out
}

fn target_fields(target: &TargetState, variant: &VariantDef) -> (result: Result<
    Vec<Code>,
    Message,
>)
    ensures
        code_made(result) == target_fields_code(
            *target,
            *variant,
            target.fields@.len() as int,
        ),
{
    let mut out: Vec<Code> = Vec::new();
    let mut i: usize = 0;
    while i < target.fields.len()
        invariant
            i <= target.fields@.len(),
            target_fields_code(*target, *variant, i as int) == Ok::<Seq<CodeView>, MessageView>(
                codes(out@),
            ),
        decreases target.fields@.len() - i,
    {
        let field = &target.fields[i];
        match find_field(&variant.fields, variant.fields.len(), &field.name.name) {
            Some(k) => put_item(&mut out, target_field(field, &variant.fields[k].ty)),
            None => {
                let message = Message {
                    span: field.name.span,
                    text: "validated target field disappeared".to_owned(),
                    failure: None,
                };
                proof {
                    lemma_target_fields_fail(*target, *variant, i + 1, message@);
                }
                return Err(message);
            },
        }
        i = i + 1;
    }
    Ok(out)
}

/// What is wrong with the first fields of a target is wrong with the target.
proof fn lemma_target_fields_fail(
    target: TargetState,
    variant: VariantDef,
    n: int,
    message: MessageView,
)
    requires
        0 <= n <= target.fields@.len(),
        target_fields_code(target, variant, n) == Err::<Seq<CodeView>, MessageView>(message),
    ensures
        target_fields_code(target, variant, target.fields@.len() as int) == Err::<
            Seq<CodeView>,
            MessageView,
        >(message),
    decreases target.fields@.len() - n,
{
    if n < target.fields@.len() {
        lemma_target_fields_fail(target, variant, n + 1, message);
    }
}

fn target_expression(target: &TargetState, states: &Vec<FlatState<'_>>) -> (result: Result<
    Vec<Code>,
    Message,
>)
    ensures
        code_made(result) == target_code(*target, flats(states@)),
{
    match find_state(states, states.len(), &target.name.name) {
        None => Err(
            Message {
                span: target.name.span,
                text: "validated target state disappeared".to_owned(),
                failure: None,
            },
        ),
        Some(k) => {
            assert(flats(states@)[k as int] == states@[k as int]@);
            let node = states[k].node;
            if node.is_compound() {
                return initial_expression(node);
            }
            let mut out = start("State::");
            put_name(&mut out, &target.name);
            if node.variant.fields.len() > 0 {
                match target_fields(target, &node.variant) {
                    Ok(fields) => put_braces(&mut out, fields),
                    Err(message) => return Err(message),
                }
            }
            Ok(out)
        },
    }
}

fn effect_value(effect: &Option<Callable>, definition: &MachineDef, context_trait: &Ident) -> (out:
    Vec<Code>)
    ensures
        codes(out@) == effect_value_code(*effect, *definition, *context_trait),
{
    match effect {
        Some(callable) => {
            let mut out = start("::core::option::Option::Some");
            put_parens(&mut out, callback_call(callable, definition, context_trait));
            out
        },
        None => start("::core::option::Option::None"),
    }
}

fn selected_row_body(
    row: &Row,
    definition: &MachineDef,
    context_trait: &Ident,
    states: &Vec<FlatState<'_>>,
) -> (result: Result<Vec<Code>, Message>)
    ensures
        code_made(result) == selected_row_code(*row, *definition, *context_trait, flats(states@)),
{
    match &row.outcome {
        RowOutcome::Reject(reason) => {
            let mut variant = start("Rejection::");
            put_name(&mut variant, reason);
            let mut error = start("::rfsm::ProcessError::Rejected");
            put_parens(&mut error, variant);
            let mut out = start("return ::core::result::Result::Err");
            put_parens(&mut out, error);
            put_text(&mut out, ";");
            Ok(out)
        },
        RowOutcome::Transition { transition, target } => {
            let to = match target {
                Some(target) => match target_expression(target, states) {
                    Ok(to) => to,
                    Err(message) => return Err(message),
                },
                None => start("state.clone()"),
            };
            let mut out = start("let to =");
            put_all(&mut out, to);
            put_text(&mut out, "; let effect: ::core::option::Option<");
            put_effect(&mut out, definition);
            put_text(&mut out, "> =");
            put_all(&mut out, effect_value(&row.effect, definition, context_trait));
            put_text(&mut out, "; return ::core::result::Result::Ok");
            let mut fields = start("transition: Transition::");
            put_name(&mut fields, transition);
            put_text(&mut fields, ", from: state.clone(), to, effect,");
            let mut plan = start("::rfsm::Plan");
            put_braces(&mut plan, fields);
            put_parens(&mut out, plan);
            put_text(&mut out, ";");
            Ok(out)
        },
    }
}

/// The mathematical value of a pattern that was made, where one is needed.
pub open spec fn pattern_made(result: Result<Option<Vec<Code>>, Message>) -> Result<
    Option<Seq<CodeView>>,
    MessageView,
> {
    match result {
        Ok(Some(pieces)) => Ok(Some(codes(pieces@))),
        Ok(None) => Ok(None),
        Err(message) => Err(message@),
    }
}

fn source_pattern(row: &Row, states: &Vec<FlatState<'_>>) -> (result: Result<
    Option<Vec<Code>>,
    Message,
>)
    ensures
        pattern_made(result) == source_code(*row, flats(states@)),
{
    match &row.source {
        RowSource::Any => Ok(None),
        RowSource::State(pattern) => match find_state(states, states.len(), &pattern.name.name) {
            None => Err(
                Message {
                    span: pattern.name.span,
                    text: "validated source state disappeared".to_owned(),
                    failure: None,
                },
            ),
            Some(k) => {
                assert(flats(states@)[k as int] == states@[k as int]@);
                if states[k].node.is_compound() {
                    Ok(None)
                } else {
                    Ok(Some(binding_pattern("State::", pattern, &states[k].node.variant)))
                }
            },
        },
    }
}

fn event_pattern(row: &Row, events: &Vec<VariantDef>) -> (result: Result<
    Option<Vec<Code>>,
    Message,
>)
    ensures
        pattern_made(result) == event_code(*row, events@),
{
    match &row.event {
        RowEvent::Any => Ok(None),
        RowEvent::Event(pattern) => match find_event(events, events.len(), &pattern.name.name) {
            None => Err(
                Message {
                    span: pattern.name.span,
                    text: "validated event disappeared".to_owned(),
                    failure: None,
                },
            ),
            Some(k) => Ok(Some(binding_pattern("Event::", pattern, &events[k]))),
        },
    }
}

fn match_patterns(source: Option<Vec<Code>>, event: Option<Vec<Code>>, guarded: Vec<Code>) -> (out:
    Vec<Code>)
    ensures
        codes(out@) == matched_code(
            pattern_made(Ok(source))->Ok_0,
            pattern_made(Ok(event))->Ok_0,
            codes(guarded@),
        ),
{
    match (source, event) {
        (Some(source), Some(event)) => {
            let mut pair = source;
            put_text(&mut pair, ",");
            put_all(&mut pair, event);
            let mut out = start("if let");
            put_parens(&mut out, pair);
            put_text(&mut out, "= (state, event)");
            put_braces(&mut out, guarded);
            out
        },
        (Some(source), None) => {
            let mut out = start("if let");
            put_all(&mut out, source);
            put_text(&mut out, "= state");
            put_braces(&mut out, guarded);
            out
        },
        (None, Some(event)) => {
            let mut out = start("if let");
            put_all(&mut out, event);
            put_text(&mut out, "= event");
            put_braces(&mut out, guarded);
            out
        },
        (None, None) => guarded,
    }
}

pub(crate) fn row_block(
    row: &Row,
    definition: &MachineDef,
    context_trait: &Ident,
    states: &Vec<FlatState<'_>>,
) -> (result: Result<Vec<Code>, Message>)
    ensures
        code_made(result) == row_code(*row, *definition, *context_trait, flats(states@)),
{
    let source = match source_pattern(row, states) {
        Ok(source) => source,
        Err(message) => return Err(message),
    };
    let event = match event_pattern(row, &definition.events) {
        Ok(event) => event,
        Err(message) => return Err(message),
    };
    let body = match selected_row_body(row, definition, context_trait, states) {
        Ok(body) => body,
        Err(message) => return Err(message),
    };
    let guarded = match &row.guard {
        Some(callable) => {
            let mut out = start("if");
            put_all(&mut out, callback_call(callable, definition, context_trait));
            put_braces(&mut out, body);
            out
        },
        None => body,
    };
    Ok(match_patterns(source, event, guarded))
}

} // verus!
