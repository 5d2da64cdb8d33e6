//! The code of the declared items: the enums, the context trait, and the lookups.
use crate::code::{
    braced, bracketed, codes, joined, name_of, parenthesized, put_all, put_braces, put_brackets,
    put_item, put_name, put_parens, put_quote, put_text, put_text_if, put_type, quote_of, start,
    text_if, text_of, type_of, Code, CodeView,
};
use crate::expand::rows::{
    effect_code, ignored_variant_code, ignored_variant_pattern, list_names, names_code, put_effect,
    single_name,
};
use crate::model::{flats, CallableRole, FieldDef, Flat, FlatState, MachineDef, Type, VariantDef};
use crate::token::Ident;
use crate::validate::callables::{callables_view, CallableDef, CallableView};
use vstd::prelude::*;

verus! {

/// The first line that documents the context trait.
pub const CONTEXT_READS: &'static str =
    "Logically read-only guards and effect factories used by the transition table.";

/// The second line that documents the context trait.
pub const CONTEXT_KEEPS: &'static str =
    "Interior or external side effects are not rolled back on rejection or cancellation.";

/// The third line that documents the context trait.
pub const CONTEXT_WRITES: &'static str =
    "Externally visible writes belong in the returned effect boundary.";

/// What introduces the context trait.
pub const CONTEXT_TRAIT_HEADER: &'static str =
    "#[allow(async_fn_in_trait, clippy::ptr_arg, missing_docs)] pub trait";

/// A line of documentation.
pub open spec fn doc_code(line: &str) -> Seq<CodeView> {
    text_of("#") + bracketed(text_of("doc =") + quote_of(line))
}

/// The attributes of a state that can be serialized; nothing for others.
pub open spec fn serde_code(definition: MachineDef) -> Seq<CodeView> {
    if definition.serde {
        text_of("#[derive(::rfsm::serde::Serialize, ::rfsm::serde::Deserialize)] #") + bracketed(
            text_of("serde") + parenthesized(
                text_of("crate =") + quote_of("::rfsm::serde") + text_of(", deny_unknown_fields"),
            ),
        )
    } else {
        Seq::empty()
    }
}

/// What introduces the enum of state identities.
pub const STATE_ID_HEADER: &'static str =
    "#[allow(missing_docs)] #[derive(Clone, Copy, Debug, Eq, Hash, PartialEq)] pub enum StateId";

/// What introduces the enum of transitions.
pub const TRANSITION_HEADER: &'static str =
    "#[allow(missing_docs)] #[derive(Clone, Copy, Debug, Eq, Hash, PartialEq)] pub enum Transition";

/// What introduces the enum of rejections.
pub const REJECTION_HEADER: &'static str =
    "#[allow(missing_docs)] #[derive(Clone, Copy, Debug, Eq, Hash, PartialEq)] pub enum Rejection";

/// The first `n` payload fields of a declared state or event.
pub open spec fn declared_fields_code(fields: Seq<FieldDef>, n: int) -> Seq<CodeView>
    decreases n,
{
    if n <= 0 {
        Seq::empty()
    } else {
        joined(
            declared_fields_code(fields, n - 1),
            name_of(fields[n - 1].name) + text_of(":") + type_of(fields[n - 1].ty),
        )
    }
}

/// The declaration of a state or an event as a variant of an enum.
pub open spec fn declaration_code(variant: VariantDef) -> Seq<CodeView> {
    if variant.fields@.len() == 0 {
        name_of(variant.name)
    } else {
        name_of(variant.name) + braced(
            declared_fields_code(variant.fields@, variant.fields@.len() as int),
        )
    }
}

/// The declarations of the leaves among the first `n` states.
pub open spec fn leaves_code(states: Seq<Flat>, n: int) -> Seq<CodeView>
    decreases n,
{
    if n <= 0 {
        Seq::empty()
    } else if states[n - 1].node.compound() {
        leaves_code(states, n - 1)
    } else {
        joined(leaves_code(states, n - 1), declaration_code(states[n - 1].node.variant))
    }
}

/// The names of the first `n` states.
pub open spec fn state_names_code(states: Seq<Flat>, n: int) -> Seq<CodeView>
    decreases n,
{
    if n <= 0 {
        Seq::empty()
    } else {
        joined(state_names_code(states, n - 1), name_of(states[n - 1].node.variant.name))
    }
}

/// The declarations of the first `n` events.
pub open spec fn events_code(events: Seq<VariantDef>, n: int) -> Seq<CodeView>
    decreases n,
{
    if n <= 0 {
        Seq::empty()
    } else {
        joined(events_code(events, n - 1), declaration_code(events[n - 1]))
    }
}

/// The enums of states, state identities, events, transitions and rejections.
pub open spec fn enums_code(
    definition: MachineDef,
    states: Seq<Flat>,
    transitions: Seq<Ident>,
    rejections: Seq<Ident>,
) -> Seq<CodeView> {
    text_of("#[allow(missing_docs)] #[derive(Clone, Debug, PartialEq)]") + serde_code(definition)
        + text_of("pub enum State") + braced(leaves_code(states, states.len() as int)) + text_of(
        STATE_ID_HEADER,
    ) + braced(state_names_code(states, states.len() as int)) + text_of(
        "#[allow(missing_docs)] #[derive(Clone, Debug, PartialEq)] pub enum Event",
    ) + braced(events_code(definition.events@, definition.events@.len() as int)) + text_of(
        TRANSITION_HEADER,
    ) + braced(names_code(transitions, transitions.len() as int)) + text_of(REJECTION_HEADER)
        + braced(names_code(rejections, rejections.len() as int))
}

/// The first `n` parameters of a callback behind the receiver.
pub open spec fn parameters_code(arguments: Seq<(Ident, Type)>, n: int) -> Seq<CodeView>
    decreases n,
{
    if n <= 0 {
        Seq::empty()
    } else {
        joined(
            parameters_code(arguments, n - 1),
            name_of(arguments[n - 1].0) + text_of(": &") + type_of(arguments[n - 1].1),
        )
    }
}

/// The method of a callback in the context trait.
pub open spec fn context_method_code(callable: CallableView, definition: MachineDef) -> Seq<
    CodeView,
> {
    text_if(callable.is_async, "async") + text_of("fn") + name_of(callable.name) + parenthesized(
        text_of("&self,") + parameters_code(
            callable.arguments,
            callable.arguments.len() as int,
        ),
    ) + text_of("->") + (match callable.role {
        CallableRole::Guard => text_of("bool"),
        CallableRole::Effect => effect_code(definition),
    }) + text_of(";")
}

/// The methods of the first `n` callbacks.
pub open spec fn context_methods_code(
    callables: Seq<CallableView>,
    definition: MachineDef,
    n: int,
) -> Seq<CodeView>
    decreases n,
{
    if n <= 0 {
        Seq::empty()
    } else {
        context_methods_code(callables, definition, n - 1) + context_method_code(
            callables[n - 1],
            definition,
        )
    }
}

/// The context trait; nothing where the table has no callbacks.
pub open spec fn context_trait_code(
    callables: Seq<CallableView>,
    definition: MachineDef,
    context_trait: Ident,
) -> Seq<CodeView> {
    if callables.len() == 0 {
        Seq::empty()
    } else {
        doc_code(CONTEXT_READS) + doc_code(CONTEXT_KEEPS) + doc_code(CONTEXT_WRITES) + text_of(
            CONTEXT_TRAIT_HEADER,
        ) + name_of(context_trait) + braced(
            context_methods_code(callables, definition, callables.len() as int),
        )
    }
}

/// The identities of the leaves among the first `n` states, by pattern.
pub open spec fn identities_code(states: Seq<Flat>, n: int) -> Seq<CodeView>
    decreases n,
{
    if n <= 0 {
        Seq::empty()
    } else if states[n - 1].node.compound() {
        identities_code(states, n - 1)
    } else {
        identities_code(states, n - 1) + ignored_variant_code(
            "State::",
            states[n - 1].node.variant,
        ) + text_of("=> StateId::") + name_of(states[n - 1].node.variant.name) + text_of(",")
    }
}

/// The parents of the first `n` states.
pub open spec fn parents_code(states: Seq<Flat>, n: int) -> Seq<CodeView>
    decreases n,
{
    if n <= 0 {
        Seq::empty()
    } else {
        let before = parents_code(states, n - 1) + text_of("StateId::") + name_of(
            states[n - 1].node.variant.name,
        );
        match states[n - 1].parent {
            Some(parent) => before + text_of("=> ::core::option::Option::Some") + parenthesized(
                text_of("StateId::") + name_of(parent),
            ) + text_of(","),
            None => before + text_of("=> ::core::option::Option::None,"),
        }
    }
}

fn doc_line(line: &'static str) -> (out: Vec<Code>)
    ensures
        codes(out@) == doc_code(line),
{
    let mut inner = start("doc =");
    put_quote(&mut inner, line);
    let mut out = start("#");
    put_brackets(&mut out, inner);
    out
}

fn serde_attributes(definition: &MachineDef) -> (out: Vec<Code>)
    ensures
        codes(out@) == serde_code(*definition),
{
    if !definition.serde {
        let out: Vec<Code> = Vec::new();
        assert(codes(out@) =~= Seq::empty());
        return out;
    }
    let mut keys = start("crate =");
    put_quote(&mut keys, "::rfsm::serde");
    put_text(&mut keys, ", deny_unknown_fields");
    let mut inner = start("serde");
    put_parens(&mut inner, keys);
    let mut out = start("#[derive(::rfsm::serde::Serialize, ::rfsm::serde::Deserialize)] #");
    put_brackets(&mut out, inner);
    out
}

fn declared_field(field: &FieldDef) -> (out: Vec<Code>)
    ensures
        codes(out@) == name_of(field.name) + text_of(":") + type_of(field.ty),
{
    let mut out = single_name(&field.name);
    put_text(&mut out, ":");
    put_type(&mut out, &field.ty);
    out
}

fn declaration_variant(variant: &VariantDef) -> (out: Vec<Code>)
    ensures
        codes(out@) == declaration_code(*variant),
{
    let mut out = single_name(&variant.name);
    if variant.fields.len() == 0 {
        return out;
    }
    let mut fields: Vec<Code> = Vec::new();
    let mut i: usize = 0;
    while i < variant.fields.len()
        invariant
            i <= variant.fields@.len(),
            codes(fields@) == declared_fields_code(variant.fields@, i as int),
        decreases variant.fields@.len() - i,
    {
        put_item(&mut fields, declared_field(&variant.fields[i]));
        i = i + 1;
    }
    put_braces(&mut out, fields);
    out
}

fn list_leaves(states: &Vec<FlatState<'_>>) -> (out: Vec<Code>)
    ensures
        codes(out@) == leaves_code(flats(states@), states@.len() as int),
{
    let mut out: Vec<Code> = Vec::new();
    let mut i: usize = 0;
    while i < states.len()
        invariant
            i <= states@.len(),
            codes(out@) == leaves_code(flats(states@), i as int),
        decreases states@.len() - i,
    {
        assert(flats(states@)[i as int] == states@[i as int]@);
        if !states[i].node.is_compound() {
            put_item(&mut out, declaration_variant(&states[i].node.variant));
        }
        i = i + 1;
    }
    out
}

fn list_state_names(states: &Vec<FlatState<'_>>) -> (out: Vec<Code>)
    ensures
        codes(out@) == state_names_code(flats(states@), states@.len() as int),
{
    let mut out: Vec<Code> = Vec::new();
    let mut i: usize = 0;
    while i < states.len()
        invariant
            i <= states@.len(),
            codes(out@) == state_names_code(flats(states@), i as int),
        decreases states@.len() - i,
    {
        assert(flats(states@)[i as int] == states@[i as int]@);
        put_item(&mut out, single_name(&states[i].node.variant.name));
        i = i + 1;
    }
    out
}

fn list_events(events: &Vec<VariantDef>) -> (out: Vec<Code>)
    ensures
        codes(out@) == events_code(events@, events@.len() as int),
{
    let mut out: Vec<Code> = Vec::new();
    let mut i: usize = 0;
    while i < events.len()
        invariant
            i <= events@.len(),
            codes(out@) == events_code(events@, i as int),
        decreases events@.len() - i,
    {
        put_item(&mut out, declaration_variant(&events[i]));
        i = i + 1;
    }
    out
}

pub(crate) fn enums(
    definition: &MachineDef,
    states: &Vec<FlatState<'_>>,
    transitions: &Vec<Ident>,
    rejections: &Vec<Ident>,
) -> (out: Vec<Code>)
    ensures
        codes(out@) == enums_code(*definition, flats(states@), transitions@, rejections@),
{
    let mut out = start("#[allow(missing_docs)] #[derive(Clone, Debug, PartialEq)]");
    put_all(&mut out, serde_attributes(definition));
    put_text(&mut out, "pub enum State");
    put_braces(&mut out, list_leaves(states));
    put_text(&mut out, STATE_ID_HEADER);
    put_braces(&mut out, list_state_names(states));
    put_text(
        &mut out,
        "#[allow(missing_docs)] #[derive(Clone, Debug, PartialEq)] pub enum Event",
    );
    put_braces(&mut out, list_events(&definition.events));
    put_text(&mut out, TRANSITION_HEADER);
    put_braces(&mut out, list_names(transitions));
    put_text(&mut out, REJECTION_HEADER);
    put_braces(&mut out, list_names(rejections));
    out
}

fn parameter(argument: &(Ident, Type)) -> (out: Vec<Code>)
    ensures
        codes(out@) == name_of(argument.0) + text_of(": &") + type_of(argument.1),
{
    let mut out = single_name(&argument.0);
    put_text(&mut out, ": &");
    put_type(&mut out, &argument.1);
    out
}

fn context_method(callable: &CallableDef, definition: &MachineDef) -> (out: Vec<Code>)
    ensures
        codes(out@) == context_method_code(callable@, *definition),
{
    let mut parameters: Vec<Code> = Vec::new();
    let mut i: usize = 0;
    while i < callable.arguments.len()
        invariant
            i <= callable.arguments@.len(),
            codes(parameters@) == parameters_code(callable.arguments@, i as int),
        decreases callable.arguments@.len() - i,
    {
        put_item(&mut parameters, parameter(&callable.arguments[i]));
        i = i + 1;
    }
    let mut receiver = start("&self,");
    put_all(&mut receiver, parameters);
    let mut out: Vec<Code> = Vec::new();
    put_text_if(&mut out, callable.is_async, "async");
    assert(codes(out@) =~= text_if(callable.is_async, "async"));
    put_text(&mut out, "fn");
    put_name(&mut out, &callable.name);
    put_parens(&mut out, receiver);
    put_text(&mut out, "->");
    match callable.role {
        CallableRole::Guard => put_text(&mut out, "bool"),
        CallableRole::Effect => put_effect(&mut out, definition),
    }
    put_text(&mut out, ";");
    out
}

pub(crate) fn context_trait_item(
    callables: &Vec<CallableDef>,
    definition: &MachineDef,
    context_trait: &Ident,
) -> (out: Vec<Code>)
    ensures
        codes(out@) == context_trait_code(
            callables_view(callables@),
            *definition,
            *context_trait,
        ),
{
    if callables.len() == 0 {
        return Vec::new();
    }
    let ghost all = callables_view(callables@);
    let mut methods: Vec<Code> = Vec::new();
    let mut i: usize = 0;
    while i < callables.len()
        invariant
            i <= callables@.len(),
            all == callables_view(callables@),
            codes(methods@) == context_methods_code(all, *definition, i as int),
        decreases callables@.len() - i,
    {
        assert(all[i as int] == callables@[i as int]@);
        put_all(&mut methods, context_method(&callables[i], definition));
        i = i + 1;
    }
    let mut out = doc_line(CONTEXT_READS);
    put_all(&mut out, doc_line(CONTEXT_KEEPS));
    put_all(&mut out, doc_line(CONTEXT_WRITES));
    put_text(&mut out, CONTEXT_TRAIT_HEADER);
    put_name(&mut out, context_trait);
    put_braces(&mut out, methods);
    out
}

pub(crate) fn identities(states: &Vec<FlatState<'_>>) -> (out: Vec<Code>)
    ensures
        codes(out@) == identities_code(flats(states@), states@.len() as int),
{
    let mut out: Vec<Code> = Vec::new();
    let mut i: usize = 0;
    while i < states.len()
        invariant
            i <= states@.len(),
            codes(out@) == identities_code(flats(states@), i as int),
        decreases states@.len() - i,
    {
        assert(flats(states@)[i as int] == states@[i as int]@);
        let node = states[i].node;
        if !node.is_compound() {
            put_all(&mut out, ignored_variant_pattern("State::", &node.variant));
            put_text(&mut out, "=> StateId::");
            put_name(&mut out, &node.variant.name);
            put_text(&mut out, ",");
        }
        i = i + 1;
    }
    out
}

pub(crate) fn parents(states: &Vec<FlatState<'_>>) -> (out: Vec<Code>)
    ensures
        codes(out@) == parents_code(flats(states@), states@.len() as int),
{
    let mut out: Vec<Code> = Vec::new();
    let mut i: usize = 0;
    while i < states.len()
        invariant
            i <= states@.len(),
            codes(out@) == parents_code(flats(states@), i as int),
        decreases states@.len() - i,
    {
        assert(flats(states@)[i as int] == states@[i as int]@);
        put_text(&mut out, "StateId::");
        put_name(&mut out, &states[i].node.variant.name);
        match states[i].parent {
            Some(parent) => {
                let mut above = start("StateId::");
                put_name(&mut above, parent);
                put_text(&mut out, "=> ::core::option::Option::Some");
                put_parens(&mut out, above);
                put_text(&mut out, ",");
            },
            None => put_text(&mut out, "=> ::core::option::Option::None,"),
        }
        i = i + 1;
    }
    out
}

} // verus!
