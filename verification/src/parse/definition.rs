//! Reading a whole definition: its keys, each with its value.
use crate::error::{Message, MessageView};
use crate::model::{MachineDef, Row, StateNode, Type, VariantDef};
use crate::parse::cursor::{
    fail, failure, is_group, is_punct, is_word, name_syntax, next_is_group, next_is_punct,
    next_is_word, parse_name, parse_punct, parse_type, punct_syntax, read, type_syntax,
};
use crate::parse::rows::{parse_rows, rows_syntax};
use crate::parse::states::{nodes_syntax, parse_states, parse_variants, variants_syntax};
use crate::text::{join3, same_text};
use crate::token::{stream_trees, Delimiter, Ident, Token, TreeView};
use crate::views::{
    node_list, row_list, type_option, variant_list, DefinitionView, NodeView, RowView, TypeView,
    VariantView,
};
use vstd::prelude::*;

verus! {

/// The values of the keys read so far.
struct Draft {
    name: Option<Ident>,
    serde: Option<bool>,
    context: Option<Type>,
    effect: Option<Type>,
    states: Option<Vec<StateNode>>,
    events: Option<Vec<VariantDef>>,
    rows: Option<Vec<Row>>,
}

/// The mathematical values of the keys read so far.
pub struct DraftView {
    pub name: Option<Ident>,
    pub serde: Option<bool>,
    pub context: Option<TypeView>,
    pub effect: Option<TypeView>,
    pub states: Option<Seq<NodeView>>,
    pub events: Option<Seq<VariantView>>,
    pub rows: Option<Seq<RowView>>,
}

impl View for Draft {
    type V = DraftView;

    closed spec fn view(&self) -> DraftView {
        DraftView {
            name: self.name,
            serde: self.serde,
            context: type_option(self.context),
            effect: type_option(self.effect),
            states: match self.states {
                Some(states) => Some(node_list(states@)),
                None => None,
            },
            events: match self.events {
                Some(events) => Some(variant_list(events@)),
                None => None,
            },
            rows: match self.rows {
                Some(rows) => Some(row_list(rows@)),
                None => None,
            },
        }
    }
}

/// No key was read yet.
pub open spec fn blank() -> DraftView {
    DraftView {
        name: None,
        serde: None,
        context: None,
        effect: None,
        states: None,
        events: None,
        rows: None,
    }
}

/// The message on a key that was given before.
pub open spec fn duplicate(key: Ident) -> MessageView {
    MessageView { span: key.span, text: "duplicate key `"@ + key.spelled() + "`"@, failed: None }
}

/// The message on a key that there is not.
pub open spec fn unknown(key: Ident) -> MessageView {
    MessageView {
        span: key.span,
        text: "unknown key `"@ + key.spelled()
            + "`; expected name, serde, context, effect, states, events, or transitions"@,
        failed: None,
    }
}

/// A value for a key: it has to be the first.
pub open spec fn set_once<T>(slot: Option<T>, value: T, key: Ident) -> Result<
    Option<T>,
    MessageView,
> {
    match slot {
        Some(_) => Err(duplicate(key)),
        None => Ok(Some(value)),
    }
}

/// The word for a truth value that has to be next, and the position behind it.
pub open spec fn bool_syntax(tokens: Seq<Token>, at: int, end: proc_macro2::Span) -> Result<
    (bool, int),
    MessageView,
> {
    if is_word(tokens, at, "true"@) {
        Ok((true, at + 1))
    } else if is_word(tokens, at, "false"@) {
        Ok((false, at + 1))
    } else {
        Err(failure(tokens, at, end, "expected boolean literal"@))
    }
}

/// The group in braces that has to be next: what is inside, and where it ends.
pub open spec fn braces_syntax(tokens: Seq<Token>, at: int, end: proc_macro2::Span) -> Result<
    (Seq<Token>, proc_macro2::Span),
    MessageView,
> {
    if is_group(tokens, at, Delimiter::Brace) {
        Ok((tokens[at]->Group_1@, tokens[at]->Group_3))
    } else {
        Err(failure(tokens, at, end, "expected curly braces"@))
    }
}

/// The value of the `name` key.
pub open spec fn name_value(
    tokens: Seq<Token>,
    at: int,
    end: proc_macro2::Span,
    key: Ident,
    draft: DraftView,
) -> Result<(DraftView, int), MessageView> {
    match name_syntax(tokens, at, end) {
        Err(message) => Err(message),
        Ok((value, next)) => match set_once(draft.name, value, key) {
            Err(message) => Err(message),
            Ok(name) => Ok((DraftView { name, ..draft }, next)),
        },
    }
}

/// The value of the `serde` key.
pub open spec fn serde_value(
    tokens: Seq<Token>,
    at: int,
    end: proc_macro2::Span,
    key: Ident,
    draft: DraftView,
) -> Result<(DraftView, int), MessageView> {
    match bool_syntax(tokens, at, end) {
        Err(message) => Err(message),
        Ok((value, next)) => match set_once(draft.serde, value, key) {
            Err(message) => Err(message),
            Ok(serde) => Ok((DraftView { serde, ..draft }, next)),
        },
    }
}

/// The value of the `context` key.
pub open spec fn context_value(
    tokens: Seq<Token>,
    source: Seq<TreeView>,
    at: int,
    end: proc_macro2::Span,
    key: Ident,
    draft: DraftView,
) -> Result<(DraftView, int), MessageView> {
    match type_syntax(tokens, source, at, end) {
        Err(message) => Err(message),
        Ok((value, next)) => match set_once(draft.context, value, key) {
            Err(message) => Err(message),
            Ok(context) => Ok((DraftView { context, ..draft }, next)),
        },
    }
}

/// The value of the `effect` key.
pub open spec fn effect_value(
    tokens: Seq<Token>,
    source: Seq<TreeView>,
    at: int,
    end: proc_macro2::Span,
    key: Ident,
    draft: DraftView,
) -> Result<(DraftView, int), MessageView> {
    match type_syntax(tokens, source, at, end) {
        Err(message) => Err(message),
        Ok((value, next)) => match set_once(draft.effect, value, key) {
            Err(message) => Err(message),
            Ok(effect) => Ok((DraftView { effect, ..draft }, next)),
        },
    }
}

/// The value of the `states` key.
pub open spec fn states_value(
    tokens: Seq<Token>,
    at: int,
    end: proc_macro2::Span,
    key: Ident,
    draft: DraftView,
) -> Result<(DraftView, int), MessageView> {
    match braces_syntax(tokens, at, end) {
        Err(message) => Err(message),
        Ok((inner, close)) => match nodes_syntax(inner, 0, close) {
            Err(message) => Err(message),
            Ok(value) => match set_once(draft.states, value, key) {
                Err(message) => Err(message),
                Ok(states) => Ok((DraftView { states, ..draft }, at + 1)),
            },
        },
    }
}

/// The value of the `events` key.
pub open spec fn events_value(
    tokens: Seq<Token>,
    at: int,
    end: proc_macro2::Span,
    key: Ident,
    draft: DraftView,
) -> Result<(DraftView, int), MessageView> {
    match braces_syntax(tokens, at, end) {
        Err(message) => Err(message),
        Ok((inner, close)) => match variants_syntax(inner, 0, close) {
            Err(message) => Err(message),
            Ok(value) => match set_once(draft.events, value, key) {
                Err(message) => Err(message),
                Ok(events) => Ok((DraftView { events, ..draft }, at + 1)),
            },
        },
    }
}

/// The value of the `transitions` key.
pub open spec fn transitions_value(
    tokens: Seq<Token>,
    at: int,
    end: proc_macro2::Span,
    key: Ident,
    draft: DraftView,
) -> Result<(DraftView, int), MessageView> {
    match braces_syntax(tokens, at, end) {
        Err(message) => Err(message),
        Ok((inner, close)) => match rows_syntax(inner, 0, close) {
            Err(message) => Err(message),
            Ok(value) => match set_once(draft.rows, value, key) {
                Err(message) => Err(message),
                Ok(rows) => Ok((DraftView { rows, ..draft }, at + 1)),
            },
        },
    }
}

/// The value of a key: what is known with it, and the position behind it.
pub open spec fn value_syntax(
    tokens: Seq<Token>,
    source: Seq<TreeView>,
    at: int,
    end: proc_macro2::Span,
    key: Ident,
    draft: DraftView,
) -> Result<(DraftView, int), MessageView> {
    let word = key.spelled();
    if word == "name"@ {
        name_value(tokens, at, end, key, draft)
    } else if word == "serde"@ {
        serde_value(tokens, at, end, key, draft)
    } else if word == "context"@ {
        context_value(tokens, source, at, end, key, draft)
    } else if word == "effect"@ {
        effect_value(tokens, source, at, end, key, draft)
    } else if word == "rejection"@ {
        Err(
            MessageView {
                span: key.span,
                text: "`rejection` is generated from `reject Reason` rows and must not be declared"@,
                failed: None,
            },
        )
    } else if word == "states"@ {
        states_value(tokens, at, end, key, draft)
    } else if word == "events"@ {
        events_value(tokens, at, end, key, draft)
    } else if word == "transitions"@ {
        transitions_value(tokens, at, end, key, draft)
    } else {
        Err(unknown(key))
    }
}

/// A key with its value, and the position behind it and an optional comma.
pub open spec fn entry_syntax(
    tokens: Seq<Token>,
    source: Seq<TreeView>,
    at: int,
    end: proc_macro2::Span,
    draft: DraftView,
) -> Result<(DraftView, int), MessageView> {
    match name_syntax(tokens, at, end) {
        Err(message) => Err(message),
        Ok((key, colon)) => match punct_syntax(tokens, colon, end, ':', "expected `:`"@) {
            Err(message) => Err(message),
            Ok(start) => match value_syntax(tokens, source, start, end, key, draft) {
                Err(message) => Err(message),
                Ok((known, comma)) => Ok(
                    (
                        known,
                        if is_punct(tokens, comma, ',') {
                            comma + 1
                        } else {
                            comma
                        },
                    ),
                ),
            },
        },
    }
}

/// A key with its value takes at least one token.
pub proof fn lemma_entry_advances(
    tokens: Seq<Token>,
    source: Seq<TreeView>,
    at: int,
    end: proc_macro2::Span,
    draft: DraftView,
)
    requires
        0 <= at < tokens.len(),
    ensures
        entry_syntax(tokens, source, at, end, draft) matches Ok((_, next)) ==> at < next <= tokens.len(),
{
}

/// The keys from a position to the end, with what was known before.
pub open spec fn entries_syntax(
    tokens: Seq<Token>,
    source: Seq<TreeView>,
    at: int,
    end: proc_macro2::Span,
    draft: DraftView,
) -> Result<DraftView, MessageView>
    decreases tokens.len() - at,
{
    if at < 0 || at >= tokens.len() {
        Ok(draft)
    } else {
        proof {
            lemma_entry_advances(tokens, source, at, end, draft);
        }
        match entry_syntax(tokens, source, at, end, draft) {
            Err(message) => Err(message),
            Ok((known, next)) => entries_syntax(tokens, source, next, end, known),
        }
    }
}

/// The definition that the keys give; the name, states, events and transitions have to be there.
pub open spec fn definition_of(
    tokens: Seq<Token>,
    end: proc_macro2::Span,
    draft: DraftView,
) -> Result<DefinitionView, MessageView> {
    match (draft.name, draft.states, draft.events, draft.rows) {
        (Some(name), Some(states), Some(events), Some(rows)) => Ok(
            DefinitionView {
                name,
                serde: draft.serde == Some(true),
                context: draft.context,
                effect: draft.effect,
                states,
                events,
                rows,
                call_site: end,
            },
        ),
        (None, _, _, _) => Err(
            failure(tokens, tokens.len() as int, end, "missing required key `name`"@),
        ),
        (_, None, _, _) => Err(
            failure(tokens, tokens.len() as int, end, "missing required key `states`"@),
        ),
        (_, _, None, _) => Err(
            failure(tokens, tokens.len() as int, end, "missing required key `events`"@),
        ),
        _ => Err(
            failure(tokens, tokens.len() as int, end, "missing required key `transitions`"@),
        ),
    }
}

/// A whole definition; `source` holds the token trees that the tokens were read from.
pub open spec fn definition_syntax(
    tokens: Seq<Token>,
    source: Seq<TreeView>,
    end: proc_macro2::Span,
) -> Result<DefinitionView, MessageView> {
    match entries_syntax(tokens, source, 0, end, blank()) {
        Err(message) => Err(message),
        Ok(draft) => definition_of(tokens, end, draft),
    }
}

/// The mathematical value of a definition that was read.
pub open spec fn definition_read(result: Result<MachineDef, Message>) -> Result<
    DefinitionView,
    MessageView,
> {
    match result {
        Ok(definition) => Ok(definition@),
        Err(message) => Err(message@),
    }
}

fn duplicate_key(key: &Ident) -> (message: Message)
    ensures
        message@ == duplicate(*key),
{
    Message { span: key.span, text: join3("duplicate key `", key.spelling().as_str(), "`"), failure: None }
}

fn parse_bool(tokens: &Vec<Token>, at: usize, end: proc_macro2::Span) -> (result: Result<
    (bool, usize),
    Message,
>)
    ensures
        match result {
            Ok((value, next)) => bool_syntax(tokens@, at as int, end) == Ok::<
                (bool, int),
                MessageView,
            >((value, next as int)),
            Err(message) => bool_syntax(tokens@, at as int, end) == Err::<
                (bool, int),
                MessageView,
            >(message@),
        },
{
    if next_is_word(tokens, at, "true") {
        Ok((true, at + 1))
    } else if next_is_word(tokens, at, "false") {
        Ok((false, at + 1))
    } else {
        Err(fail(tokens, at, end, "expected boolean literal"))
    }
}

fn parse_header_value(
    tokens: &Vec<Token>,
    source: &proc_macro2::TokenStream,
    at: usize,
    end: proc_macro2::Span,
    key: &Ident,
    draft: Draft,
) -> (result: Result<(Draft, usize), Message>)
    requires
        at <= tokens@.len(),
    ensures
        read(result) == (if key.spelled() == "name"@ {
            name_value(tokens@, at as int, end, *key, draft@)
        } else if key.spelled() == "serde"@ {
            serde_value(tokens@, at as int, end, *key, draft@)
        } else if key.spelled() == "context"@ {
            context_value(tokens@, stream_trees(*source), at as int, end, *key, draft@)
        } else {
            effect_value(tokens@, stream_trees(*source), at as int, end, *key, draft@)
        }),
{
    let mut draft = draft;
    let word = key.spelling();
    if same_text(word.as_str(), "name") {
        let (value, next) = match parse_name(tokens, at, end) {
            Ok(found) => found,
            Err(message) => return Err(message),
        };
        if draft.name.is_some() {
            return Err(duplicate_key(key));
        }
        draft.name = Some(value);
        Ok((draft, next))
    } else if same_text(word.as_str(), "serde") {
        let (value, next) = match parse_bool(tokens, at, end) {
            Ok(found) => found,
            Err(message) => return Err(message),
        };
        if draft.serde.is_some() {
            return Err(duplicate_key(key));
        }
        draft.serde = Some(value);
        Ok((draft, next))
    } else if same_text(word.as_str(), "context") {
        let (value, next) = match parse_type(tokens, source, at, end) {
            Ok(found) => found,
            Err(message) => return Err(message),
        };
        if draft.context.is_some() {
            return Err(duplicate_key(key));
        }
        draft.context = Some(value);
        Ok((draft, next))
    } else {
        let (value, next) = match parse_type(tokens, source, at, end) {
            Ok(found) => found,
            Err(message) => return Err(message),
        };
        if draft.effect.is_some() {
            return Err(duplicate_key(key));
        }
        draft.effect = Some(value);
        Ok((draft, next))
    }
}

fn parse_table_value(
    tokens: &Vec<Token>,
    at: usize,
    end: proc_macro2::Span,
    key: &Ident,
    draft: Draft,
) -> (result: Result<(Draft, usize), Message>)
    ensures
        read(result) == (if key.spelled() == "states"@ {
            states_value(tokens@, at as int, end, *key, draft@)
        } else if key.spelled() == "events"@ {
            events_value(tokens@, at as int, end, *key, draft@)
        } else {
            transitions_value(tokens@, at as int, end, *key, draft@)
        }),
{
    let mut draft = draft;
    if next_is_group(tokens, at, Delimiter::Brace) {
        if let Token::Group(_, inner, _, close, _) = &tokens[at] {
            let word = key.spelling();
            if same_text(word.as_str(), "states") {
                let value = match parse_states(inner, *close) {
                    Ok(found) => found,
                    Err(message) => return Err(message),
                };
                if draft.states.is_some() {
                    return Err(duplicate_key(key));
                }
                draft.states = Some(value);
            } else if same_text(word.as_str(), "events") {
                let value = match parse_variants(inner, *close) {
                    Ok(found) => found,
                    Err(message) => return Err(message),
                };
                if draft.events.is_some() {
                    return Err(duplicate_key(key));
                }
                draft.events = Some(value);
            } else {
                let value = match parse_rows(inner, *close) {
                    Ok(found) => found,
                    Err(message) => return Err(message),
                };
                if draft.rows.is_some() {
                    return Err(duplicate_key(key));
                }
                draft.rows = Some(value);
            }
            return Ok((draft, at + 1));
        }
    }
    Err(fail(tokens, at, end, "expected curly braces"))
}

fn parse_value(
    tokens: &Vec<Token>,
    source: &proc_macro2::TokenStream,
    at: usize,
    end: proc_macro2::Span,
    key: &Ident,
    draft: Draft,
) -> (result: Result<(Draft, usize), Message>)
    requires
        at <= tokens@.len(),
    ensures
        read(result) == value_syntax(tokens@, stream_trees(*source), at as int, end, *key, draft@),
{
    proof {
        reveal_strlit("name");
        reveal_strlit("serde");
        reveal_strlit("context");
        reveal_strlit("effect");
        reveal_strlit("rejection");
        reveal_strlit("states");
        reveal_strlit("events");
        reveal_strlit("transitions");
    }
    let spelled = key.spelling();
    let word = spelled.as_str();
    if same_text(word, "name") || same_text(word, "serde") || same_text(word, "context")
        || same_text(word, "effect") {
        parse_header_value(tokens, source, at, end, key, draft)
    } else if same_text(word, "rejection") {
        Err(
            Message {
                span: key.span,
                text:
                    "`rejection` is generated from `reject Reason` rows and must not be declared".to_owned(),
                failure: None,
            },
        )
    } else if same_text(word, "states") || same_text(word, "events") || same_text(
        word,
        "transitions",
    ) {
        parse_table_value(tokens, at, end, key, draft)
    } else {
        Err(
            Message {
                span: key.span,
                text: join3(
                    "unknown key `",
                    word,
                    "`; expected name, serde, context, effect, states, events, or transitions",
                ),
                failure: None,
            },
        )
    }
}

fn parse_entry(
    tokens: &Vec<Token>,
    source: &proc_macro2::TokenStream,
    at: usize,
    end: proc_macro2::Span,
    draft: Draft,
) -> (result: Result<(Draft, usize), Message>)
    requires
        at < tokens@.len(),
    ensures
        read(result) == entry_syntax(tokens@, stream_trees(*source), at as int, end, draft@),
        result matches Ok((_, next)) ==> at < next <= tokens@.len(),
{
    proof {
        lemma_entry_advances(tokens@, stream_trees(*source), at as int, end, draft@);
    }
    let (key, colon) = match parse_name(tokens, at, end) {
        Ok(found) => found,
        Err(message) => return Err(message),
    };
    let start = match parse_punct(tokens, colon, end, ':', "expected `:`") {
        Ok(found) => found,
        Err(message) => return Err(message),
    };
    let (known, comma) = match parse_value(tokens, source, start, end, &key, draft) {
        Ok(found) => found,
        Err(message) => return Err(message),
    };
    if next_is_punct(tokens, comma, ',') {
        Ok((known, comma + 1))
    } else {
        Ok((known, comma))
    }
}

/// Reads a definition from its tokens; `source` is the stream that they were read from, and `end`
/// the place of the definition as a whole.
pub(crate) fn parse_definition(
    tokens: &Vec<Token>,
    source: &proc_macro2::TokenStream,
    end: proc_macro2::Span,
) -> (result: Result<MachineDef, Message>)
    ensures
        definition_read(result) == definition_syntax(tokens@, stream_trees(*source), end),
{
    let mut draft = Draft {
        name: None,
        serde: None,
        context: None,
        effect: None,
        states: None,
        events: None,
        rows: None,
    };
    let mut at: usize = 0;
    let ghost whole = entries_syntax(tokens@, stream_trees(*source), 0, end, blank());
    assert(draft@ == blank());
    while at < tokens.len()
        invariant
            at <= tokens@.len(),
            whole == entries_syntax(tokens@, stream_trees(*source), 0, end, blank()),
            whole == entries_syntax(tokens@, stream_trees(*source), at as int, end, draft@),
        decreases tokens@.len() - at,
    {
        match parse_entry(tokens, source, at, end, draft) {
            Ok((known, next)) => {
                draft = known;
                at = next;
            },
            Err(message) => return Err(message),
        }
    }
    let count = tokens.len();
    let name = match draft.name {
        Some(name) => name,
        None => return Err(fail(tokens, count, end, "missing required key `name`")),
    };
    let states = match draft.states {
        Some(states) => states,
        None => return Err(fail(tokens, count, end, "missing required key `states`")),
    };
    let events = match draft.events {
        Some(events) => events,
        None => return Err(fail(tokens, count, end, "missing required key `events`")),
    };
    let rows = match draft.rows {
        Some(rows) => rows,
        None => return Err(fail(tokens, count, end, "missing required key `transitions`")),
    };
    let serde = match draft.serde {
        Some(value) => value,
        None => false,
    };
    Ok(
        MachineDef {
            name,
            serde,
            context: draft.context,
            effect: draft.effect,
            states,
            events,
            rows,
            call_site: end,
        },
    )
}

} // verus!
