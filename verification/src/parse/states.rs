//! Reading the declared states and events.
use crate::error::{Message, MessageView};
use crate::model::{FieldDef, StateNode, VariantDef};
use crate::parse::cursor::{
    is_group, is_name, is_punct, lemma_prepend, name_syntax, next_is_group, next_is_name,
    next_is_punct, parse_list_separator, parse_name, parse_punct, parse_type, prepend, punct_syntax,
    separator_syntax, type_syntax,
};
use crate::text::join3;
use crate::token::{stream_trees, Delimiter, Ident, Token, TreeView};
use crate::views::{
    field_list, node_list, node_view, variant_list, FieldView, NodeView, VariantView,
};
use vstd::prelude::*;

verus! {

/// The mathematical value of a list that was read.
pub open spec fn fields_read(result: Result<Vec<FieldDef>, Message>) -> Result<
    Seq<FieldView>,
    MessageView,
> {
    match result {
        Ok(fields) => Ok(field_list(fields@)),
        Err(message) => Err(message@),
    }
}

/// The mathematical value of a list that was read.
pub open spec fn variants_read(result: Result<Vec<VariantDef>, Message>) -> Result<
    Seq<VariantView>,
    MessageView,
> {
    match result {
        Ok(variants) => Ok(variant_list(variants@)),
        Err(message) => Err(message@),
    }
}

/// The mathematical value of a list that was read.
pub open spec fn nodes_read(result: Result<Vec<StateNode>, Message>) -> Result<
    Seq<NodeView>,
    MessageView,
> {
    match result {
        Ok(nodes) => Ok(node_list(nodes@)),
        Err(message) => Err(message@),
    }
}

/// The fields `name: Type, ...` from a position to the end.
pub open spec fn fields_syntax(
    tokens: Seq<Token>,
    source: Seq<TreeView>,
    at: int,
    end: proc_macro2::Span,
) -> Result<Seq<FieldView>, MessageView>
    decreases tokens.len() - at,
{
    if at >= tokens.len() {
        Ok(Seq::empty())
    } else {
        match name_syntax(tokens, at, end) {
            Err(message) => Err(message),
            Ok((name, colon)) => match punct_syntax(tokens, colon, end, ':', "expected `:`"@) {
                Err(message) => Err(message),
                Ok(start) => match type_syntax(tokens, source, start, end) {
                    Err(message) => Err(message),
                    Ok((ty, comma)) => match separator_syntax(tokens, comma, end, "field"@) {
                        Err(message) => Err(message),
                        Ok(next) => prepend(
                            seq![FieldView { name, ty }],
                            fields_syntax(tokens, source, next, end),
                        ),
                    },
                },
            },
        }
    }
}

/// The payload fields in the braces at a position; none where there are no braces.
pub open spec fn payload_syntax(tokens: Seq<Token>, at: int) -> Result<Seq<FieldView>, MessageView> {
    if is_group(tokens, at, Delimiter::Brace) {
        fields_syntax(
            tokens[at]->Group_1@,
            stream_trees(tokens[at]->Group_4),
            0,
            tokens[at]->Group_3,
        )
    } else {
        Ok(Seq::empty())
    }
}

/// The position behind the braces at a position; the same one where there are no braces.
pub open spec fn behind_braces(tokens: Seq<Token>, at: int) -> int {
    if is_group(tokens, at, Delimiter::Brace) {
        at + 1
    } else {
        at
    }
}

/// The events from a position to the end.
pub open spec fn variants_syntax(tokens: Seq<Token>, at: int, end: proc_macro2::Span) -> Result<
    Seq<VariantView>,
    MessageView,
>
    decreases tokens.len() - at,
{
    if at >= tokens.len() {
        Ok(Seq::empty())
    } else {
        match name_syntax(tokens, at, end) {
            Err(message) => Err(message),
            Ok((name, body)) => match payload_syntax(tokens, body) {
                Err(message) => Err(message),
                Ok(fields) => match separator_syntax(
                    tokens,
                    behind_braces(tokens, body),
                    end,
                    "variant"@,
                ) {
                    Err(message) => Err(message),
                    Ok(next) => prepend(
                        seq![VariantView { name, fields }],
                        variants_syntax(tokens, next, end),
                    ),
                },
            },
        }
    }
}

/// Whether the tokens in braces behind a state declare fields, not child states.
pub open spec fn starts_like_fields(tokens: Seq<Token>) -> bool {
    is_name(tokens, 0) && is_punct(tokens, 1, ':')
}

/// The fields or the child states in the braces behind the name of a state.
pub open spec fn state_body_syntax(tokens: Seq<Token>, at: int, name: Ident) -> Result<
    (Seq<FieldView>, Seq<NodeView>),
    MessageView,
>
    decreases tokens, tokens.len() - at,
{
    if is_group(tokens, at, Delimiter::Brace) {
        let inner = tokens[at]->Group_1@;
        let close = tokens[at]->Group_3;
        if inner.len() == 0 {
            Err(
                MessageView {
                    span: name.span,
                    text: "state `"@ + name.spelled()
                        + "` uses empty braces; remove them for a leaf or declare fields or child states"@,
                    failed: None,
                },
            )
        } else if starts_like_fields(inner) {
            match fields_syntax(inner, stream_trees(tokens[at]->Group_4), 0, close) {
                Err(message) => Err(message),
                Ok(fields) => Ok((fields, Seq::empty())),
            }
        } else {
            match nodes_syntax(inner, 0, close) {
                Err(message) => Err(message),
                Ok(children) => Ok((Seq::empty(), children)),
            }
        }
    } else {
        Ok((Seq::empty(), Seq::empty()))
    }
}

/// The position of the name of a state: behind the mark of an initial one.
pub open spec fn behind_mark(tokens: Seq<Token>, at: int) -> int {
    if is_punct(tokens, at, '*') {
        at + 1
    } else {
        at
    }
}

/// The states from a position to the end.
pub open spec fn nodes_syntax(tokens: Seq<Token>, at: int, end: proc_macro2::Span) -> Result<
    Seq<NodeView>,
    MessageView,
>
    decreases tokens, tokens.len() - at,
{
    if at >= tokens.len() {
        Ok(Seq::empty())
    } else {
        match name_syntax(tokens, behind_mark(tokens, at), end) {
            Err(message) => Err(message),
            Ok((name, body)) => match state_body_syntax(tokens, body, name) {
                Err(message) => Err(message),
                Ok((fields, children)) => match separator_syntax(
                    tokens,
                    behind_braces(tokens, body),
                    end,
                    "state"@,
                ) {
                    Err(message) => Err(message),
                    Ok(next) => prepend(
                        seq![
                            NodeView {
                                variant: VariantView { name, fields },
                                initial: is_punct(tokens, at, '*'),
                                children,
                            },
                        ],
                        nodes_syntax(tokens, next, end),
                    ),
                },
            },
        }
    }
}

/// Reads the fields from the start of a group to its end.
fn parse_fields(
    tokens: &Vec<Token>,
    source: &proc_macro2::TokenStream,
    end: proc_macro2::Span,
) -> (result: Result<Vec<FieldDef>, Message>)
    ensures
        fields_read(result) == fields_syntax(tokens@, stream_trees(*source), 0, end),
{
    let mut fields: Vec<FieldDef> = Vec::new();
    let mut at: usize = 0;
    let ghost whole = fields_syntax(tokens@, stream_trees(*source), 0, end);
    proof {
        assert(field_list(fields@) =~= Seq::empty());
        if let Ok(items) = whole {
            assert(Seq::<FieldView>::empty() + items =~= items);
        }
    }
    while at < tokens.len()
        invariant
            at <= tokens@.len(),
            whole == fields_syntax(tokens@, stream_trees(*source), 0, end),
            whole == prepend(field_list(fields@), fields_syntax(tokens@, stream_trees(*source), at as int, end)),
        decreases tokens@.len() - at,
    {
        let (name, colon) = match parse_name(tokens, at, end) {
            Ok(found) => found,
            Err(message) => return Err(message),
        };
        let start = match parse_punct(tokens, colon, end, ':', "expected `:`") {
            Ok(found) => found,
            Err(message) => return Err(message),
        };
        let (ty, comma) = match parse_type(tokens, source, start, end) {
            Ok(found) => found,
            Err(message) => return Err(message),
        };
        let next = match parse_list_separator(tokens, comma, end, "field") {
            Ok(found) => found,
            Err(message) => return Err(message),
        };
        let field = FieldDef { name, ty };
        proof {
            lemma_prepend(
                field_list(fields@),
                field@,
                fields_syntax(tokens@, stream_trees(*source), next as int, end),
            );
            assert(field_list(fields@.push(field)) =~= field_list(fields@).push(field@));
        }
        fields.push(field);
        at = next;
    }
    proof {
        assert(field_list(fields@) + Seq::<FieldView>::empty() =~= field_list(fields@));
    }
    Ok(fields)
}

/// Reads the payload fields in the braces at a position.
fn parse_payload(tokens: &Vec<Token>, at: usize) -> (result: Result<Vec<FieldDef>, Message>)
    ensures
        fields_read(result) == payload_syntax(tokens@, at as int),
{
    if next_is_group(tokens, at, Delimiter::Brace) {
        if let Token::Group(_, inner, _, close, source) = &tokens[at] {
            return parse_fields(inner, source, *close);
        }
    }
    let fields: Vec<FieldDef> = Vec::new();
    assert(field_list(fields@) =~= Seq::empty());
    Ok(fields)
}

/// Reads the events from the start of a group to its end.
pub(crate) fn parse_variants(tokens: &Vec<Token>, end: proc_macro2::Span) -> (result: Result<
    Vec<VariantDef>,
    Message,
>)
    ensures
        variants_read(result) == variants_syntax(tokens@, 0, end),
{
    let mut variants: Vec<VariantDef> = Vec::new();
    let mut at: usize = 0;
    let ghost whole = variants_syntax(tokens@, 0, end);
    proof {
        assert(variant_list(variants@) =~= Seq::empty());
        if let Ok(items) = whole {
            assert(Seq::<VariantView>::empty() + items =~= items);
        }
    }
    while at < tokens.len()
        invariant
            at <= tokens@.len(),
            whole == variants_syntax(tokens@, 0, end),
            whole == prepend(variant_list(variants@), variants_syntax(tokens@, at as int, end)),
        decreases tokens@.len() - at,
    {
        let (name, body) = match parse_name(tokens, at, end) {
            Ok(found) => found,
            Err(message) => return Err(message),
        };
        let fields = match parse_payload(tokens, body) {
            Ok(found) => found,
            Err(message) => return Err(message),
        };
        let comma = if next_is_group(tokens, body, Delimiter::Brace) {
            body + 1
        } else {
            body
        };
        let next = match parse_list_separator(tokens, comma, end, "variant") {
            Ok(found) => found,
            Err(message) => return Err(message),
        };
        let variant = VariantDef { name, fields };
        proof {
            lemma_prepend(
                variant_list(variants@),
                variant@,
                variants_syntax(tokens@, next as int, end),
            );
            assert(variant_list(variants@.push(variant)) =~= variant_list(variants@).push(
                variant@,
            ));
        }
        variants.push(variant);
        at = next;
    }
    proof {
        assert(variant_list(variants@) + Seq::<VariantView>::empty() =~= variant_list(variants@));
    }
    Ok(variants)
}

/// Whether the tokens in braces behind a state declare fields, not child states.
fn looks_like_fields(tokens: &Vec<Token>) -> (found: bool)
    ensures
        found == starts_like_fields(tokens@),
{
    next_is_name(tokens, 0) && next_is_punct(tokens, 1, ':')
}

/// Reads the states from the start of a group to its end.
pub(crate) fn parse_states(tokens: &Vec<Token>, end: proc_macro2::Span) -> (result: Result<
    Vec<StateNode>,
    Message,
>)
    ensures
        nodes_read(result) == nodes_syntax(tokens@, 0, end),
    decreases tokens@,
{
    let mut nodes: Vec<StateNode> = Vec::new();
    let mut at: usize = 0;
    let ghost whole = nodes_syntax(tokens@, 0, end);
    proof {
        assert(node_list(nodes@) =~= Seq::empty());
        if let Ok(items) = whole {
            assert(Seq::<NodeView>::empty() + items =~= items);
        }
    }
    while at < tokens.len()
        invariant
            at <= tokens@.len(),
            whole == nodes_syntax(tokens@, 0, end),
            whole == prepend(node_list(nodes@), nodes_syntax(tokens@, at as int, end)),
        decreases tokens@.len() - at,
    {
        let initial = next_is_punct(tokens, at, '*');
        let mark: usize = if initial {
            at + 1
        } else {
            at
        };
        let (name, body) = match parse_name(tokens, mark, end) {
            Ok(found) => found,
            Err(message) => return Err(message),
        };
        let mut fields: Vec<FieldDef> = Vec::new();
        let mut children: Vec<StateNode> = Vec::new();
        let mut comma: usize = body;
        if next_is_group(tokens, body, Delimiter::Brace) {
            comma = body + 1;
            if let Token::Group(_, inner, _, close, source) = &tokens[body] {
                if inner.len() == 0 {
                    let spelled = name.spelling();
                    return Err(
                        Message {
                            span: name.span,
                            text: join3(
                                "state `",
                                spelled.as_str(),
                                "` uses empty braces; remove them for a leaf or declare fields or child states",
                            ),
                            failure: None,
                        },
                    );
                }
                if looks_like_fields(inner) {
                    match parse_fields(inner, source, *close) {
                        Ok(found) => {
                            fields = found;
                        },
                        Err(message) => return Err(message),
                    }
                } else {
                    match parse_states(inner, *close) {
                        Ok(found) => {
                            children = found;
                        },
                        Err(message) => return Err(message),
                    }
                }
            }
        }
        proof {
            assert(field_list(Seq::<FieldDef>::empty()) =~= Seq::empty());
            assert(node_list(Seq::<StateNode>::empty()) =~= Seq::empty());
            assert(state_body_syntax(tokens@, body as int, name) == Ok::<
                (Seq<FieldView>, Seq<NodeView>),
                MessageView,
            >((field_list(fields@), node_list(children@))));
        }
        let next = match parse_list_separator(tokens, comma, end, "state") {
            Ok(found) => found,
            Err(message) => return Err(message),
        };
        let node = StateNode { variant: VariantDef { name, fields }, initial, children };
        proof {
            lemma_prepend(
                node_list(nodes@),
                node_view(node),
                nodes_syntax(tokens@, next as int, end),
            );
            assert(nodes@.push(node).drop_last() =~= nodes@);
        }
        nodes.push(node);
        at = next;
    }
    proof {
        assert(node_list(nodes@) + Seq::<NodeView>::empty() =~= node_list(nodes@));
    }
    Ok(nodes)
}

} // verus!
