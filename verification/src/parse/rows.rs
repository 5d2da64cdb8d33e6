//! Reading the rows of the transition table.
use crate::error::{Message, MessageView};
use crate::model::{
    BindingPattern, Callable, Row, RowEvent, RowOutcome, RowSource, TargetField, TargetState,
};
use crate::parse::cursor::{
    arrow_syntax, fail, failure, is_group, is_name, is_pair, is_punct, is_word, lemma_prepend,
    name_syntax, next_is_group, next_is_name, next_is_pair, next_is_punct, next_is_word,
    parse_arrow, parse_list_separator, parse_name, parse_punct, place, place_at, prepend,
    punct_syntax, read, separator_syntax,
};
use crate::token::{Delimiter, Ident, Token};
use crate::views::{call_option, row_list, CallView, OutcomeView, PatternView, RowView, TargetView};
use vstd::prelude::*;

verus! {

/// The names from a position to the end.
pub open spec fn names_syntax(
    tokens: Seq<Token>,
    at: int,
    end: proc_macro2::Span,
    item: Seq<char>,
) -> Result<Seq<Ident>, MessageView>
    decreases tokens.len() - at,
{
    if at >= tokens.len() {
        Ok(Seq::empty())
    } else {
        match name_syntax(tokens, at, end) {
            Err(message) => Err(message),
            Ok((name, comma)) => match separator_syntax(tokens, comma, end, item) {
                Err(message) => Err(message),
                Ok(next) => prepend(seq![name], names_syntax(tokens, next, end, item)),
            },
        }
    }
}

/// The position of a `..` in a pattern: behind the names from a position on, each with its comma.
/// `None` where the pattern ends without.
pub open spec fn rest_position(tokens: Seq<Token>, at: int, end: proc_macro2::Span) -> Option<int>
    decreases tokens.len() - at,
{
    if at >= tokens.len() {
        None
    } else if is_pair(tokens, at, '.', '.') {
        Some(at)
    } else {
        match name_syntax(tokens, at, end) {
            Err(_) => None,
            Ok((_, comma)) => match separator_syntax(tokens, comma, end, "pattern field"@) {
                Err(_) => None,
                Ok(next) => rest_position(tokens, next, end),
            },
        }
    }
}

/// The fields of a pattern from a position to its end or to its `..`.
pub open spec fn pattern_names_syntax(tokens: Seq<Token>, at: int, end: proc_macro2::Span) -> Result<
    Seq<Ident>,
    MessageView,
>
    decreases tokens.len() - at,
{
    if at >= tokens.len() {
        Ok(Seq::empty())
    } else if is_pair(tokens, at, '.', '.') {
        let behind = if is_punct(tokens, at + 2, ',') {
            at + 3
        } else {
            at + 2
        };
        if behind < tokens.len() {
            Err(failure(tokens, behind, end, "`..` must be the final pattern item"@))
        } else {
            Ok(Seq::empty())
        }
    } else {
        match name_syntax(tokens, at, end) {
            Err(message) => Err(message),
            Ok((name, comma)) => match separator_syntax(tokens, comma, end, "pattern field"@) {
                Err(message) => Err(message),
                Ok(next) => prepend(seq![name], pattern_names_syntax(tokens, next, end)),
            },
        }
    }
}

/// A state or an event with the fields that the row binds, and the position behind it.
pub open spec fn pattern_syntax(tokens: Seq<Token>, at: int, end: proc_macro2::Span) -> Result<
    (PatternView, int),
    MessageView,
> {
    match name_syntax(tokens, at, end) {
        Err(message) => Err(message),
        Ok((name, body)) => if is_group(tokens, body, Delimiter::Brace) {
            let inner = tokens[body]->Group_1@;
            let close = tokens[body]->Group_3;
            match pattern_names_syntax(inner, 0, close) {
                Err(message) => Err(message),
                Ok(fields) => Ok(
                    (
                        PatternView {
                            name,
                            fields,
                            rest: rest_position(inner, 0, close) is Some,
                            explicit_fields: true,
                        },
                        body + 1,
                    ),
                ),
            }
        } else {
            Ok(
                (
                    PatternView {
                        name,
                        fields: Seq::empty(),
                        rest: false,
                        explicit_fields: false,
                    },
                    body,
                ),
            )
        },
    }
}

/// A pattern, or `_` for any, and the position behind it.
pub open spec fn place_syntax(tokens: Seq<Token>, at: int, end: proc_macro2::Span) -> Result<
    (Option<PatternView>, int),
    MessageView,
> {
    if is_word(tokens, at, "_"@) {
        Ok((None, at + 1))
    } else {
        match pattern_syntax(tokens, at, end) {
            Err(message) => Err(message),
            Ok((pattern, next)) => Ok((Some(pattern), next)),
        }
    }
}

/// The use of a callback, and the position behind it.
pub open spec fn call_syntax(tokens: Seq<Token>, at: int, end: proc_macro2::Span) -> Result<
    (CallView, int),
    MessageView,
> {
    let is_async = is_word(tokens, at, "async"@);
    match name_syntax(
        tokens,
        if is_async {
            at + 1
        } else {
            at
        },
        end,
    ) {
        Err(message) => Err(message),
        Ok((name, next)) => if is_group(tokens, next, Delimiter::Parenthesis) {
            match names_syntax(
                tokens[next]->Group_1@,
                0,
                tokens[next]->Group_3,
                "callback argument"@,
            ) {
                Err(message) => Err(message),
                Ok(arguments) => Ok((CallView { is_async, name, arguments }, next + 1)),
            }
        } else {
            Ok((CallView { is_async, name, arguments: Seq::empty() }, next))
        },
    }
}

/// The guard in square brackets at a position, where there is one, and the position behind it.
pub open spec fn guard_syntax(tokens: Seq<Token>, at: int) -> Result<
    (Option<CallView>, int),
    MessageView,
> {
    if is_group(tokens, at, Delimiter::Bracket) {
        let inner = tokens[at]->Group_1@;
        let close = tokens[at]->Group_3;
        match call_syntax(inner, 0, close) {
            Err(message) => Err(message),
            Ok((call, next)) => if next < inner.len() {
                Err(failure(inner, next, close, "unexpected tokens after guard"@))
            } else {
                Ok((Some(call), at + 1))
            },
        }
    } else {
        Ok((None, at))
    }
}

/// The effect behind a slash at a position, where there is one, and the position behind it.
pub open spec fn effect_syntax(tokens: Seq<Token>, at: int, end: proc_macro2::Span) -> Result<
    (Option<CallView>, int),
    MessageView,
> {
    if is_punct(tokens, at, '/') {
        match call_syntax(tokens, at + 1, end) {
            Err(message) => Err(message),
            Ok((call, next)) => Ok((Some(call), next)),
        }
    } else {
        Ok((None, at))
    }
}

/// The fields of a target from a position to the end: `name`, or `name: binding`.
pub open spec fn target_fields_syntax(tokens: Seq<Token>, at: int, end: proc_macro2::Span) -> Result<
    Seq<TargetField>,
    MessageView,
>
    decreases tokens.len() - at,
{
    if at >= tokens.len() {
        Ok(Seq::empty())
    } else {
        match name_syntax(tokens, at, end) {
            Err(message) => Err(message),
            Ok((name, colon)) => {
                let bound = if is_punct(tokens, colon, ':') {
                    name_syntax(tokens, colon + 1, end)
                } else {
                    Ok((name, colon))
                };
                match bound {
                    Err(message) => Err(message),
                    Ok((binding, comma)) => match separator_syntax(
                        tokens,
                        comma,
                        end,
                        "target field"@,
                    ) {
                        Err(message) => Err(message),
                        Ok(next) => prepend(
                            seq![TargetField { name, binding }],
                            target_fields_syntax(tokens, next, end),
                        ),
                    },
                }
            },
        }
    }
}

/// A target state, and the position behind it.
pub open spec fn target_syntax(tokens: Seq<Token>, at: int, end: proc_macro2::Span) -> Result<
    (TargetView, int),
    MessageView,
> {
    match name_syntax(tokens, at, end) {
        Err(message) => Err(message),
        Ok((name, body)) => if is_group(tokens, body, Delimiter::Brace) {
            match target_fields_syntax(tokens[body]->Group_1@, 0, tokens[body]->Group_3) {
                Err(message) => Err(message),
                Ok(fields) => Ok((TargetView { name, fields, explicit_fields: true }, body + 1)),
            }
        } else {
            Ok((TargetView { name, fields: Seq::empty(), explicit_fields: false }, body))
        },
    }
}

/// A rejection behind its word, and the position behind it.
pub open spec fn rejection_syntax(
    tokens: Seq<Token>,
    at: int,
    end: proc_macro2::Span,
    label: Option<Ident>,
    has_effect: bool,
) -> Result<(OutcomeView, int), MessageView> {
    match name_syntax(tokens, at, end) {
        Err(message) => Err(message),
        Ok((reason, next)) => match label {
            Some(label) => Err(
                MessageView {
                    span: label.span,
                    text: "rejection rows do not have transition labels"@,
                    failed: None,
                },
            ),
            None => if has_effect {
                Err(failure(tokens, next, end, "rejection rows cannot emit an effect"@))
            } else {
                Ok((OutcomeView::Reject(reason), next))
            },
        },
    }
}

/// What a row does, and the position behind it.
pub open spec fn outcome_syntax(
    tokens: Seq<Token>,
    at: int,
    end: proc_macro2::Span,
    label: Option<Ident>,
    has_effect: bool,
) -> Result<(OutcomeView, int), MessageView> {
    if is_name(tokens, at) {
        if is_word(tokens, at, "reject"@) {
            rejection_syntax(tokens, at + 1, end, label, has_effect)
        } else {
            match label {
                None => Err(
                    failure(
                        tokens,
                        at,
                        end,
                        "accepted transition rows require a `Name:` label"@,
                    ),
                ),
                Some(label) => match target_syntax(tokens, at, end) {
                    Err(message) => Err(message),
                    Ok((target, next)) => Ok((OutcomeView::Transition(label, Some(target)), next)),
                },
            }
        }
    } else if is_word(tokens, at, "_"@) {
        match label {
            None => Err(
                failure(tokens, at + 1, end, "accepted stay rows require a `Name:` label"@),
            ),
            Some(label) => Ok((OutcomeView::Transition(label, None), at + 1)),
        }
    } else {
        Err(failure(tokens, at, end, "expected a target state, `_`, or `reject Reason`"@))
    }
}

/// Whether a label and its colon are next.
pub open spec fn is_labelled(tokens: Seq<Token>, at: int) -> bool {
    is_name(tokens, at) && is_punct(tokens, at + 1, ':')
}

/// A row, and the position behind it.
pub open spec fn row_syntax(tokens: Seq<Token>, at: int, end: proc_macro2::Span) -> Result<
    (RowView, int),
    MessageView,
> {
    let label = if is_labelled(tokens, at) {
        Some(tokens[at]->Ident_0)
    } else {
        None
    };
    let start = if is_labelled(tokens, at) {
        at + 2
    } else {
        at
    };
    match place_syntax(tokens, start, end) {
        Err(message) => Err(message),
        Ok((source, plus)) => match punct_syntax(tokens, plus, end, '+', "expected `+`"@) {
            Err(message) => Err(message),
            Ok(second) => match place_syntax(tokens, second, end) {
                Err(message) => Err(message),
                Ok((event, bracket)) => match guard_syntax(tokens, bracket) {
                    Err(message) => Err(message),
                    Ok((guard, slash)) => match effect_syntax(tokens, slash, end) {
                        Err(message) => Err(message),
                        Ok((effect, arrow)) => match arrow_syntax(tokens, arrow, end) {
                            Err(message) => Err(message),
                            Ok(last) => match outcome_syntax(
                                tokens,
                                last,
                                end,
                                label,
                                effect is Some,
                            ) {
                                Err(message) => Err(message),
                                Ok((outcome, next)) => Ok(
                                    (
                                        RowView {
                                            source,
                                            event,
                                            guard,
                                            effect,
                                            outcome,
                                            span: place(tokens, at, end),
                                        },
                                        next,
                                    ),
                                ),
                            },
                        },
                    },
                },
            },
        },
    }
}

/// A row takes at least one token.
pub proof fn lemma_row_advances(tokens: Seq<Token>, at: int, end: proc_macro2::Span)
    requires
        0 <= at,
    ensures
        row_syntax(tokens, at, end) matches Ok((_, next)) ==> at < next <= tokens.len(),
{
}

/// The rows from a position to the end.
pub open spec fn rows_syntax(tokens: Seq<Token>, at: int, end: proc_macro2::Span) -> Result<
    Seq<RowView>,
    MessageView,
>
    decreases tokens.len() - at,
{
    if at < 0 || at >= tokens.len() {
        Ok(Seq::empty())
    } else {
        proof {
            lemma_row_advances(tokens, at, end);
        }
        match row_syntax(tokens, at, end) {
            Err(message) => Err(message),
            Ok((row, comma)) => match separator_syntax(tokens, comma, end, "transition"@) {
                Err(message) => Err(message),
                Ok(next) => prepend(seq![row], rows_syntax(tokens, next, end)),
            },
        }
    }
}

/// The mathematical value of a list of names that was read.
pub open spec fn names_read(result: Result<Vec<Ident>, Message>) -> Result<
    Seq<Ident>,
    MessageView,
> {
    match result {
        Ok(names) => Ok(names@),
        Err(message) => Err(message@),
    }
}

/// The mathematical value of the fields of a target that were read.
pub open spec fn target_fields_read(result: Result<Vec<TargetField>, Message>) -> Result<
    Seq<TargetField>,
    MessageView,
> {
    match result {
        Ok(fields) => Ok(fields@),
        Err(message) => Err(message@),
    }
}

/// The mathematical value of the rows that were read.
pub open spec fn rows_read(result: Result<Vec<Row>, Message>) -> Result<
    Seq<RowView>,
    MessageView,
> {
    match result {
        Ok(rows) => Ok(row_list(rows@)),
        Err(message) => Err(message@),
    }
}

/// The mathematical value of a pattern or `_` that was read.
pub open spec fn place_read(result: Result<(Option<BindingPattern>, usize), Message>) -> Result<
    (Option<PatternView>, int),
    MessageView,
> {
    match result {
        Ok((Some(pattern), next)) => Ok((Some(pattern@), next as int)),
        Ok((None, next)) => Ok((None, next as int)),
        Err(message) => Err(message@),
    }
}

/// The mathematical value of the use of a callback that was read.
pub open spec fn call_read(result: Result<(Option<Callable>, usize), Message>) -> Result<
    (Option<CallView>, int),
    MessageView,
> {
    match result {
        Ok((call, next)) => Ok((call_option(call), next as int)),
        Err(message) => Err(message@),
    }
}

fn parse_names(tokens: &Vec<Token>, end: proc_macro2::Span, item: &str) -> (result: Result<
    Vec<Ident>,
    Message,
>)
    ensures
        names_read(result) == names_syntax(tokens@, 0, end, item@),
{
    let mut names: Vec<Ident> = Vec::new();
    let mut at: usize = 0;
    let ghost whole = names_syntax(tokens@, 0, end, item@);
    proof {
        if let Ok(items) = whole {
            assert(Seq::<Ident>::empty() + items =~= items);
        }
    }
    while at < tokens.len()
        invariant
            at <= tokens@.len(),
            whole == names_syntax(tokens@, 0, end, item@),
            whole == prepend(names@, names_syntax(tokens@, at as int, end, item@)),
        decreases tokens@.len() - at,
    {
        let (name, comma) = match parse_name(tokens, at, end) {
            Ok(found) => found,
            Err(message) => return Err(message),
        };
        let next = match parse_list_separator(tokens, comma, end, item) {
            Ok(found) => found,
            Err(message) => return Err(message),
        };
        proof {
            lemma_prepend(names@, name, names_syntax(tokens@, next as int, end, item@));
        }
        names.push(name);
        at = next;
    }
    proof {
        assert(names@ + Seq::<Ident>::empty() =~= names@);
    }
    Ok(names)
}

/// Reads the fields of a pattern, and whether it ends with `..`.
fn parse_pattern_fields(tokens: &Vec<Token>, end: proc_macro2::Span) -> (result: Result<
    (Vec<Ident>, bool),
    Message,
>)
    ensures
        match result {
            Ok((names, rest)) => pattern_names_syntax(tokens@, 0, end) == Ok::<
                Seq<Ident>,
                MessageView,
            >(names@) && rest == (rest_position(tokens@, 0, end) is Some),
            Err(message) => pattern_names_syntax(tokens@, 0, end) == Err::<
                Seq<Ident>,
                MessageView,
            >(message@),
        },
{
    let mut names: Vec<Ident> = Vec::new();
    let mut at: usize = 0;
    let ghost whole = pattern_names_syntax(tokens@, 0, end);
    proof {
        if let Ok(items) = whole {
            assert(Seq::<Ident>::empty() + items =~= items);
        }
    }
    while at < tokens.len()
        invariant
            at <= tokens@.len(),
            whole == pattern_names_syntax(tokens@, 0, end),
            whole == prepend(names@, pattern_names_syntax(tokens@, at as int, end)),
            rest_position(tokens@, 0, end) == rest_position(tokens@, at as int, end),
        decreases tokens@.len() - at,
    {
        if next_is_pair(tokens, at, '.', '.') {
            let dots: usize = at + 2;
            let behind: usize = if next_is_punct(tokens, dots, ',') {
                dots + 1
            } else {
                dots
            };
            if behind < tokens.len() {
                return Err(fail(tokens, behind, end, "`..` must be the final pattern item"));
            }
            proof {
                assert(names@ + Seq::<Ident>::empty() =~= names@);
            }
            return Ok((names, true));
        }
        let (name, comma) = match parse_name(tokens, at, end) {
            Ok(found) => found,
            Err(message) => return Err(message),
        };
        let next = match parse_list_separator(tokens, comma, end, "pattern field") {
            Ok(found) => found,
            Err(message) => return Err(message),
        };
        proof {
            lemma_prepend(names@, name, pattern_names_syntax(tokens@, next as int, end));
        }
        names.push(name);
        at = next;
    }
    proof {
        assert(names@ + Seq::<Ident>::empty() =~= names@);
    }
    Ok((names, false))
}

/// Reads a state or an event with the fields that the row binds.
fn parse_binding_pattern(tokens: &Vec<Token>, at: usize, end: proc_macro2::Span) -> (result: Result<
    (BindingPattern, usize),
    Message,
>)
    ensures
        read(result) == pattern_syntax(tokens@, at as int, end),
{
    let (name, body) = match parse_name(tokens, at, end) {
        Ok(found) => found,
        Err(message) => return Err(message),
    };
    if next_is_group(tokens, body, Delimiter::Brace) {
        if let Token::Group(_, inner, _, close, _) = &tokens[body] {
            return match parse_pattern_fields(inner, *close) {
                Ok((fields, rest)) => Ok(
                    (BindingPattern { name, fields, rest, explicit_fields: true }, body + 1),
                ),
                Err(message) => Err(message),
            };
        }
    }
    let pattern = BindingPattern { name, fields: Vec::new(), rest: false, explicit_fields: false };
    assert(pattern@.fields =~= Seq::empty());
    Ok((pattern, body))
}

/// Reads a pattern, or `_` for any.
fn parse_place(tokens: &Vec<Token>, at: usize, end: proc_macro2::Span) -> (result: Result<
    (Option<BindingPattern>, usize),
    Message,
>)
    ensures
        place_read(result) == place_syntax(tokens@, at as int, end),
{
    if next_is_word(tokens, at, "_") {
        Ok((None, at + 1))
    } else {
        match parse_binding_pattern(tokens, at, end) {
            Ok((pattern, next)) => Ok((Some(pattern), next)),
            Err(message) => Err(message),
        }
    }
}

/// Reads the use of a callback.
fn parse_callable(tokens: &Vec<Token>, at: usize, end: proc_macro2::Span) -> (result: Result<
    (Callable, usize),
    Message,
>)
    ensures
        read(result) == call_syntax(tokens@, at as int, end),
{
    let is_async = next_is_word(tokens, at, "async");
    let start: usize = if is_async {
        at + 1
    } else {
        at
    };
    let (name, next) = match parse_name(tokens, start, end) {
        Ok(found) => found,
        Err(message) => return Err(message),
    };
    if next_is_group(tokens, next, Delimiter::Parenthesis) {
        if let Token::Group(_, inner, _, close, _) = &tokens[next] {
            return match parse_names(inner, *close, "callback argument") {
                Ok(arguments) => Ok((Callable { is_async, name, arguments }, next + 1)),
                Err(message) => Err(message),
            };
        }
    }
    let callable = Callable { is_async, name, arguments: Vec::new() };
    assert(callable@.arguments =~= Seq::empty());
    Ok((callable, next))
}

fn parse_guard(tokens: &Vec<Token>, at: usize) -> (result: Result<
    (Option<Callable>, usize),
    Message,
>)
    ensures
        call_read(result) == guard_syntax(tokens@, at as int),
{
    if next_is_group(tokens, at, Delimiter::Bracket) {
        if let Token::Group(_, inner, _, close, _) = &tokens[at] {
            return match parse_callable(inner, 0, *close) {
                Ok((callable, next)) => {
                    if next < inner.len() {
                        Err(fail(inner, next, *close, "unexpected tokens after guard"))
                    } else {
                        Ok((Some(callable), at + 1))
                    }
                },
                Err(message) => Err(message),
            };
        }
    }
    Ok((None, at))
}

fn parse_effect(tokens: &Vec<Token>, at: usize, end: proc_macro2::Span) -> (result: Result<
    (Option<Callable>, usize),
    Message,
>)
    ensures
        call_read(result) == effect_syntax(tokens@, at as int, end),
{
    if next_is_punct(tokens, at, '/') {
        match parse_callable(tokens, at + 1, end) {
            Ok((callable, next)) => Ok((Some(callable), next)),
            Err(message) => Err(message),
        }
    } else {
        Ok((None, at))
    }
}

fn parse_target_fields(tokens: &Vec<Token>, end: proc_macro2::Span) -> (result: Result<
    Vec<TargetField>,
    Message,
>)
    ensures
        target_fields_read(result) == target_fields_syntax(tokens@, 0, end),
{
    let mut fields: Vec<TargetField> = Vec::new();
    let mut at: usize = 0;
    let ghost whole = target_fields_syntax(tokens@, 0, end);
    proof {
        if let Ok(items) = whole {
            assert(Seq::<TargetField>::empty() + items =~= items);
        }
    }
    while at < tokens.len()
        invariant
            at <= tokens@.len(),
            whole == target_fields_syntax(tokens@, 0, end),
            whole == prepend(fields@, target_fields_syntax(tokens@, at as int, end)),
        decreases tokens@.len() - at,
    {
        let (name, colon) = match parse_name(tokens, at, end) {
            Ok(found) => found,
            Err(message) => return Err(message),
        };
        let (binding, comma) = if next_is_punct(tokens, colon, ':') {
            match parse_name(tokens, colon + 1, end) {
                Ok(found) => found,
                Err(message) => return Err(message),
            }
        } else {
            (name.clone(), colon)
        };
        let next = match parse_list_separator(tokens, comma, end, "target field") {
            Ok(found) => found,
            Err(message) => return Err(message),
        };
        let field = TargetField { name, binding };
        proof {
            lemma_prepend(fields@, field, target_fields_syntax(tokens@, next as int, end));
        }
        fields.push(field);
        at = next;
    }
    proof {
        assert(fields@ + Seq::<TargetField>::empty() =~= fields@);
    }
    Ok(fields)
}

/// Reads a target state.
fn parse_target(tokens: &Vec<Token>, at: usize, end: proc_macro2::Span) -> (result: Result<
    (TargetState, usize),
    Message,
>)
    ensures
        read(result) == target_syntax(tokens@, at as int, end),
{
    let (name, body) = match parse_name(tokens, at, end) {
        Ok(found) => found,
        Err(message) => return Err(message),
    };
    if next_is_group(tokens, body, Delimiter::Brace) {
        if let Token::Group(_, inner, _, close, _) = &tokens[body] {
            return match parse_target_fields(inner, *close) {
                Ok(fields) => Ok((TargetState { name, fields, explicit_fields: true }, body + 1)),
                Err(message) => Err(message),
            };
        }
    }
    let target = TargetState { name, fields: Vec::new(), explicit_fields: false };
    assert(target@.fields =~= Seq::empty());
    Ok((target, body))
}

/// Reads what a row does.
fn parse_outcome(
    tokens: &Vec<Token>,
    at: usize,
    end: proc_macro2::Span,
    label: Option<Ident>,
    has_effect: bool,
) -> (result: Result<(RowOutcome, usize), Message>)
    ensures
        read(result) == outcome_syntax(tokens@, at as int, end, label, has_effect),
{
    if next_is_name(tokens, at) {
        if next_is_word(tokens, at, "reject") {
            let (reason, next) = match parse_name(tokens, at + 1, end) {
                Ok(found) => found,
                Err(message) => return Err(message),
            };
            match label {
                Some(label) => Err(
                    Message {
                        span: label.span,
                        text: "rejection rows do not have transition labels".to_owned(),
                        failure: None,
                    },
                ),
                None => {
                    if has_effect {
                        Err(fail(tokens, next, end, "rejection rows cannot emit an effect"))
                    } else {
                        Ok((RowOutcome::Reject(reason), next))
                    }
                },
            }
        } else {
            match label {
                None => Err(
                    fail(tokens, at, end, "accepted transition rows require a `Name:` label"),
                ),
                Some(transition) => match parse_target(tokens, at, end) {
                    Ok((target, next)) => Ok(
                        (RowOutcome::Transition { transition, target: Some(target) }, next),
                    ),
                    Err(message) => Err(message),
                },
            }
        }
    } else if next_is_word(tokens, at, "_") {
        match label {
            None => Err(fail(tokens, at + 1, end, "accepted stay rows require a `Name:` label")),
            Some(transition) => Ok((RowOutcome::Transition { transition, target: None }, at + 1)),
        }
    } else {
        Err(fail(tokens, at, end, "expected a target state, `_`, or `reject Reason`"))
    }
}

/// Reads a row.
fn parse_row(tokens: &Vec<Token>, at: usize, end: proc_macro2::Span) -> (result: Result<
    (Row, usize),
    Message,
>)
    requires
        at < tokens@.len(),
    ensures
        read(result) == row_syntax(tokens@, at as int, end),
{
    let span = place_at(tokens, at, end);
    let mut label: Option<Ident> = None;
    let mut start: usize = at;
    if next_is_name(tokens, at) && next_is_punct(tokens, at + 1, ':') {
        if let Token::Ident(ident, _) = &tokens[at] {
            label = Some(ident.clone());
            start = at + 2;
        }
    }
    let (source, plus) = match parse_place(tokens, start, end) {
        Ok(found) => found,
        Err(message) => return Err(message),
    };
    let second = match parse_punct(tokens, plus, end, '+', "expected `+`") {
        Ok(found) => found,
        Err(message) => return Err(message),
    };
    let (event, bracket) = match parse_place(tokens, second, end) {
        Ok(found) => found,
        Err(message) => return Err(message),
    };
    let (guard, slash) = match parse_guard(tokens, bracket) {
        Ok(found) => found,
        Err(message) => return Err(message),
    };
    let (effect, arrow) = match parse_effect(tokens, slash, end) {
        Ok(found) => found,
        Err(message) => return Err(message),
    };
    let last = match parse_arrow(tokens, arrow, end) {
        Ok(found) => found,
        Err(message) => return Err(message),
    };
    let (outcome, next) = match parse_outcome(tokens, last, end, label, effect.is_some()) {
        Ok(found) => found,
        Err(message) => return Err(message),
    };
    let source = match source {
        Some(pattern) => RowSource::State(pattern),
        None => RowSource::Any,
    };
    let event = match event {
        Some(pattern) => RowEvent::Event(pattern),
        None => RowEvent::Any,
    };
    Ok((Row { source, event, guard, effect, outcome, span }, next))
}

/// Reads the rows from the start of a group to its end.
pub(crate) fn parse_rows(tokens: &Vec<Token>, end: proc_macro2::Span) -> (result: Result<
    Vec<Row>,
    Message,
>)
    ensures
        rows_read(result) == rows_syntax(tokens@, 0, end),
{
    let mut rows: Vec<Row> = Vec::new();
    let mut at: usize = 0;
    let ghost whole = rows_syntax(tokens@, 0, end);
    proof {
        assert(row_list(rows@) =~= Seq::empty());
        if let Ok(items) = whole {
            assert(Seq::<RowView>::empty() + items =~= items);
        }
    }
    while at < tokens.len()
        invariant
            at <= tokens@.len(),
            whole == rows_syntax(tokens@, 0, end),
            whole == prepend(row_list(rows@), rows_syntax(tokens@, at as int, end)),
        decreases tokens@.len() - at,
    {
        proof {
            lemma_row_advances(tokens@, at as int, end);
        }
        let (row, comma) = match parse_row(tokens, at, end) {
            Ok(found) => found,
            Err(message) => return Err(message),
        };
        let next = match parse_list_separator(tokens, comma, end, "transition") {
            Ok(found) => found,
            Err(message) => return Err(message),
        };
        proof {
            lemma_prepend(row_list(rows@), row@, rows_syntax(tokens@, next as int, end));
            assert(row_list(rows@.push(row)) =~= row_list(rows@).push(row@));
        }
        rows.push(row);
        at = next;
    }
    proof {
        assert(row_list(rows@) + Seq::<RowView>::empty() =~= row_list(rows@));
    }
    Ok(rows)
}

} // verus!
