//! Reading single tokens at a position in a sequence of tokens.
//!
//! A position is an index into the tokens of a group; `end` is the place of the bracket that
//! closes the group, where messages on a missing token point. `source` is the stream that the
//! tokens were read from: a type keeps its tokens as they stand there.
use crate::error::{Message, MessageView};
use crate::model::Type;
use crate::text::{join2, join3, same_text};
use crate::token::{
    copy_stream, count_tokens, placed, stream_behind, stream_trees, trees_behind, Delimiter, Ident,
    PlacedView, Shape, Token, TreeView,
};
use crate::types::{find_type, found_view, type_at, TypeFailure};
use crate::views::TypeView;
use std::rc::Rc;
use vstd::prelude::*;

verus! {

/// The place of a token.
pub open spec fn token_span(token: Token) -> proc_macro2::Span {
    match token {
        Token::Ident(ident, _) => ident.span,
        Token::Punct(_, _, span) => span,
        Token::Literal(_, span) => span,
        Token::Group(_, _, open, ..) => open,
    }
}

/// The place of the token at a position, or of the end.
pub open spec fn place(tokens: Seq<Token>, at: int, end: proc_macro2::Span) -> proc_macro2::Span {
    if 0 <= at < tokens.len() {
        token_span(tokens[at])
    } else {
        end
    }
}

/// The message that something else was expected at a position.
pub open spec fn failure(tokens: Seq<Token>, at: int, end: proc_macro2::Span, text: Seq<char>) -> MessageView {
    MessageView {
        span: place(tokens, at, end),
        text: if 0 <= at < tokens.len() {
            text
        } else {
            "unexpected end of input, "@ + text
        },
        failed: None,
    }
}

/// Whether a punctuation character is next.
pub open spec fn is_punct(tokens: Seq<Token>, at: int, ch: char) -> bool {
    0 <= at < tokens.len() && (tokens[at] matches Token::Punct(found, _, _) && found == ch)
}

/// Whether two punctuation characters without a space in between are next.
pub open spec fn is_pair(tokens: Seq<Token>, at: int, first: char, second: char) -> bool {
    &&& 0 <= at < tokens.len()
    &&& tokens[at] matches Token::Punct(found, true, _) && found == first
    &&& is_punct(tokens, at + 1, second)
}

/// Whether a word is next.
pub open spec fn is_word(tokens: Seq<Token>, at: int, word: Seq<char>) -> bool {
    0 <= at < tokens.len() && (tokens[at] matches Token::Ident(ident, _) && ident.spelled() == word)
}

/// Whether an identifier that is no keyword is next.
pub open spec fn is_name(tokens: Seq<Token>, at: int) -> bool {
    0 <= at < tokens.len() && (tokens[at] matches Token::Ident(_, usable) && usable)
}

/// Whether a group in the given brackets is next.
pub open spec fn is_group(tokens: Seq<Token>, at: int, delimiter: Delimiter) -> bool {
    0 <= at < tokens.len() && (tokens[at] matches Token::Group(found, ..) && found
        == delimiter)
}

/// The punctuation that has to be next, and the position behind it.
pub open spec fn punct_syntax(
    tokens: Seq<Token>,
    at: int,
    end: proc_macro2::Span,
    ch: char,
    expected: Seq<char>,
) -> Result<int, MessageView> {
    if is_punct(tokens, at, ch) {
        Ok(at + 1)
    } else {
        Err(MessageView { span: place(tokens, at, end), text: expected, failed: None })
    }
}

/// The arrow that has to be next, and the position behind it.
pub open spec fn arrow_syntax(tokens: Seq<Token>, at: int, end: proc_macro2::Span) -> Result<
    int,
    MessageView,
> {
    if is_pair(tokens, at, '=', '>') {
        Ok(at + 2)
    } else {
        Err(MessageView { span: place(tokens, at, end), text: "expected `=>`"@, failed: None })
    }
}

/// The identifier that has to be next, and the position behind it.
pub open spec fn name_syntax(tokens: Seq<Token>, at: int, end: proc_macro2::Span) -> Result<
    (Ident, int),
    MessageView,
> {
    if 0 <= at < tokens.len() {
        match tokens[at] {
            Token::Ident(ident, usable) => if usable {
                Ok((ident, at + 1))
            } else {
                Err(
                    failure(
                        tokens,
                        at,
                        end,
                        "expected identifier, found keyword `"@ + ident.spelled() + "`"@,
                    ),
                )
            },
            _ => Err(failure(tokens, at, end, "expected identifier"@)),
        }
    } else {
        Err(failure(tokens, at, end, "expected identifier"@))
    }
}

/// The separator behind an item of a list: a comma, or nothing behind the last item.
pub open spec fn separator_syntax(
    tokens: Seq<Token>,
    at: int,
    end: proc_macro2::Span,
    item: Seq<char>,
) -> Result<int, MessageView> {
    if is_punct(tokens, at, ',') {
        Ok(at + 1)
    } else if at >= tokens.len() {
        Ok(at)
    } else {
        Err(failure(tokens, at, end, "expected `,` after "@ + item))
    }
}

/// A type and the position behind it, where `found` is what was read at a position of the tokens.
pub open spec fn found_type_syntax(
    tokens: Seq<Token>,
    at: int,
    end: proc_macro2::Span,
    found: Result<(Seq<Shape>, nat), (Seq<char>, Seq<PlacedView>, proc_macro2::Span)>,
) -> Result<(TypeView, int), MessageView> {
    match found {
        Err((text, read, last)) => Err(
            MessageView { span: end, text, failed: Some((read, last)) },
        ),
        Ok((own, left)) => if left >= tokens.len() - at {
            Err(failure(tokens, at, end, "expected a type"@))
        } else {
            Ok((TypeView { tokens: own }, tokens.len() - left))
        },
    }
}

/// The type that has to be next, and the position behind it; `source` holds the token trees that
/// the tokens were read from.
pub open spec fn type_syntax(
    tokens: Seq<Token>,
    source: Seq<TreeView>,
    at: int,
    end: proc_macro2::Span,
) -> Result<(TypeView, int), MessageView> {
    found_type_syntax(tokens, at, end, type_at(placed(trees_behind(source, at)), end))
}

/// The mathematical value of what was read and the position behind it.
pub open spec fn read<T: View>(result: Result<(T, usize), Message>) -> Result<
    (T::V, int),
    MessageView,
> {
    match result {
        Ok((value, next)) => Ok((value@, next as int)),
        Err(message) => Err(message@),
    }
}

/// The mathematical value of a position behind what was read.
pub open spec fn moved(result: Result<usize, Message>) -> Result<int, MessageView> {
    match result {
        Ok(next) => Ok(next as int),
        Err(message) => Err(message@),
    }
}

/// A list whose first items are given, and whose rest may have failed.
pub open spec fn prepend<T>(first: Seq<T>, rest: Result<Seq<T>, MessageView>) -> Result<
    Seq<T>,
    MessageView,
> {
    match rest {
        Ok(items) => Ok(first + items),
        Err(message) => Err(message),
    }
}

/// An item read is one more of the first items.
pub proof fn lemma_prepend<T>(first: Seq<T>, item: T, rest: Result<Seq<T>, MessageView>)
    ensures
        prepend(first, prepend(seq![item], rest)) == prepend(first.push(item), rest),
{
    if let Ok(items) = rest {
        assert(first + (seq![item] + items) =~= first.push(item) + items);
    }
}

impl View for Ident {
    type V = Ident;

    open spec fn view(&self) -> Ident {
        *self
    }
}

pub(crate) fn place_at(tokens: &Vec<Token>, at: usize, end: proc_macro2::Span) -> (span:
    proc_macro2::Span)
    ensures
        span == place(tokens@, at as int, end),
{
    if at < tokens.len() {
        match &tokens[at] {
            Token::Ident(ident, _) => ident.span,
            Token::Punct(_, _, span) => *span,
            Token::Literal(_, span) => *span,
            Token::Group(_, _, open, ..) => *open,
        }
    } else {
        end
    }
}

pub(crate) fn fail(tokens: &Vec<Token>, at: usize, end: proc_macro2::Span, text: &str) -> (message:
    Message)
    ensures
        message@ == failure(tokens@, at as int, end, text@),
{
    let span = place_at(tokens, at, end);
    if at < tokens.len() {
        Message { span, text: text.to_owned(), failure: None }
    } else {
        Message { span, text: join2("unexpected end of input, ", text), failure: None }
    }
}

pub(crate) fn next_is_punct(tokens: &Vec<Token>, at: usize, ch: char) -> (found: bool)
    ensures
        found == is_punct(tokens@, at as int, ch),
        found ==> at < usize::MAX,
{
    if at < tokens.len() {
        match &tokens[at] {
            Token::Punct(found, _, _) => *found == ch,
            _ => false,
        }
    } else {
        false
    }
}

pub(crate) fn next_is_pair(tokens: &Vec<Token>, at: usize, first: char, second: char) -> (found:
    bool)
    ensures
        found == is_pair(tokens@, at as int, first, second),
        found ==> at + 1 < usize::MAX,
{
    if at < tokens.len() {
        match &tokens[at] {
            Token::Punct(found, joint, _) => *joint && *found == first && next_is_punct(
                tokens,
                at + 1,
                second,
            ),
            _ => false,
        }
    } else {
        false
    }
}

pub(crate) fn next_is_word(tokens: &Vec<Token>, at: usize, word: &str) -> (found: bool)
    ensures
        found == is_word(tokens@, at as int, word@),
        found ==> at < usize::MAX,
{
    if at < tokens.len() {
        match &tokens[at] {
            Token::Ident(ident, _) => same_text(ident.spelling().as_str(), word),
            _ => false,
        }
    } else {
        false
    }
}

pub(crate) fn next_is_name(tokens: &Vec<Token>, at: usize) -> (found: bool)
    ensures
        found == is_name(tokens@, at as int),
        found ==> at < usize::MAX,
{
    if at < tokens.len() {
        match &tokens[at] {
            Token::Ident(_, usable) => *usable,
            _ => false,
        }
    } else {
        false
    }
}

pub(crate) fn next_is_group(tokens: &Vec<Token>, at: usize, delimiter: Delimiter) -> (found: bool)
    ensures
        found == is_group(tokens@, at as int, delimiter),
        found ==> at < usize::MAX,
{
    if at < tokens.len() {
        match &tokens[at] {
            Token::Group(found, ..) => *found == delimiter,
            _ => false,
        }
    } else {
        false
    }
}

pub(crate) fn parse_punct(
    tokens: &Vec<Token>,
    at: usize,
    end: proc_macro2::Span,
    ch: char,
    expected: &str,
) -> (result: Result<usize, Message>)
    ensures
        moved(result) == punct_syntax(tokens@, at as int, end, ch, expected@),
{
    if next_is_punct(tokens, at, ch) {
        Ok(at + 1)
    } else {
        Err(Message { span: place_at(tokens, at, end), text: expected.to_owned(), failure: None })
    }
}

pub(crate) fn parse_arrow(tokens: &Vec<Token>, at: usize, end: proc_macro2::Span) -> (result:
    Result<usize, Message>)
    ensures
        moved(result) == arrow_syntax(tokens@, at as int, end),
{
    if next_is_pair(tokens, at, '=', '>') {
        Ok(at + 2)
    } else {
        Err(Message { span: place_at(tokens, at, end), text: "expected `=>`".to_owned(), failure: None })
    }
}

pub(crate) fn parse_name(tokens: &Vec<Token>, at: usize, end: proc_macro2::Span) -> (result: Result<
    (Ident, usize),
    Message,
>)
    ensures
        read(result) == name_syntax(tokens@, at as int, end),
{
    if at < tokens.len() {
        match &tokens[at] {
            Token::Ident(ident, usable) => {
                if *usable {
                    Ok((ident.clone(), at + 1))
                } else {
                    let word = ident.spelling();
                    let text = join3("expected identifier, found keyword `", word.as_str(), "`");
                    Err(fail(tokens, at, end, text.as_str()))
                }
            },
            _ => Err(fail(tokens, at, end, "expected identifier")),
        }
    } else {
        Err(fail(tokens, at, end, "expected identifier"))
    }
}

/// Reads the separator behind an item of a list.
pub(crate) fn parse_list_separator(
    tokens: &Vec<Token>,
    at: usize,
    end: proc_macro2::Span,
    item: &str,
) -> (result: Result<usize, Message>)
    ensures
        moved(result) == separator_syntax(tokens@, at as int, end, item@),
{
    if next_is_punct(tokens, at, ',') {
        Ok(at + 1)
    } else if at >= tokens.len() {
        Ok(at)
    } else {
        let text = join2("expected `,` after ", item);
        Err(fail(tokens, at, end, text.as_str()))
    }
}

/// Makes a type of what was read at a position of the tokens, and finds the position behind it.
pub fn found_type(
    tokens: &Vec<Token>,
    at: usize,
    end: proc_macro2::Span,
    found: Result<(proc_macro2::TokenStream, proc_macro2::TokenStream), (String, TypeFailure)>,
) -> (result: Result<(Type, usize), Message>)
    requires
        at <= tokens@.len(),
    ensures
        read(result) == found_type_syntax(tokens@, at as int, end, found_view(found)),
{
    match found {
        Err((text, failure)) => Err(Message { span: end, text, failure: Some(failure) }),
        Ok((own, rest)) => {
            let left = count_tokens(rest);
            if left >= tokens.len() - at {
                Err(fail(tokens, at, end, "expected a type"))
            } else {
                Ok((Type { tokens: Rc::new(own) }, tokens.len() - left))
            }
        },
    }
}

/// Reads a type.
pub(crate) fn parse_type(
    tokens: &Vec<Token>,
    source: &proc_macro2::TokenStream,
    at: usize,
    end: proc_macro2::Span,
) -> (result: Result<(Type, usize), Message>)
    requires
        at <= tokens@.len(),
    ensures
        read(result) == type_syntax(tokens@, stream_trees(*source), at as int, end),
{
    let behind = stream_behind(copy_stream(source), at);
    found_type(tokens, at, end, find_type(behind, end))
}

} // verus!
