//! Reading a machine definition from its tokens.
use crate::error::{Error, Message};
use crate::model::MachineDef;
use crate::parse::definition::{definition_syntax, parse_definition};
use crate::token::{
    are_resolved, call_site, copy_stream, lex_text, may_lex_to, may_not_lex, read_tokens, spliced,
    stream_trees, tokens_view, Token, TreeView,
};
use vstd::prelude::*;

pub mod cursor;
pub mod definition;
pub mod rows;
pub mod states;

verus! {

/// Whether a result is what reading the tokens of a definition gives; `source` holds the token
/// trees that they were read from.
pub open spec fn reads(
    result: Result<MachineDef, Error>,
    tokens: Seq<Token>,
    source: Seq<TreeView>,
    end: proc_macro2::Span,
) -> bool {
    match definition_syntax(tokens, source, end) {
        Ok(definition) => result matches Ok(found) && found@ == definition,
        Err(message) => result matches Err(error) && error@ == seq![message],
    }
}

/// Whether a result is what reading the token trees that a text may lex to gives.
pub open spec fn reads_text(result: Result<MachineDef, Error>, text: Seq<char>) -> bool {
    exists|trees: Seq<TreeView>, tokens: Seq<Token>, end: proc_macro2::Span|
        #![trigger reads(result, tokens, trees, end)]
        may_lex_to(text, trees) && tokens_view(tokens) == spliced(trees) && are_resolved(tokens)
            && reads(result, tokens, trees, end)
}

/// Whether a result is the one message on a text that is not made of Rust tokens.
pub open spec fn is_not_lexed(result: Result<MachineDef, Error>) -> bool {
    result matches Err(error) && error@.len() == 1 && error@[0].text
        == "cannot parse string into token stream"@ && error@[0].failed is None
}

/// Reads a definition from its tokens; `source` is the stream that they were read from, and `end`
/// the place of the definition as a whole.
pub fn parse(
    tokens: &Vec<Token>,
    source: &proc_macro2::TokenStream,
    end: proc_macro2::Span,
) -> (result: Result<MachineDef, Error>)
    ensures
        reads(result, tokens@, stream_trees(*source), end),
{
    match parse_definition(tokens, source, end) {
        Ok(definition) => Ok(definition),
        Err(message) => Err(Error::new(message)),
    }
}

/// Reads a definition from the tokens of a macro invocation.
pub fn parse_stream(input: proc_macro2::TokenStream) -> (result: Result<MachineDef, Error>)
    ensures
        exists|tokens: Seq<Token>, end: proc_macro2::Span|
            #![trigger reads(result, tokens, stream_trees(input), end)]
            tokens_view(tokens) == spliced(stream_trees(input)) && are_resolved(tokens) && reads(
                result,
                tokens,
                stream_trees(input),
                end,
            ),
{
    let tokens = read_tokens(copy_stream(&input));
    let end = call_site();
    parse(&tokens, &input, end)
}

/// Reads a definition from its text.
pub fn parse_str(text: &str) -> (result: Result<MachineDef, Error>)
    ensures
        reads_text(result, text@) || may_not_lex(text@) && is_not_lexed(result),
{
    match lex_text(text) {
        Some(stream) => {
            let result = parse_stream(stream);
            proof {
                let (tokens, end) = choose|tokens: Seq<Token>, end: proc_macro2::Span|
                    #![trigger reads(result, tokens, stream_trees(stream), end)]
                    tokens_view(tokens) == spliced(stream_trees(stream)) && are_resolved(tokens)
                        && reads(result, tokens, stream_trees(stream), end);
                assert(reads(result, tokens, stream_trees(stream), end));
                assert(reads_text(result, text@));
            }
            result
        },
        None => Err(
            Error::new(
                Message::at(call_site(), "cannot parse string into token stream".to_owned()),
            ),
        ),
    }
}

} // verus!
