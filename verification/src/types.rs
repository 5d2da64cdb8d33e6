//! Names and types: which tokens `syn` takes for one.
use crate::token::{
    copy_stream, shapes, spliced, stream_placed, stream_shapes, stream_trees, Delimiter,
    PlacedView, Shape,
};
use std::rc::Rc;
use vstd::prelude::*;

verus! {

/// Whether `syn` takes a word for an identifier: it is not a keyword.
pub uninterp spec fn is_identifier(word: Seq<char>) -> bool;

/// `syn::parse2` for `syn::Ident`, on a stream of one word.
/// Claimed: it succeeds exactly on the words that `is_identifier` holds of.
#[verifier::external_body]
pub(crate) fn accepts_identifier(stream: proc_macro2::TokenStream) -> (accepted: bool)
    requires
        stream_trees(stream).len() == 1,
        stream_trees(stream)[0] is Ident,
    ensures
        accepted == is_identifier(stream_trees(stream)[0]->Ident_0),
{
    syn::parse2::<syn::Ident>(stream).is_ok()
}

/// The Rust type that `syn` reads at the start of tokens: the tokens that it writes for the type,
/// and how many are left behind it. Where there is none, what `syn` says.
pub uninterp spec fn type_read(tokens: Seq<Shape>) -> Result<(Seq<Shape>, nat), Seq<char>>;

/// What reading a type gives, without places: the tokens of the type and the number of those left
/// behind it, or the message of the failure.
pub open spec fn reading(
    found: Result<
        (proc_macro2::TokenStream, proc_macro2::TokenStream),
        (String, proc_macro2::TokenStream),
    >,
) -> Result<(Seq<Shape>, nat), Seq<char>> {
    match found {
        Ok((own, rest)) => Ok((stream_shapes(own), spliced(stream_trees(rest)).len())),
        Err((text, _)) => Err(text@),
    }
}

/// Whether tokens start with an invocation of `compile_error!` with a literal.
pub open spec fn starts_refusal(tokens: Seq<Shape>) -> bool {
    &&& tokens.len() >= 8
    &&& tokens[0] == Shape::Punct(':', true)
    &&& tokens[1] == Shape::Punct(':', false)
    &&& tokens[2] == Shape::Ident("core"@)
    &&& tokens[3] == Shape::Punct(':', true)
    &&& tokens[4] == Shape::Punct(':', false)
    &&& tokens[5] == Shape::Ident("compile_error"@)
    &&& tokens[6] == Shape::Punct('!', false)
    &&& tokens[7] matches Shape::Group(Delimiter::Brace, inner) && inner.len() == 1
        && inner[0] is Literal
}

/// `Parser::parse2` of `syn`, with the parser that reads a `syn::Type` and then takes what is
/// left, on a stream in brackets that have the place `end`. A type is given as the tokens that
/// `syn` writes for it (`ToTokens::to_token_stream` of `quote`), and an error as its message and
/// the refusal that `syn` writes for it (`Error::to_compile_error`).
/// Claimed: the tokens of the type and the number of those left, or the message, are `type_read`
/// of the tokens of the stream, and a refusal starts with an invocation of `compile_error!`. Which
/// places the tokens of the type and of the refusal have is not stated: some are joined out of
/// two, which not every compiler does.
#[verifier::external_body]
fn read_type(stream: proc_macro2::TokenStream, end: proc_macro2::Span) -> (found: Result<
    (proc_macro2::TokenStream, proc_macro2::TokenStream),
    (String, proc_macro2::TokenStream),
>)
    ensures
        reading(found) == type_read(stream_shapes(stream)),
        found matches Err((_, refusal)) ==> starts_refusal(stream_shapes(refusal)),
{
    let parser = |input: syn::parse::ParseStream| {
        let group = syn::parse::discouraged::AnyDelimiter::parse_any_delimiter(input)?;
        let own = quote::ToTokens::to_token_stream(&group.2.parse::<syn::Type>()?);
        group.2.parse::<proc_macro2::TokenStream>().map(|rest| (own, rest))
    };
    let mut group = proc_macro2::Group::new(proc_macro2::Delimiter::Brace, stream);
    group.set_span(end);
    match syn::parse::Parser::parse2(parser, proc_macro2::TokenTree::from(group).into()) {
        Ok((own, rest)) => Ok((own, rest)),
        Err(error) => Err((error.to_string(), error.to_compile_error())),
    }
}

/// Whether token trees are a refusal that `syn` may write where it reads no type at the start of
/// token trees that end at a place.
pub closed spec fn is_type_refusal(
    read: Seq<PlacedView>,
    end: proc_macro2::Span,
    trees: Seq<PlacedView>,
) -> bool {
    exists|
        stream: proc_macro2::TokenStream,
        found: Result<
            (proc_macro2::TokenStream, proc_macro2::TokenStream),
            (String, proc_macro2::TokenStream),
        >,
    |
        stream_placed(stream) == read && #[trigger] call_ensures(read_type, (stream, end), found) && (
        found matches Err((_, refusal)) && stream_placed(refusal) == trees)
}

/// The refusal of a type starts with an invocation of `compile_error!`.
pub proof fn type_refusals_are_compile_errors(
    read: Seq<PlacedView>,
    end: proc_macro2::Span,
    trees: Seq<PlacedView>,
)
    requires
        is_type_refusal(read, end, trees),
    ensures
        starts_refusal(shapes(trees)),
{
}

/// Why no type was read: the refusal that `syn` writes.
pub struct TypeFailure {
    refusal: Rc<proc_macro2::TokenStream>,
    read: Ghost<Seq<PlacedView>>,
    end: proc_macro2::Span,
}

impl TypeFailure {
    /// The refusal is one for the token trees and the place.
    #[verifier::type_invariant]
    spec fn is_refusal(self) -> bool {
        is_type_refusal(self.read@, self.end, stream_placed(*self.refusal))
    }

    /// The token trees that no type was read from.
    pub closed spec fn read(self) -> Seq<PlacedView> {
        self.read@
    }

    /// The place where they end.
    pub closed spec fn end(self) -> proc_macro2::Span {
        self.end
    }

    /// Writes the refusal.
    pub fn to_refusal(&self) -> (stream: proc_macro2::TokenStream)
        ensures
            is_type_refusal(self.read(), self.end(), stream_placed(stream)),
    {
        proof {
            use_type_invariant(self);
        }
        copy_stream(&self.refusal)
    }
}

/// The mathematical value of a type that was read, without places, or of the failure.
pub open spec fn found_view(
    found: Result<(proc_macro2::TokenStream, proc_macro2::TokenStream), (String, TypeFailure)>,
) -> Result<(Seq<Shape>, nat), (Seq<char>, Seq<PlacedView>, proc_macro2::Span)> {
    match found {
        Ok((own, rest)) => Ok((stream_shapes(own), spliced(stream_trees(rest)).len())),
        Err((text, failure)) => Err((text@, failure.read(), failure.end())),
    }
}

/// What reading a type at the start of token trees that end at a place gives.
pub open spec fn type_at(trees: Seq<PlacedView>, end: proc_macro2::Span) -> Result<
    (Seq<Shape>, nat),
    (Seq<char>, Seq<PlacedView>, proc_macro2::Span),
> {
    match type_read(shapes(trees)) {
        Ok(found) => Ok(found),
        Err(text) => Err((text, trees, end)),
    }
}

/// Reads a type at the start of a stream that ends at a place.
pub fn find_type(stream: proc_macro2::TokenStream, end: proc_macro2::Span) -> (found: Result<
    (proc_macro2::TokenStream, proc_macro2::TokenStream),
    (String, TypeFailure),
>)
    ensures
        found_view(found) == type_at(stream_placed(stream), end),
{
    let ghost read = stream_placed(stream);
    let found = read_type(stream, end);
    assert(call_ensures(read_type, (stream, end), found));
    match found {
        Ok((own, rest)) => Ok((own, rest)),
        Err((text, refusal)) => {
            assert(is_type_refusal(read, end, stream_placed(refusal)));
            Err((text, TypeFailure { refusal: Rc::new(refusal), read: Ghost(read), end }))
        },
    }
}

} // verus!
