//! Generated Rust code, piece by piece.
use crate::error::{Message, MessageView};
use crate::model::Type;
use crate::template::{text_shapes, text_stream};
use crate::token::{
    append_stream, copy_stream, empty_stream, group_stream, is_string_of, placed, shapes,
    stream_placed, write_string, Delimiter, Ident, PlacedView,
};
use vstd::prelude::*;

verus! {

/// A piece of generated code.
pub enum Code {
    /// Rust tokens that are the same in every machine.
    Text(&'static str),
    /// A string literal.
    Quote(&'static str),
    /// A name from the definition.
    Name(Ident),
    /// A type from the definition.
    Type(Type),
    /// Code in brackets.
    Group(Delimiter, Vec<Code>),
}

/// The mathematical value of a [`Code`].
pub enum CodeView {
    Text(Seq<char>),
    Quote(Seq<char>),
    Name(Ident),
    /// The tokens of a type.
    Type(Seq<PlacedView>),
    Group(Delimiter, Seq<CodeView>),
}

/// The mathematical value of a piece of code.
pub open spec fn code_view(code: Code) -> CodeView
    decreases code,
{
    match code {
        Code::Text(text) => CodeView::Text(text@),
        Code::Quote(text) => CodeView::Quote(text@),
        Code::Name(ident) => CodeView::Name(ident),
        Code::Type(ty) => CodeView::Type(stream_placed(*ty.tokens)),
        Code::Group(delimiter, inner) => CodeView::Group(delimiter, codes(inner@)),
    }
}

/// Several pieces of code, in order.
pub open spec fn codes(pieces: Seq<Code>) -> Seq<CodeView>
    decreases pieces,
{
    if pieces.len() == 0 {
        Seq::empty()
    } else {
        codes(pieces.drop_last()).push(code_view(pieces.last()))
    }
}

/// A piece of fixed text.
pub open spec fn text_of(text: &str) -> Seq<CodeView> {
    seq![CodeView::Text(text@)]
}

/// A name.
pub open spec fn name_of(ident: Ident) -> Seq<CodeView> {
    seq![CodeView::Name(ident)]
}

/// A type.
pub open spec fn type_of(ty: Type) -> Seq<CodeView> {
    seq![CodeView::Type(stream_placed(*ty.tokens))]
}

/// A string literal.
pub open spec fn quote_of(text: &str) -> Seq<CodeView> {
    seq![CodeView::Quote(text@)]
}

/// Code in square brackets.
pub open spec fn bracketed(inner: Seq<CodeView>) -> Seq<CodeView> {
    seq![CodeView::Group(Delimiter::Bracket, inner)]
}

/// Code in braces.
pub open spec fn braced(inner: Seq<CodeView>) -> Seq<CodeView> {
    seq![CodeView::Group(Delimiter::Brace, inner)]
}

/// Code in round brackets.
pub open spec fn parenthesized(inner: Seq<CodeView>) -> Seq<CodeView> {
    seq![CodeView::Group(Delimiter::Parenthesis, inner)]
}

/// A list of code with one more item, behind a comma where it is not the first.
pub open spec fn joined(list: Seq<CodeView>, item: Seq<CodeView>) -> Seq<CodeView> {
    if list.len() == 0 {
        item
    } else {
        list + text_of(",") + item
    }
}

pub(crate) proof fn lemma_codes_add(left: Seq<Code>, right: Seq<Code>)
    ensures
        codes(left + right) == codes(left) + codes(right),
    decreases right.len(),
{
    if right.len() == 0 {
        assert(left + right =~= left);
        assert(codes(left) + codes(right) =~= codes(left));
    } else {
        assert((left + right).drop_last() =~= left + right.drop_last());
        lemma_codes_add(left, right.drop_last());
        assert(codes(left + right) =~= codes(left) + codes(right));
    }
}

proof fn lemma_codes_len(pieces: Seq<Code>)
    ensures
        codes(pieces).len() == pieces.len(),
    decreases pieces.len(),
{
    if pieces.len() > 0 {
        lemma_codes_len(pieces.drop_last());
    }
}

fn put(out: &mut Vec<Code>, piece: Code)
    ensures
        codes(final(out)@) == codes(old(out)@) + seq![code_view(piece)],
{
    out.push(piece);
    proof {
        assert(out@.drop_last() =~= old(out)@);
        assert(codes(out@) =~= codes(old(out)@) + seq![code_view(piece)]);
    }
}

/// Adds fixed text.
pub(crate) fn put_text(out: &mut Vec<Code>, text: &'static str)
    ensures
        codes(final(out)@) == codes(old(out)@) + text_of(text),
{
    put(out, Code::Text(text));
}

/// Adds a name.
pub(crate) fn put_name(out: &mut Vec<Code>, ident: &Ident)
    ensures
        codes(final(out)@) == codes(old(out)@) + name_of(*ident),
{
    put(out, Code::Name(ident.clone()));
}

/// Adds a type.
pub(crate) fn put_type(out: &mut Vec<Code>, ty: &Type)
    ensures
        codes(final(out)@) == codes(old(out)@) + type_of(*ty),
{
    put(out, Code::Type(ty.clone()));
}

/// Adds a string literal.
pub(crate) fn put_quote(out: &mut Vec<Code>, text: &'static str)
    ensures
        codes(final(out)@) == codes(old(out)@) + quote_of(text),
{
    put(out, Code::Quote(text));
}

/// Adds code in square brackets.
pub(crate) fn put_brackets(out: &mut Vec<Code>, inner: Vec<Code>)
    ensures
        codes(final(out)@) == codes(old(out)@) + bracketed(codes(inner@)),
{
    put(out, Code::Group(Delimiter::Bracket, inner));
}

/// Adds code in braces.
pub(crate) fn put_braces(out: &mut Vec<Code>, inner: Vec<Code>)
    ensures
        codes(final(out)@) == codes(old(out)@) + braced(codes(inner@)),
{
    put(out, Code::Group(Delimiter::Brace, inner));
}

/// Adds code in round brackets.
pub(crate) fn put_parens(out: &mut Vec<Code>, inner: Vec<Code>)
    ensures
        codes(final(out)@) == codes(old(out)@) + parenthesized(codes(inner@)),
{
    put(out, Code::Group(Delimiter::Parenthesis, inner));
}

/// Adds code.
pub(crate) fn put_all(out: &mut Vec<Code>, more: Vec<Code>)
    ensures
        codes(final(out)@) == codes(old(out)@) + codes(more@),
{
    let ghost before = out@;
    let mut more = more;
    proof {
        lemma_codes_add(before, more@);
    }
    out.append(&mut more);
}

/// Adds an item to a list.
pub(crate) fn put_item(out: &mut Vec<Code>, item: Vec<Code>)
    ensures
        codes(final(out)@) == joined(codes(old(out)@), codes(item@)),
{
    proof {
        lemma_codes_len(out@);
    }
    if out.len() > 0 {
        put_text(out, ",");
    } else {
        assert(codes(out@) + codes(item@) =~= codes(item@));
    }
    put_all(out, item);
}

/// Fixed text where a condition holds, else nothing.
pub open spec fn text_if(condition: bool, text: &str) -> Seq<CodeView> {
    if condition {
        text_of(text)
    } else {
        Seq::empty()
    }
}

/// Adds fixed text where a condition holds.
pub(crate) fn put_text_if(out: &mut Vec<Code>, condition: bool, text: &'static str)
    ensures
        codes(final(out)@) == codes(old(out)@) + text_if(condition, text),
{
    if condition {
        put_text(out, text);
    } else {
        assert(codes(out@) + text_if(condition, text) =~= codes(out@));
    }
}

/// Code that starts with fixed text.
pub(crate) fn start(text: &'static str) -> (out: Vec<Code>)
    ensures
        codes(out@) == text_of(text),
{
    let mut out: Vec<Code> = Vec::new();
    put_text(&mut out, text);
    assert(codes(out@) =~= text_of(text));
    out
}

/// The mathematical value of code that was made.
pub open spec fn code_made(result: Result<Vec<Code>, Message>) -> Result<
    Seq<CodeView>,
    MessageView,
> {
    match result {
        Ok(pieces) => Ok(codes(pieces@)),
        Err(message) => Err(message@),
    }
}

/// Whether token trees are those of a piece of code. A name is its token, and a type its tokens,
/// with the places that the names and literals in it have in the definition.
pub open spec fn piece_written(piece: CodeView, trees: Seq<PlacedView>) -> bool
    decreases piece,
{
    match piece {
        CodeView::Text(text) => shapes(trees) == text_shapes(text),
        CodeView::Quote(text) => is_string_of(text, trees),
        CodeView::Name(ident) => trees == placed(ident.held()),
        CodeView::Type(tokens) => trees == tokens,
        CodeView::Group(delimiter, inner) => trees.len() == 1 && (
        trees[0] matches PlacedView::Group(found, contents) && found == delimiter && written(
            inner,
            contents,
        )),
    }
}

/// Whether token trees are those of code: the trees of each piece, in order.
pub open spec fn written(pieces: Seq<CodeView>, trees: Seq<PlacedView>) -> bool
    decreases pieces,
{
    if pieces.len() == 0 {
        trees.len() == 0
    } else {
        exists|n: int|
            0 <= n <= trees.len() && written(pieces.drop_last(), #[trigger] trees.take(n))
                && piece_written(pieces.last(), trees.skip(n))
    }
}

/// Writes code as a token stream.
pub fn code_stream(pieces: &Vec<Code>) -> (stream: proc_macro2::TokenStream)
    ensures
        written(codes(pieces@), stream_placed(stream)),
    decreases pieces@,
{
    let mut output = empty_stream();
    let mut i: usize = 0;
    proof {
        assert(pieces@.take(0) =~= Seq::<Code>::empty());
    }
    while i < pieces.len()
        invariant
            i <= pieces@.len(),
            written(codes(pieces@.take(i as int)), stream_placed(output)),
        decreases pieces@.len() - i,
    {
        let ghost before = pieces@.take(i as int);
        let ghost after = pieces@.take(i + 1);
        let ghost own = code_view(pieces@[i as int]);
        let ghost first = stream_placed(output);
        proof {
            assert(after.drop_last() =~= before);
            assert(after.last() == pieces@[i as int]);
            assert(codes(after) == codes(before).push(own));
            assert(codes(after).drop_last() =~= codes(before));
            assert(codes(after).last() == own);
        }
        let stream = piece_stream(&pieces[i]);
        append_stream(&mut output, stream);
        proof {
            let all = stream_placed(output);
            let n = first.len() as int;
            assert(all.take(n) =~= first);
            assert(all.skip(n) =~= stream_placed(stream));
            assert(written(codes(after), all));
        }
        i = i + 1;
    }
    proof {
        assert(pieces@.take(pieces@.len() as int) =~= pieces@);
    }
    output
}

/// Writes a piece of code as a token stream.
fn piece_stream(piece: &Code) -> (stream: proc_macro2::TokenStream)
    ensures
        piece_written(code_view(*piece), stream_placed(stream)),
    decreases *piece,
{
    match piece {
        Code::Text(text) => text_stream(text),
        Code::Quote(text) => write_string(text),
        Code::Name(ident) => copy_stream(&ident.token),
        Code::Type(ty) => copy_stream(&ty.tokens),
        Code::Group(delimiter, inner) => group_stream(*delimiter, code_stream(inner)),
    }
}

} // verus!
