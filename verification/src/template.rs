//! The notation for the fixed parts of generated code: words, punctuation and brackets. Any other
//! character separates what stands before it from what stands behind it.
use crate::token::{
    append_stream, call_site, empty_stream, group_stream, is_punctuation, is_word_char,
    is_word_start, lemma_placed_one, lemma_shapes_add, lemma_shapes_one, name_stream, placed_tree,
    punct_stream, stream_placed, stream_shapes, Delimiter, PlacedView, Shape, TreeView,
};
use vstd::prelude::*;

verus! {

/// The brackets that a character opens.
pub open spec fn opened(ch: char) -> Option<Delimiter> {
    if ch == '(' {
        Some(Delimiter::Parenthesis)
    } else if ch == '{' {
        Some(Delimiter::Brace)
    } else if ch == '[' {
        Some(Delimiter::Bracket)
    } else {
        None
    }
}

/// Whether a character closes brackets.
pub open spec fn closes(ch: char) -> bool {
    ch == ')' || ch == '}' || ch == ']'
}

/// Where the word characters from a position on end.
pub open spec fn word_end(text: Seq<char>, at: int) -> int
    decreases text.len() - at,
{
    if 0 <= at < text.len() && is_word_char(text[at]) {
        word_end(text, at + 1)
    } else {
        at
    }
}

/// A word ends behind its start, and within the text.
pub proof fn lemma_word_end(text: Seq<char>, at: int)
    requires
        0 <= at <= text.len(),
    ensures
        at <= word_end(text, at) <= text.len(),
        forall|i: int| at <= i < word_end(text, at) ==> is_word_char(#[trigger] text[i]),
    decreases text.len() - at,
{
    if at < text.len() && is_word_char(text[at]) {
        lemma_word_end(text, at + 1);
    }
}

/// A position behind another, and within a text of the given length.
pub open spec fn behind(position: int, other: int, length: int) -> int {
    if position <= other {
        other + 1
    } else if position > length {
        length
    } else {
        position
    }
}

/// The tokens that a text spells from a position up to the bracket that closes, or up to its end,
/// and the position behind that.
pub open spec fn run(text: Seq<char>, at: int) -> (Seq<Shape>, int)
    decreases text.len() - at,
{
    if at < 0 || at >= text.len() {
        (Seq::empty(), text.len() as int)
    } else if closes(text[at]) {
        (Seq::empty(), at + 1)
    } else if is_word_start(text[at]) {
        proof {
            lemma_word_end(text, at + 1);
        }
        let end = word_end(text, at + 1);
        let rest = run(text, end);
        (seq![Shape::Ident(text.subrange(at, end))] + rest.0, rest.1)
    } else if is_punctuation(text[at]) {
        let joint = text[at] == '\'' || at + 1 < text.len() && is_punctuation(text[at + 1]);
        let rest = run(text, at + 1);
        (seq![Shape::Punct(text[at], joint)] + rest.0, rest.1)
    } else {
        match opened(text[at]) {
            Some(delimiter) => {
                let inner = run(text, at + 1);
                let rest = run(text, behind(inner.1, at, text.len() as int));
                (seq![Shape::Group(delimiter, inner.0)] + rest.0, rest.1)
            },
            None => run(text, at + 1),
        }
    }
}

/// The tokens that a text spells.
pub open spec fn text_shapes(text: Seq<char>) -> Seq<Shape> {
    run(text, 0).0
}

proof fn lemma_run_ends(text: Seq<char>, at: int)
    requires
        0 <= at <= text.len(),
    ensures
        at <= run(text, at).1 <= text.len(),
    decreases text.len() - at,
{
    if at < text.len() && !closes(text[at]) {
        if is_word_start(text[at]) {
            lemma_word_end(text, at + 1);
            lemma_run_ends(text, word_end(text, at + 1));
        } else {
            lemma_run_ends(text, at + 1);
            if !is_punctuation(text[at]) && opened(text[at]) is Some {
                lemma_run_ends(text, behind(run(text, at + 1).1, at, text.len() as int));
            }
        }
    }
}

fn can_start_word(ch: char) -> (found: bool)
    ensures
        found == is_word_start(ch),
{
    'a' <= ch && ch <= 'z' || 'A' <= ch && ch <= 'Z' || ch == '_'
}

fn can_be_punctuation(ch: char) -> (found: bool)
    ensures
        found == is_punctuation(ch),
{
    ch == '=' || ch == '<' || ch == '>' || ch == '!' || ch == '~' || ch == '+' || ch == '-' || ch
        == '*' || ch == '/' || ch == '%' || ch == '^' || ch == '&' || ch == '|' || ch == '@' || ch
        == '.' || ch == ',' || ch == ';' || ch == ':' || ch == '#' || ch == '$' || ch == '?' || ch
        == '\''
}

fn opened_by(ch: char) -> (delimiter: Option<Delimiter>)
    ensures
        delimiter == opened(ch),
{
    if ch == '(' {
        Some(Delimiter::Parenthesis)
    } else if ch == '{' {
        Some(Delimiter::Brace)
    } else if ch == '[' {
        Some(Delimiter::Bracket)
    } else {
        None
    }
}

fn end_of_word(text: &str, at: usize) -> (end: usize)
    requires
        at <= text@.len(),
    ensures
        end == word_end(text@, at as int),
        at <= end <= text@.len(),
{
    let length: usize = text.unicode_len();
    let mut end: usize = at;
    while end < length
        invariant
            length == text@.len(),
            at <= end <= length,
            word_end(text@, at as int) == word_end(text@, end as int),
        decreases length - end,
    {
        let ch = text.get_char(end);
        if !can_start_word(ch) && !('0' <= ch && ch <= '9') {
            return end;
        }
        end = end + 1;
    }
    end
}

/// Adds one token to the tokens of a stream.
fn put_token(stream: &mut proc_macro2::TokenStream, token: proc_macro2::TokenStream)
    ensures
        stream_shapes(*final(stream)) == stream_shapes(*old(stream)) + stream_shapes(token),
{
    proof {
        lemma_shapes_add(stream_placed(*stream), stream_placed(token));
    }
    append_stream(stream, token);
}

fn word_token(text: &str, at: usize, end: usize) -> (token: proc_macro2::TokenStream)
    requires
        at < text@.len(),
        is_word_start(text@[at as int]),
        end == word_end(text@, at + 1),
        at < end <= text@.len(),
    ensures
        stream_shapes(token) == seq![Shape::Ident(text@.subrange(at as int, end as int))],
{
    let word = text.substring_char(at, end);
    proof {
        lemma_word_end(text@, at + 1);
    }
    let span = call_site();
    let token = name_stream(word, span);
    proof {
        let tree = TreeView::Ident(word@, span);
        lemma_placed_one(tree);
        lemma_shapes_one(placed_tree(tree));
    }
    token
}

fn write_run(text: &str, from: usize) -> (written: (proc_macro2::TokenStream, usize))
    requires
        from <= text@.len(),
    ensures
        stream_shapes(written.0) == run(text@, from as int).0,
        written.1 == run(text@, from as int).1,
        from <= written.1 <= text@.len(),
    decreases text@.len() - from,
{
    let length: usize = text.unicode_len();
    let mut stream = empty_stream();
    let mut at: usize = from;
    let ghost whole = run(text@, from as int);
    proof {
        lemma_run_ends(text@, from as int);
        assert(stream_shapes(stream) + whole.0 =~= whole.0);
    }
    while at < length
        invariant
            length == text@.len(),
            from <= at <= length,
            whole == run(text@, from as int),
            from <= whole.1 <= length,
            whole.0 == stream_shapes(stream) + run(text@, at as int).0,
            whole.1 == run(text@, at as int).1,
        decreases length - at,
    {
        let ch = text.get_char(at);
        let ghost before = stream_shapes(stream);
        let ghost tail = run(text@, at as int);
        if ch == ')' || ch == '}' || ch == ']' {
            assert(before + tail.0 =~= before);
            return (stream, at + 1);
        }
        if can_start_word(ch) {
            let end = end_of_word(text, at + 1);
            put_token(&mut stream, word_token(text, at, end));
            at = end;
        } else if can_be_punctuation(ch) {
            let joint = ch == '\'' || at + 1 < length && can_be_punctuation(text.get_char(at + 1));
            let token = punct_stream(ch, joint);
            proof {
                lemma_shapes_one(PlacedView::Punct(ch, joint));
            }
            put_token(&mut stream, token);
            at = at + 1;
        } else {
            match opened_by(ch) {
                Some(delimiter) => {
                    let (inner, end) = write_run(text, at + 1);
                    let token = group_stream(delimiter, inner);
                    proof {
                        lemma_shapes_one(PlacedView::Group(delimiter, stream_placed(inner)));
                    }
                    put_token(&mut stream, token);
                    at = end;
                },
                None => {
                    at = at + 1;
                },
            }
        }
        proof {
            assert(whole.0 =~= stream_shapes(stream) + run(text@, at as int).0);
        }
    }
    proof {
        assert(stream_shapes(stream) + run(text@, at as int).0 =~= stream_shapes(stream));
    }
    (stream, length)
}

/// Writes the tokens that a text spells.
pub fn text_stream(text: &str) -> (stream: proc_macro2::TokenStream)
    ensures
        stream_shapes(stream) == text_shapes(text@),
{
    let (stream, _) = write_run(text, 0);
    stream
}

} // verus!
