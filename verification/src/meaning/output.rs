//! What is written: the tokens of code and of messages, piece by piece.
use crate::code::{piece_written, written, CodeView};
use crate::error::{is_refusal, refuses, MessageView};
use crate::template::{behind, closes, lemma_word_end, opened, run, text_shapes, word_end};
use crate::token::{
    is_punctuation, is_word, is_word_char, is_word_start, lemma_placed_one, Ident, PlacedView,
    Shape, TreeView,
};
use vstd::prelude::*;

verus! {

/// Whether positions cut a run into as many parts as there are items.
pub open spec fn are_cuts(cuts: Seq<int>, items: nat, length: nat) -> bool {
    &&& cuts.len() == items + 1
    &&& cuts[0] == 0
    &&& cuts.last() == length
    &&& forall|i: int| 0 <= i < items ==> 0 <= #[trigger] cuts[i] <= cuts[i + 1] <= length
}

/// Whether the part at a position is written for the piece there.
pub open spec fn is_part(
    pieces: Seq<CodeView>,
    trees: Seq<PlacedView>,
    cuts: Seq<int>,
    i: int,
) -> bool {
    piece_written(pieces[i], trees.subrange(cuts[i], cuts[i + 1]))
}

/// Code is written piece by piece, in order: each piece for itself, and nothing in between.
pub proof fn code_is_written_piece_by_piece(pieces: Seq<CodeView>, trees: Seq<PlacedView>)
    requires
        written(pieces, trees),
    ensures
        exists|cuts: Seq<int>| #[trigger]
            are_cuts(cuts, pieces.len(), trees.len()) && forall|i: int|
                0 <= i < pieces.len() ==> #[trigger] is_part(pieces, trees, cuts, i),
    decreases pieces.len(),
{
    if pieces.len() == 0 {
        assert(are_cuts(seq![0int], 0, 0));
    } else {
        let n = choose|n: int|
            0 <= n <= trees.len() && written(pieces.drop_last(), #[trigger] trees.take(n))
                && piece_written(pieces.last(), trees.skip(n));
        let front = trees.take(n);
        let before = pieces.drop_last();
        code_is_written_piece_by_piece(before, front);
        let first = choose|cuts: Seq<int>| #[trigger]
            are_cuts(cuts, before.len(), front.len()) && forall|i: int|
                0 <= i < before.len() ==> #[trigger] is_part(before, front, cuts, i);
        let cuts = first.push(trees.len() as int);
        assert(first.last() == n);
        assert forall|i: int| 0 <= i < pieces.len() implies 0 <= #[trigger] cuts[i] <= cuts[i + 1]
            <= trees.len() by {
            if i < before.len() {
                assert(first[i] == cuts[i]);
            }
        }
        assert forall|i: int| 0 <= i < pieces.len() implies #[trigger] is_part(
            pieces,
            trees,
            cuts,
            i,
        ) by {
            if i < before.len() {
                assert(is_part(before, front, first, i));
                assert(first[i] == cuts[i]);
                assert(front.subrange(first[i], first[i + 1]) =~= trees.subrange(
                    cuts[i],
                    cuts[i + 1],
                ));
            } else {
                assert(trees.skip(n) =~= trees.subrange(cuts[i], cuts[i + 1]));
            }
        }
        assert(are_cuts(cuts, pieces.len(), trees.len()));
    }
}

/// A name that was read is written as it was spelled, where it was spelled, raw or not.
pub proof fn names_are_written_as_spelled(ident: Ident, trees: Seq<PlacedView>)
    requires
        ident.is_whole(),
        piece_written(CodeView::Name(ident), trees),
    ensures
        trees == seq![PlacedView::Ident(ident.spelled(), ident.span)],
{
    let tree = TreeView::Ident(ident.spelled(), ident.span);
    lemma_placed_one(tree);
}

/// Whether the part at a position is a refusal with the message there.
pub open spec fn is_refused_part(
    messages: Seq<MessageView>,
    trees: Seq<PlacedView>,
    cuts: Seq<int>,
    i: int,
) -> bool {
    is_refusal(messages[i], trees.subrange(cuts[i], cuts[i + 1]))
}

/// All messages are given, each once, in their order, and nothing else.
pub proof fn each_message_is_given(messages: Seq<MessageView>, trees: Seq<PlacedView>)
    requires
        refuses(messages, trees),
    ensures
        exists|cuts: Seq<int>| #[trigger]
            are_cuts(cuts, messages.len(), trees.len()) && forall|i: int|
                0 <= i < messages.len() ==> #[trigger] is_refused_part(messages, trees, cuts, i),
    decreases messages.len(),
{
    if messages.len() == 0 {
        assert(are_cuts(seq![0int], 0, 0));
    } else {
        let n = choose|n: int|
            0 <= n <= trees.len() && refuses(messages.drop_last(), #[trigger] trees.take(n))
                && is_refusal(messages.last(), trees.skip(n));
        let front = trees.take(n);
        let before = messages.drop_last();
        each_message_is_given(before, front);
        let first = choose|cuts: Seq<int>| #[trigger]
            are_cuts(cuts, before.len(), front.len()) && forall|i: int|
                0 <= i < before.len() ==> #[trigger] is_refused_part(before, front, cuts, i);
        let cuts = first.push(trees.len() as int);
        assert(first.last() == n);
        assert forall|i: int| 0 <= i < messages.len() implies 0 <= #[trigger] cuts[i] <= cuts[i
            + 1] <= trees.len() by {
            if i < before.len() {
                assert(first[i] == cuts[i]);
            }
        }
        assert forall|i: int| 0 <= i < messages.len() implies #[trigger] is_refused_part(
            messages,
            trees,
            cuts,
            i,
        ) by {
            if i < before.len() {
                assert(is_refused_part(before, front, first, i));
                assert(first[i] == cuts[i]);
                assert(front.subrange(first[i], first[i + 1]) =~= trees.subrange(
                    cuts[i],
                    cuts[i + 1],
                ));
            } else {
                assert(trees.skip(n) =~= trees.subrange(cuts[i], cuts[i + 1]));
            }
        }
        assert(are_cuts(cuts, messages.len(), trees.len()));
    }
}

proof fn lemma_to_the_end(text: Seq<char>, at: int)
    requires
        0 <= at <= text.len(),
        forall|i: int| at <= i < text.len() ==> is_word_char(#[trigger] text[i]),
    ensures
        word_end(text, at) == text.len(),
    decreases text.len() - at,
{
    if at < text.len() {
        lemma_to_the_end(text, at + 1);
    }
}

/// A word in fixed text is written as that word, whole.
pub proof fn words_are_written_whole(text: Seq<char>)
    requires
        is_word(text),
    ensures
        text_shapes(text) == seq![Shape::Ident(text)],
{
    lemma_to_the_end(text, 1);
    assert(text.subrange(0, text.len() as int) =~= text);
    assert(run(text, text.len() as int).0 =~= Seq::<Shape>::empty());
    assert(!closes(text[0]));
    assert(text_shapes(text) =~= seq![Shape::Ident(text)]);
}

proof fn lemma_punctuation(text: Seq<char>, at: int)
    requires
        0 <= at <= text.len(),
        forall|i: int| 0 <= i < text.len() ==> is_punctuation(#[trigger] text[i]),
    ensures
        run(text, at).0.len() == text.len() - at,
        forall|i: int|
            0 <= i < text.len() - at ==> (#[trigger] run(text, at).0[i]) == Shape::Punct(
                text[at + i],
                text[at + i] == '\'' || at + i + 1 < text.len(),
            ),
    decreases text.len() - at,
{
    if at < text.len() {
        lemma_punctuation(text, at + 1);
        let rest = run(text, at + 1).0;
        let joint = text[at] == '\'' || at + 1 < text.len() && is_punctuation(text[at + 1]);
        assert(is_punctuation(text[at]));
        assert(!is_word_start(text[at]) && !closes(text[at]));
        assert(run(text, at).0 == seq![Shape::Punct(text[at], joint)] + rest);
        assert forall|i: int| 0 <= i < text.len() - at implies (#[trigger] run(text, at).0[i])
            == Shape::Punct(text[at + i], text[at + i] == '\'' || at + i + 1 < text.len()) by {
            if i > 0 {
                assert(run(text, at).0[i] == rest[i - 1]);
            } else {
                assert(at + 1 < text.len() ==> is_punctuation(text[at + 1]));
            }
        }
    }
}

/// Punctuation in fixed text is written character by character, in order; each but the last is
/// joined to the next.
pub proof fn punctuation_is_written_joined(text: Seq<char>)
    requires
        forall|i: int| 0 <= i < text.len() ==> is_punctuation(#[trigger] text[i]),
    ensures
        text_shapes(text).len() == text.len(),
        forall|i: int|
            0 <= i < text.len() ==> (#[trigger] text_shapes(text)[i]) == Shape::Punct(
                text[i],
                text[i] == '\'' || i + 1 < text.len(),
            ),
{
    lemma_punctuation(text, 0);
}

/// Whether a text holds no brackets.
pub open spec fn is_plain(text: Seq<char>) -> bool {
    forall|i: int|
        0 <= i < text.len() ==> !closes(#[trigger] text[i]) && opened(text[i]) is None
}

proof fn lemma_word_shifts(front: Seq<char>, text: Seq<char>, at: int)
    requires
        0 <= at <= text.len(),
    ensures
        word_end(front + text, front.len() + at) == front.len() + word_end(text, at),
    decreases text.len() - at,
{
    if at < text.len() {
        assert((front + text)[front.len() + at] == text[at]);
        if is_word_char(text[at]) {
            lemma_word_shifts(front, text, at + 1);
        }
    }
}

/// What a text spells does not depend on what stands before it.
proof fn lemma_run_shifts(front: Seq<char>, text: Seq<char>, at: int)
    requires
        0 <= at <= text.len(),
    ensures
        run(front + text, front.len() + at).0 == run(text, at).0,
        run(front + text, front.len() + at).1 == front.len() + run(text, at).1,
        at <= run(text, at).1 <= text.len(),
    decreases text.len() - at,
{
    let whole = front + text;
    let n = front.len() as int;
    if at < text.len() {
        assert(whole[n + at] == text[at]);
        if at + 1 < text.len() {
            assert(whole[n + at + 1] == text[at + 1]);
        }
        if closes(text[at]) {
        } else if is_word_start(text[at]) {
            lemma_word_end(text, at + 1);
            lemma_word_shifts(front, text, at + 1);
            let end = word_end(text, at + 1);
            lemma_run_shifts(front, text, end);
            assert(whole.subrange(n + at, n + end) =~= text.subrange(at, end));
        } else if is_punctuation(text[at]) {
            lemma_run_shifts(front, text, at + 1);
        } else {
            lemma_run_shifts(front, text, at + 1);
            if opened(text[at]) is Some {
                let inner = run(text, at + 1).1;
                lemma_run_shifts(front, text, behind(inner, at, text.len() as int));
            }
        }
    }
}

proof fn lemma_word_stops(left: Seq<char>, right: Seq<char>, at: int)
    requires
        0 <= at <= left.len(),
        right.len() > 0,
        !is_word_char(right[0]),
    ensures
        word_end(left + right, at) == word_end(left, at),
    decreases left.len() - at,
{
    if at < left.len() {
        assert((left + right)[at] == left[at]);
        if is_word_char(left[at]) {
            lemma_word_stops(left, right, at + 1);
        }
    } else {
        assert((left + right)[at] == right[0]);
    }
}

proof fn lemma_plain_run(left: Seq<char>, right: Seq<char>, at: int)
    requires
        0 <= at <= left.len(),
        is_plain(left),
        right.len() > 0,
        !is_word_char(right[0]),
        !is_punctuation(right[0]),
    ensures
        run(left + right, at).0 == run(left, at).0 + run(right, 0).0,
    decreases left.len() - at,
{
    let whole = left + right;
    if at < left.len() {
        assert(whole[at] == left[at]);
        assert(!closes(left[at]) && opened(left[at]) is None);
        if is_word_start(left[at]) {
            lemma_word_end(left, at + 1);
            lemma_word_stops(left, right, at + 1);
            let end = word_end(left, at + 1);
            lemma_plain_run(left, right, end);
            assert(whole.subrange(at, end) =~= left.subrange(at, end));
            assert(run(whole, at).0 =~= run(left, at).0 + run(right, 0).0);
        } else if is_punctuation(left[at]) {
            lemma_plain_run(left, right, at + 1);
            if at + 1 < left.len() {
                assert(whole[at + 1] == left[at + 1]);
            } else {
                assert(whole[at + 1] == right[0]);
            }
            assert(run(whole, at).0 =~= run(left, at).0 + run(right, 0).0);
        } else {
            lemma_plain_run(left, right, at + 1);
        }
    } else {
        lemma_run_shifts(left, right, 0);
        assert(run(left, at).0 =~= Seq::<Shape>::empty());
        assert(run(whole, at).0 =~= run(left, at).0 + run(right, 0).0);
    }
}

/// Two fixed texts with a space in between are written one behind the other, where the first holds
/// no brackets.
pub proof fn texts_are_written_one_behind_the_other(left: Seq<char>, right: Seq<char>)
    requires
        is_plain(left),
    ensures
        text_shapes(left + seq![' '] + right) == text_shapes(left) + text_shapes(right),
{
    let rest = seq![' '] + right;
    assert(rest[0] == ' ');
    assert(left + seq![' '] + right =~= left + rest);
    lemma_plain_run(left, rest, 0);
    lemma_run_shifts(seq![' '], right, 0);
    assert(run(rest, 0).0 == run(rest, 1).0);
}

/// Brackets in fixed text are written around what stands between them, where that holds no brackets
/// itself.
pub proof fn brackets_are_written_around_their_contents(
    open: char,
    inner: Seq<char>,
    close: char,
)
    requires
        opened(open) is Some,
        closes(close),
        is_plain(inner),
    ensures
        text_shapes(seq![open] + inner + seq![close]) == seq![
            Shape::Group(opened(open)->0, text_shapes(inner)),
        ],
{
    let end = seq![close];
    let rest = inner + end;
    let whole = seq![open] + inner + end;
    assert(whole =~= seq![open] + rest);
    assert(whole[0] == open);
    assert(end[0] == close);
    lemma_plain_run(inner, end, 0);
    lemma_plain_stop(inner, end, 0);
    lemma_run_shifts(seq![open], rest, 0);
    assert(run(end, 0).0 =~= Seq::<Shape>::empty());
    assert(run(rest, 0).0 =~= text_shapes(inner));
    assert(run(whole, 1).1 == whole.len());
    assert(run(whole, whole.len() as int).0 =~= Seq::<Shape>::empty());
    assert(text_shapes(whole) =~= seq![Shape::Group(opened(open)->0, text_shapes(inner))]);
}

proof fn lemma_plain_stop(left: Seq<char>, right: Seq<char>, at: int)
    requires
        0 <= at <= left.len(),
        is_plain(left),
        right.len() > 0,
        closes(right[0]),
    ensures
        run(left + right, at).1 == left.len() + 1,
    decreases left.len() - at,
{
    let whole = left + right;
    if at < left.len() {
        assert(whole[at] == left[at]);
        assert(!closes(left[at]) && opened(left[at]) is None);
        if is_word_start(left[at]) {
            lemma_word_end(left, at + 1);
            lemma_word_stops(left, right, at + 1);
            lemma_plain_stop(left, right, word_end(left, at + 1));
        } else {
            lemma_plain_stop(left, right, at + 1);
        }
    } else {
        assert(whole[at] == right[0]);
    }
}

} // verus!
