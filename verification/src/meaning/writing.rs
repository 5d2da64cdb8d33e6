//! What generated code holds of the definition, and where.
use crate::code::{braced, joined, name_of, parenthesized, text_if, text_of, type_of, CodeView};
use crate::model::Type;
use crate::token::{stream_placed, Delimiter, Ident, PlacedView};
use vstd::prelude::*;

verus! {

/// What a definition puts into code: its names and its types.
pub enum Mark {
    Name(Ident),
    Type(Seq<PlacedView>),
}

/// The names and types in code, in order, whatever brackets they stand in.
pub open spec fn marks(code: Seq<CodeView>) -> Seq<Mark>
    decreases code,
{
    if code.len() == 0 {
        Seq::empty()
    } else {
        marks(code.drop_last()) + piece_marks(code.last())
    }
}

/// The names and types in a piece of code.
pub open spec fn piece_marks(piece: CodeView) -> Seq<Mark>
    decreases piece,
{
    match piece {
        CodeView::Name(ident) => seq![Mark::Name(ident)],
        CodeView::Type(tokens) => seq![Mark::Type(tokens)],
        CodeView::Group(_, inner) => marks(inner),
        CodeView::Text(_) => Seq::empty(),
        CodeView::Quote(_) => Seq::empty(),
    }
}

/// The names in code that stand in no brackets.
pub open spec fn outer_names(code: Seq<CodeView>) -> Seq<Ident>
    decreases code.len(),
{
    if code.len() == 0 {
        Seq::empty()
    } else {
        match code.last() {
            CodeView::Name(ident) => outer_names(code.drop_last()).push(ident),
            _ => outer_names(code.drop_last()),
        }
    }
}

/// What stands in braces in code, braces in other brackets apart.
pub open spec fn blocks(code: Seq<CodeView>) -> Seq<Seq<CodeView>>
    decreases code.len(),
{
    if code.len() == 0 {
        Seq::empty()
    } else {
        match code.last() {
            CodeView::Group(Delimiter::Brace, inner) => blocks(code.drop_last()).push(inner),
            _ => blocks(code.drop_last()),
        }
    }
}

/// Parts in order, one behind the other.
pub open spec fn gathered<T>(n: int, part: spec_fn(int) -> Seq<T>) -> Seq<T>
    decreases n,
{
    if n <= 0 {
        Seq::empty()
    } else {
        gathered(n - 1, part) + part(n - 1)
    }
}

/// Names as marks.
pub open spec fn name_marks(names: Seq<Ident>) -> Seq<Mark> {
    names.map_values(|name: Ident| Mark::Name(name))
}

/// A type as a mark.
pub open spec fn type_mark(ty: Type) -> Mark {
    Mark::Type(stream_placed(*ty.tokens))
}

/// A type that may be missing, as marks.
pub open spec fn optional_marks(ty: Option<Type>) -> Seq<Mark> {
    match ty {
        Some(ty) => seq![type_mark(ty)],
        None => Seq::empty(),
    }
}

pub(crate) broadcast proof fn lemma_marks_add(left: Seq<CodeView>, right: Seq<CodeView>)
    ensures
        #[trigger] marks(left + right) == marks(left) + marks(right),
    decreases right.len(),
{
    if right.len() == 0 {
        assert(left + right =~= left);
        assert(marks(left) + marks(right) =~= marks(left));
    } else {
        assert((left + right).drop_last() =~= left + right.drop_last());
        lemma_marks_add(left, right.drop_last());
        assert(marks(left + right) =~= marks(left) + marks(right));
    }
}

pub(crate) broadcast proof fn lemma_marks_one(piece: CodeView)
    ensures
        #[trigger] marks(seq![piece]) == piece_marks(piece),
{
    assert(seq![piece].drop_last() =~= Seq::<CodeView>::empty());
    assert(marks(Seq::<CodeView>::empty()) =~= Seq::<Mark>::empty());
    assert(seq![piece].last() == piece);
    assert(marks(seq![piece]) =~= piece_marks(piece));
}

pub(crate) broadcast proof fn lemma_marks_none()
    ensures
        #[trigger] marks(Seq::<CodeView>::empty()) == Seq::<Mark>::empty(),
{
}

pub(crate) broadcast proof fn lemma_marks_text(text: &str)
    ensures
        #[trigger] marks(text_of(text)) == Seq::<Mark>::empty(),
{
    lemma_marks_one(CodeView::Text(text@));
}

pub(crate) broadcast proof fn lemma_marks_text_if(condition: bool, text: &str)
    ensures
        #[trigger] marks(text_if(condition, text)) == Seq::<Mark>::empty(),
{
    lemma_marks_text(text);
}

pub(crate) broadcast proof fn lemma_marks_name(ident: Ident)
    ensures
        #[trigger] marks(name_of(ident)) == seq![Mark::Name(ident)],
{
    lemma_marks_one(CodeView::Name(ident));
}

pub(crate) broadcast proof fn lemma_marks_type(ty: Type)
    ensures
        #[trigger] marks(type_of(ty)) == seq![type_mark(ty)],
{
    lemma_marks_one(type_of(ty)[0]);
    assert(type_of(ty) =~= seq![type_of(ty)[0]]);
}

pub(crate) broadcast proof fn lemma_marks_braced(inner: Seq<CodeView>)
    ensures
        #[trigger] marks(braced(inner)) == marks(inner),
{
    lemma_marks_one(CodeView::Group(Delimiter::Brace, inner));
}

pub(crate) broadcast proof fn lemma_marks_parenthesized(inner: Seq<CodeView>)
    ensures
        #[trigger] marks(parenthesized(inner)) == marks(inner),
{
    lemma_marks_one(CodeView::Group(Delimiter::Parenthesis, inner));
}

pub(crate) broadcast proof fn lemma_marks_joined(list: Seq<CodeView>, item: Seq<CodeView>)
    ensures
        #[trigger] marks(joined(list, item)) == marks(list) + marks(item),
{
    lemma_marks_add(list + text_of(","), item);
    lemma_marks_add(list, text_of(","));
    lemma_marks_text(",");
    assert(marks(joined(list, item)) =~= marks(list) + marks(item));
}

pub(crate) broadcast group group_marks {
    lemma_marks_add,
    lemma_marks_none,
    lemma_marks_text,
    lemma_marks_text_if,
    lemma_marks_name,
    lemma_marks_type,
    lemma_marks_braced,
    lemma_marks_parenthesized,
    lemma_marks_joined,
}

pub(crate) broadcast proof fn lemma_outer_names_add(left: Seq<CodeView>, right: Seq<CodeView>)
    ensures
        #[trigger] outer_names(left + right) == outer_names(left) + outer_names(right),
    decreases right.len(),
{
    if right.len() == 0 {
        assert(left + right =~= left);
        assert(outer_names(left) + outer_names(right) =~= outer_names(left));
    } else {
        assert((left + right).drop_last() =~= left + right.drop_last());
        lemma_outer_names_add(left, right.drop_last());
        assert(outer_names(left + right) =~= outer_names(left) + outer_names(right));
    }
}

pub(crate) broadcast proof fn lemma_outer_names_one(piece: CodeView)
    ensures
        #[trigger] outer_names(seq![piece]) == (match piece {
            CodeView::Name(ident) => seq![ident],
            _ => Seq::empty(),
        }),
{
    assert(seq![piece].drop_last() =~= Seq::<CodeView>::empty());
    assert(outer_names(Seq::<CodeView>::empty()) =~= Seq::<Ident>::empty());
}

pub(crate) broadcast proof fn lemma_blocks_add(left: Seq<CodeView>, right: Seq<CodeView>)
    ensures
        #[trigger] blocks(left + right) == blocks(left) + blocks(right),
    decreases right.len(),
{
    if right.len() == 0 {
        assert(left + right =~= left);
        assert(blocks(left) + blocks(right) =~= blocks(left));
    } else {
        assert((left + right).drop_last() =~= left + right.drop_last());
        lemma_blocks_add(left, right.drop_last());
        assert(blocks(left + right) =~= blocks(left) + blocks(right));
    }
}

pub(crate) broadcast proof fn lemma_blocks_one(piece: CodeView)
    ensures
        #[trigger] blocks(seq![piece]) == (match piece {
            CodeView::Group(Delimiter::Brace, inner) => seq![inner],
            _ => Seq::empty(),
        }),
{
    assert(seq![piece].drop_last() =~= Seq::<CodeView>::empty());
    assert(blocks(Seq::<CodeView>::empty()) =~= Seq::<Seq<CodeView>>::empty());
}

pub(crate) broadcast group group_places {
    lemma_outer_names_add,
    lemma_outer_names_one,
    lemma_blocks_add,
    lemma_blocks_one,
}

/// An item that is added to a list stands behind it, with a comma in between where the list is not
/// empty.
pub proof fn items_are_separated_by_commas(list: Seq<CodeView>, item: Seq<CodeView>)
    ensures
        list.len() == 0 ==> joined(list, item) == item,
        list.len() > 0 ==> {
            let n = list.len() as int;
            &&& joined(list, item).len() == n + 1 + item.len()
            &&& joined(list, item).take(n) == list
            &&& joined(list, item)[n] == CodeView::Text(","@)
            &&& joined(list, item).skip(n + 1) == item
        },
{
    if list.len() > 0 {
        let n = list.len() as int;
        assert(joined(list, item).take(n) =~= list);
        assert(joined(list, item).skip(n + 1) =~= item);
    }
}

} // verus!
