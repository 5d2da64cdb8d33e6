//! When tokens are the same, and what invisible groups and numbers in text mean.
use crate::model::Type;
use crate::text::{decimal, digit};
use crate::token::{
    placed, placed_tree, shapes, spliced, stream_trees, tree_shape, trees_behind, Delimiter,
    TreeView,
};
use crate::validate::callables::type_key;
use vstd::prelude::*;

verus! {

/// Whether two token trees are the same but for their places: the same word, the same punctuation
/// and spacing, the same literal, or the same brackets around the same tokens.
pub open spec fn alike(one: TreeView, other: TreeView) -> bool
    decreases one,
{
    match (one, other) {
        (TreeView::Ident(text, _), TreeView::Ident(found, _)) => text == found,
        (TreeView::Punct(ch, joint, _), TreeView::Punct(found, close, _)) => ch == found && joint
            == close,
        (TreeView::Literal(text, _), TreeView::Literal(found, _)) => text == found,
        (TreeView::Group(delimiter, inner, _, _), TreeView::Group(found, tokens, _, _)) => delimiter
            == found && all_alike(inner, tokens),
        _ => false,
    }
}

/// Whether two lists of token trees are the same, one by one, but for their places.
pub open spec fn all_alike(one: Seq<TreeView>, other: Seq<TreeView>) -> bool
    decreases one,
{
    &&& one.len() == other.len()
    &&& forall|i: int| 0 <= i < one.len() ==> alike(#[trigger] one[i], other[i])
}

proof fn lemma_each(trees: Seq<TreeView>)
    ensures
        shapes(placed(trees)).len() == trees.len(),
        forall|i: int|
            0 <= i < trees.len() ==> (#[trigger] shapes(placed(trees))[i]) == tree_shape(
                placed_tree(trees[i]),
            ),
    decreases trees.len(),
{
    if trees.len() > 0 {
        let before = trees.drop_last();
        lemma_each(before);
        assert(placed(trees).drop_last() =~= placed(before));
        assert(placed(trees).last() == placed_tree(trees.last()));
        assert(shapes(placed(trees)) == shapes(placed(before)).push(
            tree_shape(placed_tree(trees.last())),
        ));
        assert forall|i: int| 0 <= i < trees.len() implies (#[trigger] shapes(placed(trees))[i])
            == tree_shape(placed_tree(trees[i])) by {
            if i < before.len() {
                assert(shapes(placed(before))[i] == tree_shape(placed_tree(before[i])));
            }
        }
    }
}

proof fn lemma_alike(one: TreeView, other: TreeView)
    ensures
        alike(one, other) <==> tree_shape(placed_tree(one)) == tree_shape(placed_tree(other)),
    decreases one, 0nat,
{
    if let (TreeView::Group(_, inner, _, _), TreeView::Group(_, tokens, _, _)) = (one, other) {
        lemma_all_alike(inner, tokens);
    }
}

proof fn lemma_all_alike(one: Seq<TreeView>, other: Seq<TreeView>)
    ensures
        all_alike(one, other) <==> shapes(placed(one)) == shapes(placed(other)),
    decreases one, 1nat,
{
    lemma_each(one);
    lemma_each(other);
    let left = shapes(placed(one));
    let right = shapes(placed(other));
    if one.len() == other.len() {
        assert forall|i: int| 0 <= i < one.len() implies (alike(#[trigger] one[i], other[i])
            <==> left[i] == right[i]) by {
            lemma_alike(one[i], other[i]);
        }
        if all_alike(one, other) {
            assert forall|i: int| 0 <= i < left.len() implies left[i] == right[i] by {
                assert(alike(one[i], other[i]));
            }
            assert(left =~= right);
        }
    }
}

/// Two types are the same exactly where their tokens are, one by one, whatever their places, and
/// whatever invisible groups they stand in.
pub proof fn types_are_compared_by_their_tokens(one: Type, other: Type)
    ensures
        type_key(one) == type_key(other) <==> all_alike(
            spliced(stream_trees(*one.tokens)),
            spliced(stream_trees(*other.tokens)),
        ),
{
    assert forall|left: Seq<TreeView>, right: Seq<TreeView>| #[trigger]
        all_alike(left, right) <==> shapes(placed(left)) == shapes(placed(right)) by {
        lemma_all_alike(left, right);
    }
}

/// The tokens of two runs come one behind the other; an invisible group stands for the tokens in
/// it; other brackets stay, around what stands in them; and any other token stands for itself.
pub proof fn invisible_groups_are_opened(
    left: Seq<TreeView>,
    right: Seq<TreeView>,
    tree: TreeView,
)
    ensures
        spliced(left + right) == spliced(left) + spliced(right),
        match tree {
            TreeView::Group(Delimiter::Invisible, inner, _, _) => spliced(seq![tree]) == spliced(
                inner,
            ),
            TreeView::Group(delimiter, inner, open, close) => spliced(seq![tree]) == seq![
                TreeView::Group(delimiter, spliced(inner), open, close),
            ],
            _ => spliced(seq![tree]) == seq![tree],
        },
    decreases right.len(),
{
    assert(seq![tree].drop_last() =~= Seq::<TreeView>::empty());
    assert(spliced(Seq::<TreeView>::empty()) =~= Seq::<TreeView>::empty());
    assert(seq![tree].last() == tree);
    match tree {
        TreeView::Group(Delimiter::Invisible, inner, _, _) => {
            assert(spliced(seq![tree]) =~= spliced(inner));
        },
        TreeView::Group(delimiter, inner, open, close) => {
            assert(spliced(seq![tree]) =~= seq![
                TreeView::Group(delimiter, spliced(inner), open, close),
            ]);
        },
        _ => {
            assert(spliced(seq![tree]) =~= seq![tree]);
        },
    }
    if right.len() == 0 {
        assert(left + right =~= left);
        assert(spliced(left) + spliced(right) =~= spliced(left));
    } else {
        assert((left + right).drop_last() =~= left + right.drop_last());
        invisible_groups_are_opened(left, right.drop_last(), tree);
        assert(spliced(left + right) =~= spliced(left) + spliced(right));
    }
}

/// No invisible group is left among opened tokens.
pub proof fn no_invisible_group_is_left(trees: Seq<TreeView>)
    ensures
        forall|i: int|
            0 <= i < spliced(trees).len() ==> !((#[trigger] spliced(
                trees,
            )[i]) matches TreeView::Group(Delimiter::Invisible, _, _, _)),
    decreases trees,
{
    if trees.len() > 0 {
        let before = trees.drop_last();
        no_invisible_group_is_left(before);
        if let TreeView::Group(Delimiter::Invisible, inner, _, _) = trees.last() {
            no_invisible_group_is_left(inner);
        }
        let own = match trees.last() {
            TreeView::Group(Delimiter::Invisible, inner, _, _) => spliced(inner),
            TreeView::Group(delimiter, inner, open, close) => seq![
                TreeView::Group(delimiter, spliced(inner), open, close),
            ],
            other => seq![other],
        };
        assert(spliced(trees) == spliced(before) + own);
        assert forall|i: int| 0 <= i < spliced(trees).len() implies !((#[trigger] spliced(
            trees,
        )[i]) matches TreeView::Group(Delimiter::Invisible, _, _, _)) by {
            if i < spliced(before).len() {
                assert(spliced(trees)[i] == spliced(before)[i]);
            } else {
                assert(spliced(trees)[i] == own[i - spliced(before).len()]);
            }
        }
    }
}

/// What is left behind the first tokens holds exactly the tokens behind them.
pub proof fn what_is_left_are_the_tokens_behind(trees: Seq<TreeView>, count: int)
    requires
        0 <= count <= spliced(trees).len(),
    ensures
        spliced(trees_behind(trees, count)) == spliced(trees).skip(count),
    decreases trees,
{
    if count == 0 || trees.len() == 0 {
        assert(spliced(trees).skip(0) =~= spliced(trees));
    } else {
        let first = trees[0];
        let rest = trees.skip(1);
        assert(trees =~= seq![first] + rest);
        invisible_groups_are_opened(seq![first], rest, first);
        let own = spliced(seq![first]);
        assert(spliced(trees) == own + spliced(rest));
        match first {
            TreeView::Group(Delimiter::Invisible, inner, _, _) => {
                if count < spliced(inner).len() {
                    what_is_left_are_the_tokens_behind(inner, count);
                    invisible_groups_are_opened(trees_behind(inner, count), rest, first);
                    assert((own + spliced(rest)).skip(count) =~= own.skip(count) + spliced(rest));
                } else {
                    what_is_left_are_the_tokens_behind(rest, count - spliced(inner).len());
                    assert((own + spliced(rest)).skip(count) =~= spliced(rest).skip(
                        count - own.len(),
                    ));
                }
            },
            _ => {
                assert(own.len() == 1);
                what_is_left_are_the_tokens_behind(rest, count - 1);
                assert((own + spliced(rest)).skip(count) =~= spliced(rest).skip(count - 1));
            },
        }
    }
}

/// The number that decimal digits stand for.
pub open spec fn number(digits: Seq<char>) -> int
    decreases digits.len(),
{
    if digits.len() == 0 {
        0
    } else {
        10 * number(digits.drop_last()) + (digits.last() as int - '0' as int)
    }
}

/// A number is written with decimal digits that stand for it, without a zero in front.
pub proof fn numbers_are_written_in_decimal(n: nat)
    ensures
        number(decimal(n)) == n,
        decimal(n).len() > 0,
        forall|i: int| 0 <= i < decimal(n).len() ==> '0' <= (#[trigger] decimal(n)[i]) <= '9',
        n > 0 ==> decimal(n)[0] != '0',
    decreases n,
{
    if n < 10 {
        assert(decimal(n).drop_last() =~= Seq::<char>::empty());
        assert(number(Seq::<char>::empty()) == 0);
        assert(digit(n) as int == '0' as int + n);
    } else {
        numbers_are_written_in_decimal(n / 10);
        let before = decimal(n / 10);
        let last = digit(n % 10);
        assert(last as int == '0' as int + n % 10);
        assert(decimal(n) == before.push(last));
        assert(before.push(last).drop_last() =~= before);
        assert(decimal(n)[0] == before[0]);
        assert forall|i: int| 0 <= i < decimal(n).len() implies '0' <= (#[trigger] decimal(
            n,
        )[i]) <= '9' by {
            if i < before.len() {
                assert(decimal(n)[i] == before[i]);
            }
        }
    }
}

} // verus!
