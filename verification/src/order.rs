//! The order in which the rows are gone through: step by step for an event, and in the code.
use crate::code::CodeView;
use crate::error::MessageView;
use crate::expand::rows::row_code;
use crate::expand::{blocks_code, is_for};
use crate::laws::{is_at_level, rows_apply_to_a_leaf, rows_are_tried_from_the_leaf_up};
use crate::model::{Flat, MachineDef};
use crate::selection::{is_candidate, is_next, is_step, row_applies, tried_before, Step};
use crate::token::Ident;
use crate::valid::{ancestors_are_compound, state_name, valid};
use crate::validate::coverage::{ancestor, distance};
use crate::validate::states_of;
use vstd::prelude::*;

verus! {

/// The row that was refused before the one at a position was asked about.
pub open spec fn refused_before(asked: Seq<usize>, k: int) -> Option<usize> {
    if k <= 0 {
        None
    } else {
        Some(asked[k - 1])
    }
}

/// Whether rows are those whose guards are asked one after the other, while each says no.
pub open spec fn are_asked(definition: MachineDef, l: int, e: int, asked: Seq<usize>) -> bool {
    forall|k: int|
        0 <= k < asked.len() ==> is_step(
            definition,
            l,
            e,
            refused_before(asked, k),
            Step::Ask(#[trigger] asked[k]),
        )
}

/// Whether row `r` is among the first `n` of some rows.
pub open spec fn is_among(rows: Seq<usize>, n: int, r: int) -> bool {
    exists|i: int| 0 <= i < n && #[trigger] rows[i] == r
}

proof fn lemma_asked_in_order(
    definition: MachineDef,
    l: int,
    e: int,
    asked: Seq<usize>,
    i: int,
    j: int,
)
    requires
        are_asked(definition, l, e, asked),
        0 <= i < j < asked.len(),
    ensures
        tried_before(definition, l, asked[i] as int, asked[j] as int),
    decreases j,
{
    assert(is_candidate(definition, l, e, Some(asked[j - 1]), asked[j] as int));
    if i < j - 1 {
        lemma_asked_in_order(definition, l, e, asked, i, j - 1);
    }
}

proof fn lemma_none_passed_over(
    definition: MachineDef,
    l: int,
    e: int,
    asked: Seq<usize>,
    j: int,
    r: int,
)
    requires
        are_asked(definition, l, e, asked),
        0 <= j < asked.len(),
        row_applies(definition, l, e, r),
        tried_before(definition, l, r, asked[j] as int),
    ensures
        is_among(asked, j, r),
    decreases j,
{
    let after = refused_before(asked, j);
    assert(is_next(definition, l, e, after, asked[j] as int));
    assert(!is_candidate(definition, l, e, after, r));
    let previous = asked[j - 1];
    if r == previous {
        assert(asked[j - 1] == r);
    } else {
        assert(is_next(definition, l, e, refused_before(asked, j - 1), previous as int));
        lemma_none_passed_over(definition, l, e, asked, j - 1, r);
        let i = choose|i: int| 0 <= i < j - 1 && #[trigger] asked[i] == r;
        assert(asked[i] == r);
    }
}

/// Guards are asked in the order in which the rows are tried, each at most once, and none is
/// passed over: each row for the event that is tried before one that is asked was asked earlier.
pub proof fn guards_are_asked_once_in_order(
    definition: MachineDef,
    l: int,
    e: int,
    asked: Seq<usize>,
)
    requires
        are_asked(definition, l, e, asked),
    ensures
        forall|i: int, j: int|
            0 <= i < j < asked.len() ==> tried_before(
                definition,
                l,
                #[trigger] asked[i] as int,
                #[trigger] asked[j] as int,
            ) && asked[i] != asked[j],
        forall|j: int, r: int|
            0 <= j < asked.len() && row_applies(definition, l, e, r) && tried_before(
                definition,
                l,
                r,
                asked[j] as int,
            ) ==> #[trigger] is_among(asked, j, r),
{
    assert forall|i: int, j: int| 0 <= i < j < asked.len() implies tried_before(
        definition,
        l,
        #[trigger] asked[i] as int,
        #[trigger] asked[j] as int,
    ) && asked[i] != asked[j] by {
        lemma_asked_in_order(definition, l, e, asked, i, j);
    }
    assert forall|j: int, r: int|
        0 <= j < asked.len() && row_applies(definition, l, e, r) && tried_before(
            definition,
            l,
            r,
            asked[j] as int,
        ) implies #[trigger] is_among(asked, j, r) by {
        lemma_none_passed_over(definition, l, e, asked, j, r);
    }
}

/// Those of the first `n` rows that are for a source, in the order of the table.
pub open spec fn rows_for(definition: MachineDef, source: Option<Seq<char>>, n: int) -> Seq<int>
    decreases n,
{
    if n <= 0 {
        Seq::empty()
    } else if is_for(definition.rows@[n - 1], source) {
        rows_for(definition, source, n - 1).push(n - 1)
    } else {
        rows_for(definition, source, n - 1)
    }
}

/// The rows for a leaf and its ancestors below level `k`, level by level.
pub open spec fn rows_below(definition: MachineDef, l: int, k: nat) -> Seq<int>
    decreases k,
{
    if k == 0 {
        Seq::empty()
    } else {
        rows_below(definition, l, (k - 1) as nat) + match ancestor(
            states_of(definition),
            state_name(states_of(definition), l),
            (k - 1) as nat,
        ) {
            Some(name) => rows_for(definition, Some(name), definition.rows@.len() as int),
            None => Seq::empty(),
        }
    }
}

/// The rows whose blocks the code goes through in a leaf: those for the leaf, for its ancestors
/// one after the other, and for any source.
pub open spec fn coded_rows(definition: MachineDef, l: int) -> Seq<int> {
    rows_below(definition, l, states_of(definition).len()) + rows_for(
        definition,
        None,
        definition.rows@.len() as int,
    )
}

/// The blocks of rows, one behind the other.
pub open spec fn joined_blocks(
    definition: MachineDef,
    context_trait: Ident,
    states: Seq<Flat>,
    rows: Seq<int>,
) -> Result<Seq<CodeView>, MessageView>
    decreases rows.len(),
{
    if rows.len() == 0 {
        Ok(Seq::empty())
    } else {
        match joined_blocks(definition, context_trait, states, rows.drop_last()) {
            Err(message) => Err(message),
            Ok(before) => match row_code(
                definition.rows@[rows.last()],
                definition,
                context_trait,
                states,
            ) {
                Err(message) => Err(message),
                Ok(block) => Ok(before + block),
            },
        }
    }
}

/// The code for a source is made of the blocks of its rows, in the order of the table.
pub proof fn blocks_stand_in_the_order_of_the_table(
    definition: MachineDef,
    context_trait: Ident,
    states: Seq<Flat>,
    source: Option<Seq<char>>,
    n: int,
)
    requires
        0 <= n <= definition.rows@.len(),
    ensures
        blocks_code(definition, context_trait, states, source, n) == joined_blocks(
            definition,
            context_trait,
            states,
            rows_for(definition, source, n),
        ),
    decreases n,
{
    if n > 0 {
        blocks_stand_in_the_order_of_the_table(definition, context_trait, states, source, n - 1);
        assert(rows_for(definition, source, n - 1).push(n - 1).drop_last() =~= rows_for(
            definition,
            source,
            n - 1,
        ));
    }
}

proof fn lemma_rows_for(definition: MachineDef, source: Option<Seq<char>>, n: int)
    requires
        0 <= n <= definition.rows@.len(),
    ensures
        forall|i: int|
            0 <= i < rows_for(definition, source, n).len() ==> 0 <= #[trigger] rows_for(
                definition,
                source,
                n,
            )[i] < n && is_for(definition.rows@[rows_for(definition, source, n)[i]], source),
        forall|i: int, j: int|
            0 <= i < j < rows_for(definition, source, n).len() ==> #[trigger] rows_for(
                definition,
                source,
                n,
            )[i] < #[trigger] rows_for(definition, source, n)[j],
        forall|r: int|
            0 <= r < n && #[trigger] is_for(definition.rows@[r], source) ==> rows_for(
                definition,
                source,
                n,
            ).contains(r),
    decreases n,
{
    if n > 0 {
        lemma_rows_for(definition, source, n - 1);
        let before = rows_for(definition, source, n - 1);
        let all = rows_for(definition, source, n);
        assert forall|r: int|
            0 <= r < n && #[trigger] is_for(definition.rows@[r], source) implies all.contains(
            r,
        ) by {
            if r < n - 1 {
                let i = choose|i: int| 0 <= i < before.len() && before[i] == r;
                assert(all[i] == r);
            } else {
                assert(all[before.len() as int] == r);
            }
        }
    }
}

/// Whether row `r` is for a state fewer than `k` levels above a leaf, or the leaf itself.
spec fn is_below(definition: MachineDef, l: int, r: int, k: nat) -> bool {
    exists|level: nat| level < k && #[trigger] is_at_level(definition, l, r, level)
}

proof fn lemma_rows_below(definition: MachineDef, l: int, k: nat)
    requires
        valid(definition),
        0 <= l < states_of(definition).len() <= usize::MAX,
    ensures
        forall|i: int|
            0 <= i < rows_below(definition, l, k).len() ==> 0 <= #[trigger] rows_below(
                definition,
                l,
                k,
            )[i] < definition.rows@.len() && is_below(
                definition,
                l,
                rows_below(definition, l, k)[i],
                k,
            ),
        forall|i: int, j: int|
            0 <= i < j < rows_below(definition, l, k).len() ==> tried_before(
                definition,
                l,
                #[trigger] rows_below(definition, l, k)[i],
                #[trigger] rows_below(definition, l, k)[j],
            ),
        forall|r: int|
            0 <= r < definition.rows@.len() && #[trigger] is_below(definition, l, r, k)
                ==> rows_below(definition, l, k).contains(r),
    decreases k,
{
    if k > 0 {
        let low = (k - 1) as nat;
        lemma_rows_below(definition, l, low);
        let states = states_of(definition);
        let own = state_name(states, l);
        let before = rows_below(definition, l, low);
        let all = rows_below(definition, l, k);
        let count = definition.rows@.len() as int;
        let more = match ancestor(states, own, low) {
            Some(name) => rows_for(definition, Some(name), count),
            None => Seq::empty(),
        };
        if let Some(name) = ancestor(states, own, low) {
            lemma_rows_for(definition, Some(name), count);
        }
        assert(all == before + more);
        assert forall|i: int| 0 <= i < all.len() implies 0 <= #[trigger] all[i] < count && is_below(
            definition,
            l,
            all[i],
            k,
        ) by {
            if i < before.len() {
                assert(all[i] == before[i]);
                let level = choose|level: nat|
                    level < low && #[trigger] is_at_level(definition, l, all[i], level);
                assert(is_at_level(definition, l, all[i], level));
            } else {
                assert(all[i] == more[i - before.len()]);
                assert(is_at_level(definition, l, all[i], low));
            }
        }
        assert forall|i: int, j: int| 0 <= i < j < all.len() implies tried_before(
            definition,
            l,
            #[trigger] all[i],
            #[trigger] all[j],
        ) by {
            rows_are_tried_from_the_leaf_up(definition, l, all[i], all[j]);
            if j < before.len() {
                assert(all[i] == before[i] && all[j] == before[j]);
            } else {
                assert(all[j] == more[j - before.len()]);
                assert(is_at_level(definition, l, all[j], low));
                if i < before.len() {
                    assert(all[i] == before[i]);
                    let level = choose|level: nat|
                        level < low && #[trigger] is_at_level(definition, l, all[i], level);
                    assert(is_at_level(definition, l, all[i], level));
                } else {
                    assert(all[i] == more[i - before.len()]);
                    assert(is_at_level(definition, l, all[i], low));
                }
            }
        }
        assert forall|r: int|
            0 <= r < count && #[trigger] is_below(definition, l, r, k) implies all.contains(r) by {
            let level = choose|level: nat|
                level < k && #[trigger] is_at_level(definition, l, r, level);
            if level < low {
                assert(is_below(definition, l, r, low));
                let i = choose|i: int| 0 <= i < before.len() && before[i] == r;
                assert(all[i] == r);
            } else {
                let name = ancestor(states, own, low)->0;
                assert(is_for(definition.rows@[r], Some(name)));
                let i = choose|i: int| 0 <= i < more.len() && more[i] == r;
                assert(all[before.len() + i] == r);
            }
        }
    }
}

/// The rows whose blocks the code goes through in a leaf are exactly those that are for the leaf,
/// each once, and in the order in which they are tried.
pub proof fn code_goes_through_the_rows_as_they_are_tried(definition: MachineDef, l: int)
    requires
        valid(definition),
        0 <= l < states_of(definition).len() <= usize::MAX,
    ensures
        forall|i: int, j: int|
            0 <= i < j < coded_rows(definition, l).len() ==> tried_before(
                definition,
                l,
                #[trigger] coded_rows(definition, l)[i],
                #[trigger] coded_rows(definition, l)[j],
            ),
        forall|r: int|
            #![trigger coded_rows(definition, l).contains(r)]
            0 <= r < definition.rows@.len() ==> (coded_rows(definition, l).contains(r)
                <==> distance(
                definition.rows@[r],
                state_name(states_of(definition), l),
                states_of(definition),
            ) is Some),
        forall|i: int|
            0 <= i < coded_rows(definition, l).len() ==> 0 <= #[trigger] coded_rows(
                definition,
                l,
            )[i] < definition.rows@.len(),
{
    let states = states_of(definition);
    let own = state_name(states, l);
    let count = definition.rows@.len() as int;
    let height = states.len();
    let named = rows_below(definition, l, height);
    let wild = rows_for(definition, None, count);
    let all = coded_rows(definition, l);
    lemma_rows_below(definition, l, height);
    lemma_rows_for(definition, None, count);
    assert forall|i: int| 0 <= i < all.len() implies 0 <= #[trigger] all[i] < count by {
        if i < named.len() {
            assert(all[i] == named[i]);
        } else {
            assert(all[i] == wild[i - named.len()]);
        }
    }
    assert forall|i: int, j: int| 0 <= i < j < all.len() implies tried_before(
        definition,
        l,
        #[trigger] all[i],
        #[trigger] all[j],
    ) by {
        rows_are_tried_from_the_leaf_up(definition, l, all[i], all[j]);
        if j < named.len() {
            assert(all[i] == named[i] && all[j] == named[j]);
        } else {
            assert(all[j] == wild[j - named.len()]);
            if i < named.len() {
                assert(all[i] == named[i]);
                let level = choose|level: nat|
                    level < height && #[trigger] is_at_level(definition, l, all[i], level);
                assert(is_at_level(definition, l, all[i], level));
            } else {
                assert(all[i] == wild[i - named.len()]);
            }
        }
    }
    assert forall|r: int|
        #![trigger all.contains(r)]
        0 <= r < count implies (all.contains(r) <==> distance(
        definition.rows@[r],
        own,
        states,
    ) is Some) by {
        rows_apply_to_a_leaf(definition, l, r);
        if all.contains(r) {
            let i = choose|i: int| 0 <= i < all.len() && all[i] == r;
            if i < named.len() {
                assert(named[i] == r);
                let level = choose|level: nat|
                    level < height && #[trigger] is_at_level(definition, l, r, level);
                assert(is_at_level(definition, l, r, level));
            } else {
                assert(wild[i - named.len()] == r);
            }
        }
        if definition.rows@[r].source is Any {
            assert(is_for(definition.rows@[r], None));
            let i = choose|i: int| 0 <= i < wild.len() && wild[i] == r;
            assert(all[named.len() + i] == r);
        } else if exists|k: nat| is_at_level(definition, l, r, k) {
            let k = choose|k: nat| is_at_level(definition, l, r, k);
            ancestors_are_compound(definition, l, k);
            assert(is_below(definition, l, r, height));
            let i = choose|i: int| 0 <= i < named.len() && named[i] == r;
            assert(all[i] == r);
        }
    }
}

} // verus!
