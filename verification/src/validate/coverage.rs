//! Which rows an event meets in a state, and in which order.
use crate::error::{messages_view, report, Message, MessageView};
use crate::model::{flats, Flat, FlatState, MachineDef, Row, RowEvent, RowSource};
use crate::text::{decimal, decimal_text, join3, join5};
use crate::token::Ident;
use crate::validate::lookup::{find_state, last_state};
use vstd::prelude::*;

verus! {

/// The parent of the state with the given name.
pub open spec fn parent_of(states: Seq<Flat>, name: Seq<char>) -> Option<Seq<char>> {
    match last_state(states, states.len() as int, name) {
        Some(k) => match states[k].parent {
            Some(parent) => Some(parent.name@),
            None => None,
        },
        None => None,
    }
}

/// The ancestor `k` levels above a state: the state itself, its parent, the parent of that.
pub open spec fn ancestor(states: Seq<Flat>, name: Seq<char>, k: nat) -> Option<Seq<char>>
    decreases k,
{
    if k == 0 {
        Some(name)
    } else {
        match ancestor(states, name, (k - 1) as nat) {
            Some(below) => parent_of(states, below),
            None => None,
        }
    }
}

/// The least number of levels from `k` on, and below the number of states, at which the ancestor
/// of a state has the target's name.
pub open spec fn levels_to(states: Seq<Flat>, name: Seq<char>, target: Seq<char>, k: nat) -> Option<
    nat,
>
    decreases states.len() - k,
{
    if k >= states.len() {
        None
    } else if ancestor(states, name, k) == Some(target) {
        Some(k)
    } else {
        levels_to(states, name, target, k + 1)
    }
}

/// How far the source of a row is from a leaf: the number of levels up to the state that it
/// names, and farther than any state where the row is for any source. `None` where the row is
/// not for the leaf.
pub open spec fn distance(row: Row, leaf: Seq<char>, states: Seq<Flat>) -> Option<nat> {
    match row.source {
        RowSource::Any => Some(usize::MAX as nat),
        RowSource::State(pattern) => levels_to(states, leaf, pattern.name.name@, 0),
    }
}

/// Whether a row is for an event.
pub open spec fn covers(row: Row, event: Seq<char>) -> bool {
    match row.event {
        RowEvent::Any => true,
        RowEvent::Event(pattern) => pattern.name.name@ == event,
    }
}

/// Whether a row is for an event in a leaf.
pub open spec fn applies(row: Row, leaf: Seq<char>, event: Seq<char>, states: Seq<Flat>) -> bool {
    covers(row, event) && distance(row, leaf, states) is Some
}

/// Whether row `i` is tried before row `j` in a leaf: it is nearer, or as near and earlier in
/// the table.
pub open spec fn precedes(rows: Seq<Row>, states: Seq<Flat>, leaf: Seq<char>, i: int, j: int) -> bool {
    let left = distance(rows[i], leaf, states)->0;
    let right = distance(rows[j], leaf, states)->0;
    left < right || left == right && i < j
}

/// Whether row `j` is an unguarded row for the event that is tried before row `i`.
pub open spec fn shadows(
    rows: Seq<Row>,
    states: Seq<Flat>,
    leaf: Seq<char>,
    event: Seq<char>,
    j: int,
    i: int,
) -> bool {
    &&& rows[j].guard is None
    &&& applies(rows[j], leaf, event, states)
    &&& precedes(rows, states, leaf, j, i)
}

/// Whether an event in a leaf can get as far as row `i`.
pub open spec fn reached(
    rows: Seq<Row>,
    states: Seq<Flat>,
    leaf: Seq<char>,
    event: Seq<char>,
    i: int,
) -> bool {
    &&& applies(rows[i], leaf, event, states)
    &&& forall|j: int|
        0 <= j < rows.len() ==> !#[trigger] shadows(rows, states, leaf, event, j, i)
}

/// Whether event `e` in state `l` can get as far as row `i`.
pub open spec fn reached_at(definition: MachineDef, states: Seq<Flat>, i: int, l: int, e: int) -> bool {
    &&& !states[l].node.compound()
    &&& reached(
        definition.rows@,
        states,
        states[l].node.variant.name.name@,
        definition.events@[e].name.name@,
        i,
    )
}

/// Whether some event in some leaf can get as far as row `i`.
pub open spec fn reachable(definition: MachineDef, states: Seq<Flat>, i: int) -> bool {
    exists|l: int, e: int|
        0 <= l < states.len() && 0 <= e < definition.events@.len() && #[trigger] reached_at(
            definition,
            states,
            i,
            l,
            e,
        )
}

/// Whether some row is for an event in a leaf.
pub open spec fn handled(rows: Seq<Row>, states: Seq<Flat>, leaf: Seq<char>, event: Seq<char>) -> bool {
    exists|i: int| 0 <= i < rows.len() && #[trigger] applies(rows[i], leaf, event, states)
}

/// How a pair of a leaf and an event is called in messages.
pub open spec fn pair_text(leaf: Ident, event: Ident) -> Seq<char> {
    "("@ + leaf.spelled() + ", "@ + event.spelled() + ")"@
}

/// The pairs of state `l` and one of the first `n` events that no row is for.
pub open spec fn missing_events(definition: MachineDef, states: Seq<Flat>, l: int, n: int) -> Seq<
    Seq<char>,
>
    decreases n,
{
    if n <= 0 {
        Seq::empty()
    } else {
        let leaf = states[l].node.variant.name;
        let event = definition.events@[n - 1].name;
        let before = missing_events(definition, states, l, n - 1);
        if handled(definition.rows@, states, leaf.name@, event.name@) {
            before
        } else {
            before.push(pair_text(leaf, event))
        }
    }
}

/// The pairs of a leaf among the first `n` states and an event that no row is for.
pub open spec fn missing_pairs(definition: MachineDef, states: Seq<Flat>, n: int) -> Seq<Seq<char>>
    decreases n,
{
    if n <= 0 {
        Seq::empty()
    } else if states[n - 1].node.compound() {
        missing_pairs(definition, states, n - 1)
    } else {
        missing_pairs(definition, states, n - 1) + missing_events(
            definition,
            states,
            n - 1,
            definition.events@.len() as int,
        )
    }
}

/// The first `n` texts with commas in between.
pub open spec fn comma_separated(texts: Seq<Seq<char>>, n: int) -> Seq<char>
    decreases n,
{
    if n <= 0 {
        Seq::empty()
    } else if n == 1 {
        texts[0]
    } else {
        comma_separated(texts, n - 1) + ", "@ + texts[n - 1]
    }
}

/// How many of the pairs that no row is for a message shows.
pub const SHOWN_PAIRS: usize = 8;

/// The message on the pairs that no row is for.
pub open spec fn missing_text(name: Ident, missing: Seq<Seq<char>>) -> Seq<char> {
    let pairs = if missing.len() > SHOWN_PAIRS {
        comma_separated(missing, SHOWN_PAIRS as int) + " and "@ + decimal(
            (missing.len() - SHOWN_PAIRS) as nat,
        ) + " more"@
    } else {
        comma_separated(missing, missing.len() as int)
    };
    "unhandled leaf/event pairs in `"@ + name.spelled() + "`: "@ + pairs
}

/// The messages on the first `n` rows: those that no event gets as far as.
pub open spec fn unreachable_errors(definition: MachineDef, states: Seq<Flat>, n: int) -> Seq<
    MessageView,
>
    decreases n,
{
    if n <= 0 {
        Seq::empty()
    } else {
        let before = unreachable_errors(definition, states, n - 1);
        if reachable(definition, states, n - 1) {
            before
        } else {
            before.push(
                MessageView {
                    span: definition.rows@[n - 1].span,
                    text: "unreachable transition row: an earlier unguarded row handles every matching leaf/event pair"@,
                    failed: None,
                },
            )
        }
    }
}

/// The messages on which rows the events meet.
pub open spec fn coverage_errors(definition: MachineDef, states: Seq<Flat>) -> Seq<MessageView> {
    let missing = missing_pairs(definition, states, states.len() as int);
    let unhandled = if missing.len() > 0 {
        seq![
            MessageView {
                span: definition.name.span,
                text: missing_text(definition.name, missing),
                failed: None,
            },
        ]
    } else {
        Seq::empty()
    };
    unhandled + unreachable_errors(definition, states, definition.rows@.len() as int)
}

/// Whether a row is for an event.
pub fn row_covers_event(row: &Row, event: &String) -> (covered: bool)
    ensures
        covered == covers(*row, event@),
{
    match &row.event {
        RowEvent::Any => true,
        RowEvent::Event(pattern) => pattern.name.name == *event,
    }
}

/// The name of the parent of the state with the given name.
pub(crate) fn find_parent<'a>(states: &Vec<FlatState<'a>>, name: &String) -> (parent: Option<
    &'a Ident,
>)
    ensures
        parent is Some <==> parent_of(flats(states@), name@) is Some,
        parent matches Some(p) ==> parent_of(flats(states@), name@) == Some(p.name@),
{
    match find_state(states, states.len(), name) {
        Some(k) => {
            assert(flats(states@)[k as int] == states@[k as int]@);
            states[k].parent
        },
        None => None,
    }
}

/// How far the source of a row is from a leaf, or `None` where the row is not for the leaf.
pub fn row_source_distance<'a>(row: &Row, leaf: &String, states: &Vec<FlatState<'a>>) -> (found:
    Option<usize>)
    ensures
        found is Some <==> distance(*row, leaf@, flats(states@)) is Some,
        found matches Some(d) ==> distance(*row, leaf@, flats(states@)) == Some(d as nat),
{
    let ghost all = flats(states@);
    match &row.source {
        RowSource::Any => Some(usize::MAX),
        RowSource::State(pattern) => {
            let target = &pattern.name.name;
            let mut current = leaf;
            let mut levels: usize = 0;
            while levels < states.len()
                invariant
                    levels <= states@.len(),
                    all == flats(states@),
                    distance(*row, leaf@, all) == levels_to(all, leaf@, target@, 0),
                    ancestor(all, leaf@, levels as nat) == Some(current@),
                    levels_to(all, leaf@, target@, 0) == levels_to(
                        all,
                        leaf@,
                        target@,
                        levels as nat,
                    ),
                decreases states@.len() - levels,
            {
                if *current == *target {
                    return Some(levels);
                }
                match find_parent(states, current) {
                    Some(parent) => {
                        assert(ancestor(all, leaf@, (levels + 1) as nat) == Some(parent.name@));
                        current = &parent.name;
                        levels = levels + 1;
                    },
                    None => {
                        proof {
                            assert(ancestor(all, leaf@, (levels + 1) as nat) is None);
                            lemma_no_ancestor_above(all, leaf@, target@, (levels + 1) as nat);
                        }
                        return None;
                    },
                }
            }
            None
        },
    }
}

/// Above the topmost ancestor there is none.
proof fn lemma_no_ancestor_above(states: Seq<Flat>, name: Seq<char>, target: Seq<char>, k: nat)
    requires
        ancestor(states, name, k) is None,
    ensures
        levels_to(states, name, target, k) is None,
    decreases states.len() - k,
{
    if k < states.len() {
        assert(ancestor(states, name, k + 1) is None);
        lemma_no_ancestor_above(states, name, target, k + 1);
    }
}

/// Whether an event in a leaf can get as far as row `i`.
fn row_reached(
    definition: &MachineDef,
    states: &Vec<FlatState<'_>>,
    leaf: &String,
    event: &String,
    i: usize,
) -> (found: bool)
    requires
        i < definition.rows@.len(),
    ensures
        found == reached(definition.rows@, flats(states@), leaf@, event@, i as int),
{
    let ghost rows = definition.rows@;
    let ghost all = flats(states@);
    if !row_covers_event(&definition.rows[i], event) {
        return false;
    }
    match row_source_distance(&definition.rows[i], leaf, states) {
        None => false,
        Some(own) => {
            let mut j: usize = 0;
            while j < definition.rows.len()
                invariant
                    j <= definition.rows@.len(),
                    i < definition.rows@.len(),
                    rows == definition.rows@,
                    all == flats(states@),
                    distance(rows[i as int], leaf@, all) == Some(own as nat),
                    forall|k: int|
                        0 <= k < j ==> !#[trigger] shadows(rows, all, leaf@, event@, k, i as int),
                decreases definition.rows@.len() - j,
            {
                let row = &definition.rows[j];
                if row.guard.is_none() && row_covers_event(row, event) {
                    if let Some(other) = row_source_distance(row, leaf, states) {
                        if other < own || (other == own && j < i) {
                            assert(shadows(rows, all, leaf@, event@, j as int, i as int));
                            return false;
                        }
                    }
                }
                j = j + 1;
            }
            true
        },
    }
}

fn row_reachable(definition: &MachineDef, states: &Vec<FlatState<'_>>, i: usize) -> (found: bool)
    requires
        i < definition.rows@.len(),
    ensures
        found == reachable(*definition, flats(states@), i as int),
{
    let ghost all = flats(states@);
    let mut l: usize = 0;
    while l < states.len()
        invariant
            l <= states@.len(),
            i < definition.rows@.len(),
            all == flats(states@),
            forall|m: int, e: int|
                0 <= m < l && 0 <= e < definition.events@.len() ==> !#[trigger] reached_at(
                    *definition,
                    all,
                    i as int,
                    m,
                    e,
                ),
        decreases states@.len() - l,
    {
        let node = states[l].node;
        assert(all[l as int].node == *node);
        if !node.is_compound() {
            let mut e: usize = 0;
            while e < definition.events.len()
                invariant
                    e <= definition.events@.len(),
                    l < states@.len(),
                    i < definition.rows@.len(),
                    all == flats(states@),
                    all[l as int].node == *node,
                    !node.compound(),
                    forall|f: int|
                        0 <= f < e ==> !#[trigger] reached_at(
                            *definition,
                            all,
                            i as int,
                            l as int,
                            f,
                        ),
                decreases definition.events@.len() - e,
            {
                if row_reached(
                    definition,
                    states,
                    &node.variant.name.name,
                    &definition.events[e].name.name,
                    i,
                ) {
                    assert(reached_at(*definition, all, i as int, l as int, e as int));
                    return true;
                }
                e = e + 1;
            }
        }
        l = l + 1;
    }
    false
}

fn pair_handled(
    definition: &MachineDef,
    states: &Vec<FlatState<'_>>,
    leaf: &String,
    event: &String,
) -> (found: bool)
    ensures
        found == handled(definition.rows@, flats(states@), leaf@, event@),
{
    let ghost all = flats(states@);
    let mut i: usize = 0;
    while i < definition.rows.len()
        invariant
            i <= definition.rows@.len(),
            all == flats(states@),
            forall|j: int|
                0 <= j < i ==> !#[trigger] applies(definition.rows@[j], leaf@, event@, all),
        decreases definition.rows@.len() - i,
    {
        let row = &definition.rows[i];
        if row_covers_event(row, event) && row_source_distance(row, leaf, states).is_some() {
            assert(applies(definition.rows@[i as int], leaf@, event@, all));
            return true;
        }
        i = i + 1;
    }
    false
}

/// The texts of several strings, in order.
pub open spec fn texts(strings: Seq<String>) -> Seq<Seq<char>> {
    strings.map_values(|string: String| string@)
}

fn list_missing(definition: &MachineDef, states: &Vec<FlatState<'_>>) -> (missing: Vec<String>)
    ensures
        texts(missing@) == missing_pairs(*definition, flats(states@), states@.len() as int),
{
    let ghost all = flats(states@);
    let mut missing: Vec<String> = Vec::new();
    let mut l: usize = 0;
    assert(texts(missing@) =~= missing_pairs(*definition, all, 0));
    while l < states.len()
        invariant
            l <= states@.len(),
            all == flats(states@),
            texts(missing@) == missing_pairs(*definition, all, l as int),
        decreases states@.len() - l,
    {
        let node = states[l].node;
        assert(all[l as int].node == *node);
        let ghost before = texts(missing@);
        if !node.is_compound() {
            let leaf = &node.variant.name;
            let mut e: usize = 0;
            assert(before =~= before + missing_events(*definition, all, l as int, 0));
            while e < definition.events.len()
                invariant
                    e <= definition.events@.len(),
                    l < states@.len(),
                    all == flats(states@),
                    all[l as int].node == *node,
                    *leaf == node.variant.name,
                    texts(missing@) == before + missing_events(
                        *definition,
                        all,
                        l as int,
                        e as int,
                    ),
                decreases definition.events@.len() - e,
            {
                let event = &definition.events[e].name;
                let ghost so_far = texts(missing@);
                if !pair_handled(definition, states, &leaf.name, &event.name) {
                    let leaf_name = leaf.spelling();
                    let event_name = event.spelling();
                    let pair = join5("(", leaf_name.as_str(), ", ", event_name.as_str(), ")");
                    let ghost text = pair@;
                    missing.push(pair);
                    assert(texts(missing@) =~= so_far.push(text));
                }
                assert(texts(missing@) =~= before + missing_events(
                    *definition,
                    all,
                    l as int,
                    e + 1,
                ));
                e = e + 1;
            }
        }
        assert(texts(missing@) =~= missing_pairs(*definition, all, l + 1));
        l = l + 1;
    }
    missing
}

fn join_pairs(missing: &Vec<String>, n: usize) -> (text: String)
    requires
        n <= missing@.len(),
    ensures
        text@ == comma_separated(texts(missing@), n as int),
{
    let ghost all = texts(missing@);
    let mut text = String::new();
    let mut i: usize = 0;
    assert(text@ =~= comma_separated(all, 0));
    while i < n
        invariant
            i <= n <= missing@.len(),
            all == texts(missing@),
            text@ == comma_separated(all, i as int),
        decreases n - i,
    {
        let ghost so_far = text@;
        if i > 0 {
            text.append(", ");
        }
        text.append(missing[i].as_str());
        assert(all[i as int] == missing@[i as int]@);
        assert(text@ =~= comma_separated(all, i + 1));
        i = i + 1;
    }
    text
}

/// Reports the pairs of a leaf and an event that no row is for, and the rows that no event gets
/// as far as.
pub(crate) fn validate_coverage(
    definition: &MachineDef,
    states: &Vec<FlatState<'_>>,
    errors: &mut Vec<Message>,
)
    ensures
        messages_view(final(errors)@) == messages_view(old(errors)@) + coverage_errors(
            *definition,
            flats(states@),
        ),
{
    let ghost before = messages_view(errors@);
    let ghost all = flats(states@);
    let missing = list_missing(definition, states);
    let ghost pairs = texts(missing@);
    if missing.len() > 0 {
        let machine = definition.name.spelling();
        let shown = if missing.len() > SHOWN_PAIRS {
            let first = join_pairs(&missing, SHOWN_PAIRS);
            let more = decimal_text(missing.len() - SHOWN_PAIRS);
            let tail = join3(" and ", more.as_str(), " more");
            let mut shown = first;
            let ghost head = shown@;
            shown.append(tail.as_str());
            assert(shown@ =~= head + " and "@ + decimal((pairs.len() - SHOWN_PAIRS) as nat)
                + " more"@);
            shown
        } else {
            join_pairs(&missing, missing.len())
        };
        report(
            errors,
            definition.name.span,
            join5(
                "unhandled leaf/event pairs in `",
                machine.as_str(),
                "`: ",
                shown.as_str(),
                "",
            ),
        );
    }
    let ghost unhandled = if pairs.len() > 0 {
        seq![
            MessageView {
                span: definition.name.span,
                text: missing_text(definition.name, pairs),
                failed: None,
            },
        ]
    } else {
        Seq::empty()
    };
    proof {
        reveal_strlit("");
        assert(messages_view(errors@) =~= before + unhandled);
    }
    let mut i: usize = 0;
    assert(before + unhandled =~= before + unhandled + unreachable_errors(*definition, all, 0));
    while i < definition.rows.len()
        invariant
            i <= definition.rows@.len(),
            all == flats(states@),
            messages_view(errors@) == before + unhandled + unreachable_errors(
                *definition,
                all,
                i as int,
            ),
        decreases definition.rows@.len() - i,
    {
        if !row_reachable(definition, states, i) {
            report(
                errors,
                definition.rows[i].span,
                "unreachable transition row: an earlier unguarded row handles every matching leaf/event pair".to_owned(),
            );
        }
        assert(messages_view(errors@) =~= before + unhandled + unreachable_errors(
            *definition,
            all,
            i + 1,
        ));
        i = i + 1;
    }
    assert(messages_view(errors@) =~= before + coverage_errors(*definition, all));
}

} // verus!
