//! What reading the transition table and a whole definition means.
use crate::error::MessageView;
use crate::meaning::reading::{
    has_char, has_group, has_name, lemma_list, list_syntax, lists_items, names_are_read_as_spelled,
    reads_spelled, spells_name, spells_target_field, target_fields_are_read_as_spelled,
};
use crate::parse::cursor::{is_pair, name_syntax, separator_syntax};
use crate::parse::rows::{
    call_syntax, effect_syntax, guard_syntax, is_labelled, lemma_row_advances, outcome_syntax,
    pattern_names_syntax, pattern_syntax, place_syntax, rest_position, row_syntax, rows_syntax,
    target_syntax,
};
use crate::token::{Delimiter, Ident, Token};
use crate::views::{CallView, OutcomeView, PatternView, RowView, TargetView};
use vstd::prelude::*;

verus! {

/// Whether a word stands at a position.
pub open spec fn has_word(tokens: Seq<Token>, at: int, word: Seq<char>) -> bool {
    0 <= at < tokens.len() && (tokens[at] matches Token::Ident(ident, _) && ident.spelled() == word)
}

/// Whether two characters without a space in between stand at a position.
pub open spec fn has_chars(tokens: Seq<Token>, at: int, first: char, second: char) -> bool {
    0 <= at < tokens.len() && (tokens[at] matches Token::Punct(found, true, _) && found == first)
        && has_char(tokens, at + 1, second)
}

/// Whether tokens are the fields of a pattern, each at its start: separated by commas, with a `..`
/// behind them where `rest` is set, and perhaps a comma at the end.
pub open spec fn is_pattern_list(
    tokens: Seq<Token>,
    fields: Seq<Ident>,
    starts: Seq<int>,
    rest: bool,
    at: int,
) -> bool {
    &&& starts.len() == fields.len() + 1
    &&& starts[0] == at
    &&& forall|i: int|
        0 <= i < fields.len() ==> has_name(tokens, starts[i], #[trigger] fields[i]) && if has_char(
            tokens,
            starts[i] + 1,
            ',',
        ) {
            starts[i + 1] == starts[i] + 2
        } else {
            !rest && i + 1 == fields.len() && starts[i] + 1 == tokens.len() && starts[i + 1]
                == tokens.len()
        }
    &&& if rest {
        has_chars(tokens, starts.last(), '.', '.') && (starts.last() + 2 == tokens.len()
            || has_char(tokens, starts.last() + 2, ',') && starts.last() + 3 == tokens.len())
    } else {
        starts.last() == tokens.len()
    }
}

/// Whether tokens are the fields of a pattern.
pub open spec fn lists_pattern(tokens: Seq<Token>, fields: Seq<Ident>, rest: bool) -> bool {
    exists|starts: Seq<int>| #[trigger] is_pattern_list(tokens, fields, starts, rest, 0)
}

proof fn lemma_pattern_read(
    tokens: Seq<Token>,
    end: proc_macro2::Span,
    fields: Seq<Ident>,
    starts: Seq<int>,
    rest: bool,
    at: int,
)
    requires
        is_pattern_list(tokens, fields, starts, rest, at),
        0 <= at,
    ensures
        pattern_names_syntax(tokens, at, end) == Ok::<Seq<Ident>, MessageView>(fields),
        rest_position(tokens, at, end) is Some <==> rest,
        at <= tokens.len(),
    decreases fields.len(),
{
    if fields.len() == 0 {
        assert(fields =~= Seq::empty());
    } else {
        assert(has_name(tokens, starts[0], fields[0]));
        let others = fields.skip(1);
        let tail = starts.skip(1);
        assert forall|i: int| 0 <= i < others.len() implies has_name(
            tokens,
            tail[i],
            #[trigger] others[i],
        ) && if has_char(tokens, tail[i] + 1, ',') {
            tail[i + 1] == tail[i] + 2
        } else {
            !rest && i + 1 == others.len() && tail[i] + 1 == tokens.len() && tail[i + 1]
                == tokens.len()
        } by {
            assert(others[i] == fields[i + 1]);
        }
        assert(tail.last() == starts.last());
        lemma_pattern_read(tokens, end, others, tail, rest, starts[1]);
        assert(seq![fields[0]] + others =~= fields);
    }
}

proof fn lemma_pattern_was_spelled(tokens: Seq<Token>, end: proc_macro2::Span, at: int) -> (starts:
    Seq<int>)
    requires
        0 <= at <= tokens.len(),
        pattern_names_syntax(tokens, at, end) is Ok,
    ensures
        is_pattern_list(
            tokens,
            pattern_names_syntax(tokens, at, end)->Ok_0,
            starts,
            rest_position(tokens, at, end) is Some,
            at,
        ),
    decreases tokens.len() - at,
{
    let fields = pattern_names_syntax(tokens, at, end)->Ok_0;
    let rest = rest_position(tokens, at, end) is Some;
    if at >= tokens.len() || is_pair(tokens, at, '.', '.') {
        seq![at]
    } else {
        let (name, comma) = name_syntax(tokens, at, end)->Ok_0;
        let next = separator_syntax(tokens, comma, end, "pattern field"@)->Ok_0;
        let tail = lemma_pattern_was_spelled(tokens, end, next);
        let others = pattern_names_syntax(tokens, next, end)->Ok_0;
        let starts = seq![at] + tail;
        assert(fields == seq![name] + others);
        assert(starts.last() == tail.last());
        assert forall|i: int| 0 <= i < fields.len() implies has_name(
            tokens,
            starts[i],
            #[trigger] fields[i],
        ) && if has_char(tokens, starts[i] + 1, ',') {
            starts[i + 1] == starts[i] + 2
        } else {
            !rest && i + 1 == fields.len() && starts[i] + 1 == tokens.len() && starts[i + 1]
                == tokens.len()
        } by {
            if i == 0 {
                assert(starts[1] == tail[0]);
                if !has_char(tokens, at + 1, ',') {
                    assert(next == tokens.len());
                    assert(others.len() == 0);
                }
            } else {
                assert(fields[i] == others[i - 1]);
                assert(starts[i] == tail[i - 1] && starts[i + 1] == tail[i]);
            }
        }
        starts
    }
}

/// How the state or the event of a row is spelled: `Name`, or `Name { field, ... }`, perhaps with a
/// `..` behind the fields.
pub open spec fn spells_pattern(tokens: Seq<Token>, from: int, to: int, pattern: PatternView) -> bool {
    &&& has_name(tokens, from, pattern.name)
    &&& if has_group(tokens, from + 1, Delimiter::Brace) {
        &&& to == from + 2
        &&& pattern.explicit_fields
        &&& lists_pattern(tokens[from + 1]->Group_1@, pattern.fields, pattern.rest)
    } else {
        &&& to == from + 1
        &&& !pattern.explicit_fields
        &&& !pattern.rest
        &&& pattern.fields.len() == 0
    }
}

/// A pattern is read as it is spelled.
pub proof fn patterns_are_read_as_spelled(
    tokens: Seq<Token>,
    end: proc_macro2::Span,
    from: int,
    to: int,
    pattern: PatternView,
)
    requires
        0 <= from,
    ensures
        pattern_syntax(tokens, from, end) == Ok::<(PatternView, int), MessageView>((pattern, to))
            <==> spells_pattern(tokens, from, to, pattern),
{
    if has_group(tokens, from + 1, Delimiter::Brace) {
        let inner = tokens[from + 1]->Group_1@;
        let close = tokens[from + 1]->Group_3;
        if pattern_names_syntax(inner, 0, close) is Ok {
            let starts = lemma_pattern_was_spelled(inner, close, 0);
        }
        if lists_pattern(inner, pattern.fields, pattern.rest) {
            let starts = choose|starts: Seq<int>| #[trigger]
                is_pattern_list(inner, pattern.fields, starts, pattern.rest, 0);
            lemma_pattern_read(inner, close, pattern.fields, starts, pattern.rest, 0);
        }
    } else {
        assert(pattern.fields.len() == 0 ==> pattern.fields =~= Seq::empty());
    }
}

/// How the source or the event of a row is spelled: `_`, or a pattern.
pub open spec fn spells_place(
    tokens: Seq<Token>,
    from: int,
    to: int,
    pattern: Option<PatternView>,
) -> bool {
    if has_word(tokens, from, "_"@) {
        pattern is None && to == from + 1
    } else {
        pattern matches Some(pattern) && spells_pattern(tokens, from, to, pattern)
    }
}

/// How the use of a callback is spelled: `name` or `name(argument, ...)`, behind `async` where it
/// is an async one.
pub open spec fn spells_call(tokens: Seq<Token>, from: int, to: int, call: CallView) -> bool {
    let at = if call.is_async {
        from + 1
    } else {
        from
    };
    &&& call.is_async == has_word(tokens, from, "async"@)
    &&& has_name(tokens, at, call.name)
    &&& if has_group(tokens, at + 1, Delimiter::Parenthesis) {
        to == at + 2 && lists_items(
            tokens[at + 1]->Group_1@,
            spells_name(tokens[at + 1]->Group_1@),
            call.arguments,
        )
    } else {
        to == at + 1 && call.arguments.len() == 0
    }
}

/// The use of a callback is read as it is spelled, with its arguments in their order.
pub proof fn calls_are_read_as_spelled(
    tokens: Seq<Token>,
    end: proc_macro2::Span,
    from: int,
    to: int,
    call: CallView,
)
    requires
        0 <= from,
    ensures
        call_syntax(tokens, from, end) == Ok::<(CallView, int), MessageView>((call, to))
            <==> spells_call(tokens, from, to, call),
{
    let at = if has_word(tokens, from, "async"@) {
        from + 1
    } else {
        from
    };
    if has_group(tokens, at + 1, Delimiter::Parenthesis) {
        names_are_read_as_spelled(
            tokens[at + 1]->Group_1@,
            tokens[at + 1]->Group_3,
            "callback argument"@,
            call.arguments,
        );
    } else {
        assert(call.arguments.len() == 0 ==> call.arguments =~= Seq::empty());
    }
}

/// How the guard of a row is spelled: `[call]`, or nothing.
pub open spec fn spells_guard(tokens: Seq<Token>, from: int, to: int, guard: Option<CallView>) -> bool {
    if has_group(tokens, from, Delimiter::Bracket) {
        &&& to == from + 1
        &&& guard matches Some(call) && spells_call(
            tokens[from]->Group_1@,
            0,
            tokens[from]->Group_1@.len() as int,
            call,
        )
    } else {
        to == from && guard is None
    }
}

/// How the effect of a row is spelled: `/ call`, or nothing.
pub open spec fn spells_effect(
    tokens: Seq<Token>,
    from: int,
    to: int,
    effect: Option<CallView>,
) -> bool {
    if has_char(tokens, from, '/') {
        effect matches Some(call) && spells_call(tokens, from + 1, to, call)
    } else {
        to == from && effect is None
    }
}

/// How the target of a row is spelled: `Name`, or `Name { field, ... }`.
pub open spec fn spells_target(tokens: Seq<Token>, from: int, to: int, target: TargetView) -> bool {
    &&& has_name(tokens, from, target.name)
    &&& if has_group(tokens, from + 1, Delimiter::Brace) {
        &&& to == from + 2
        &&& target.explicit_fields
        &&& lists_items(
            tokens[from + 1]->Group_1@,
            spells_target_field(tokens[from + 1]->Group_1@),
            target.fields,
        )
    } else {
        to == from + 1 && !target.explicit_fields && target.fields.len() == 0
    }
}

proof fn lemma_target(
    tokens: Seq<Token>,
    end: proc_macro2::Span,
    from: int,
    to: int,
    target: TargetView,
)
    requires
        0 <= from,
    ensures
        target_syntax(tokens, from, end) == Ok::<(TargetView, int), MessageView>((target, to))
            <==> spells_target(tokens, from, to, target),
{
    if has_group(tokens, from + 1, Delimiter::Brace) {
        target_fields_are_read_as_spelled(
            tokens[from + 1]->Group_1@,
            tokens[from + 1]->Group_3,
            target.fields,
        );
    } else {
        assert(target.fields.len() == 0 ==> target.fields =~= Seq::empty());
    }
}

/// How what a row does is spelled: `reject Reason`, a target, or `_`.
pub open spec fn spells_outcome(
    tokens: Seq<Token>,
    from: int,
    to: int,
    outcome: OutcomeView,
) -> bool {
    match outcome {
        OutcomeView::Reject(reason) => {
            &&& has_word(tokens, from, "reject"@)
            &&& tokens[from]->Ident_1
            &&& has_name(tokens, from + 1, reason)
            &&& to == from + 2
        },
        OutcomeView::Transition(_, Some(target)) => {
            &&& !has_word(tokens, from, "reject"@)
            &&& spells_target(tokens, from, to, target)
        },
        OutcomeView::Transition(_, None) => {
            &&& has_word(tokens, from, "_"@)
            &&& !tokens[from]->Ident_1
            &&& to == from + 1
        },
    }
}

/// The place of a token: that of a group is where it opens.
pub open spec fn stands_at(token: Token) -> proc_macro2::Span {
    match token {
        Token::Ident(ident, _) => ident.span,
        Token::Punct(_, _, span) => span,
        Token::Literal(_, span) => span,
        Token::Group(_, _, open, _, _) => open,
    }
}

/// Where the parts of a row stop: its source, its event, its guard and its effect.
pub struct RowStops {
    pub source: int,
    pub event: int,
    pub guard: int,
    pub effect: int,
}

/// How a row is spelled: `Label: Source + Event [guard] / effect => outcome`. A row that rejects
/// has no label and no effect.
pub open spec fn spells_row_at(
    tokens: Seq<Token>,
    from: int,
    to: int,
    row: RowView,
    stops: RowStops,
) -> bool {
    let start = if row.outcome is Transition {
        from + 2
    } else {
        from
    };
    &&& 0 <= from < tokens.len()
    &&& match row.outcome {
        OutcomeView::Transition(label, _) => has_name(tokens, from, label) && has_char(
            tokens,
            from + 1,
            ':',
        ),
        OutcomeView::Reject(_) => row.effect is None,
    }
    &&& row.span == stands_at(tokens[from])
    &&& spells_place(tokens, start, stops.source, row.source)
    &&& has_char(tokens, stops.source, '+')
    &&& spells_place(tokens, stops.source + 1, stops.event, row.event)
    &&& spells_guard(tokens, stops.event, stops.guard, row.guard)
    &&& spells_effect(tokens, stops.guard, stops.effect, row.effect)
    &&& has_chars(tokens, stops.effect, '=', '>')
    &&& spells_outcome(tokens, stops.effect + 2, to, row.outcome)
}

/// How a row is spelled.
pub open spec fn spells_row(tokens: Seq<Token>) -> spec_fn(int, int, RowView) -> bool {
    |from: int, to: int, row: RowView|
        exists|stops: RowStops| #[trigger] spells_row_at(tokens, from, to, row, stops)
}

proof fn lemma_place(
    tokens: Seq<Token>,
    end: proc_macro2::Span,
    from: int,
    to: int,
    pattern: Option<PatternView>,
)
    requires
        0 <= from,
    ensures
        place_syntax(tokens, from, end) == Ok::<(Option<PatternView>, int), MessageView>(
            (pattern, to),
        ) <==> spells_place(tokens, from, to, pattern),
        spells_place(tokens, from, to, pattern) ==> from < to <= tokens.len(),
{
    if let Some(some) = pattern {
        patterns_are_read_as_spelled(tokens, end, from, to, some);
    }
}

proof fn lemma_guard(tokens: Seq<Token>, from: int, to: int, guard: Option<CallView>)
    requires
        0 <= from,
    ensures
        guard_syntax(tokens, from) == Ok::<(Option<CallView>, int), MessageView>((guard, to))
            <==> spells_guard(tokens, from, to, guard),
        spells_guard(tokens, from, to, guard) ==> from <= to,
{
    if has_group(tokens, from, Delimiter::Bracket) {
        let inner = tokens[from]->Group_1@;
        let close = tokens[from]->Group_3;
        if let Ok((call, next)) = call_syntax(inner, 0, close) {
            calls_are_read_as_spelled(inner, close, 0, next, call);
        }
        if let Some(call) = guard {
            calls_are_read_as_spelled(inner, close, 0, inner.len() as int, call);
        }
    }
}

proof fn lemma_effect(
    tokens: Seq<Token>,
    end: proc_macro2::Span,
    from: int,
    to: int,
    effect: Option<CallView>,
)
    requires
        0 <= from,
    ensures
        effect_syntax(tokens, from, end) == Ok::<(Option<CallView>, int), MessageView>((effect, to))
            <==> spells_effect(tokens, from, to, effect),
        spells_effect(tokens, from, to, effect) ==> from <= to,
{
    if let Some(call) = effect {
        calls_are_read_as_spelled(tokens, end, from + 1, to, call);
    }
}

proof fn lemma_outcome(
    tokens: Seq<Token>,
    end: proc_macro2::Span,
    from: int,
    to: int,
    label: Option<Ident>,
    has_effect: bool,
    outcome: OutcomeView,
)
    requires
        0 <= from,
    ensures
        outcome_syntax(tokens, from, end, label, has_effect) == Ok::<
            (OutcomeView, int),
            MessageView,
        >((outcome, to)) <==> spells_outcome(tokens, from, to, outcome) && match outcome {
            OutcomeView::Transition(own, _) => label == Some(own),
            OutcomeView::Reject(_) => label is None && !has_effect,
        },
        spells_outcome(tokens, from, to, outcome) ==> from < to <= tokens.len(),
{
    if let OutcomeView::Transition(_, Some(target)) = outcome {
        lemma_target(tokens, end, from, to, target);
    }
}

/// A row is read as exactly what is spelled.
pub proof fn rows_are_read_as_spelled(
    tokens: Seq<Token>,
    end: proc_macro2::Span,
    from: int,
    to: int,
    row: RowView,
)
    requires
        0 <= from < tokens.len(),
    ensures
        row_syntax(tokens, from, end) == Ok::<(RowView, int), MessageView>((row, to)) <==> (
        spells_row(tokens))(from, to, row),
{
    if row_syntax(tokens, from, end) == Ok::<(RowView, int), MessageView>((row, to)) {
        lemma_row_was_spelled(tokens, end, from, to, row);
    }
    if (spells_row(tokens))(from, to, row) {
        let stops = choose|stops: RowStops| #[trigger]
            spells_row_at(tokens, from, to, row, stops);
        lemma_row_is_read(tokens, end, from, to, row, stops);
    }
}

proof fn lemma_row_is_read(
    tokens: Seq<Token>,
    end: proc_macro2::Span,
    from: int,
    to: int,
    row: RowView,
    stops: RowStops,
)
    requires
        spells_row_at(tokens, from, to, row, stops),
    ensures
        row_syntax(tokens, from, end) == Ok::<(RowView, int), MessageView>((row, to)),
{
    let start = if row.outcome is Transition {
        from + 2
    } else {
        from
    };
    let label = match row.outcome {
        OutcomeView::Transition(label, _) => Some(label),
        OutcomeView::Reject(_) => None,
    };
    lemma_place(tokens, end, start, stops.source, row.source);
    lemma_place(tokens, end, stops.source + 1, stops.event, row.event);
    lemma_guard(tokens, stops.event, stops.guard, row.guard);
    lemma_effect(tokens, end, stops.guard, stops.effect, row.effect);
    lemma_outcome(tokens, end, stops.effect + 2, to, label, row.effect is Some, row.outcome);
}

proof fn lemma_row_was_spelled(
    tokens: Seq<Token>,
    end: proc_macro2::Span,
    from: int,
    to: int,
    row: RowView,
)
    requires
        0 <= from < tokens.len(),
        row_syntax(tokens, from, end) == Ok::<(RowView, int), MessageView>((row, to)),
    ensures
        (spells_row(tokens))(from, to, row),
{
    let labelled = is_labelled(tokens, from);
    let label = if labelled {
        Some(tokens[from]->Ident_0)
    } else {
        None
    };
    let start = if labelled {
        from + 2
    } else {
        from
    };
    let (source, plus) = place_syntax(tokens, start, end)->Ok_0;
    lemma_place(tokens, end, start, plus, source);
    let (event, bracket) = place_syntax(tokens, plus + 1, end)->Ok_0;
    lemma_place(tokens, end, plus + 1, bracket, event);
    let (guard, slash) = guard_syntax(tokens, bracket)->Ok_0;
    lemma_guard(tokens, bracket, slash, guard);
    let (effect, arrow) = effect_syntax(tokens, slash, end)->Ok_0;
    lemma_effect(tokens, end, slash, arrow, effect);
    lemma_outcome(tokens, end, arrow + 2, to, label, effect is Some, row.outcome);
    let stops = RowStops { source: plus, event: bracket, guard: slash, effect: arrow };
    assert(spells_row_at(tokens, from, to, row, stops));
}

/// The transition table is read as exactly the rows that are spelled, in their order; with or
/// without a comma at the end.
pub proof fn tables_are_read_as_spelled(
    tokens: Seq<Token>,
    end: proc_macro2::Span,
    rows: Seq<RowView>,
)
    ensures
        rows_syntax(tokens, 0, end) == Ok::<Seq<RowView>, MessageView>(rows) <==> lists_items(
            tokens,
            spells_row(tokens),
            rows,
        ),
{
    let one = |at: int| row_syntax(tokens, at, end);
    let spells = spells_row(tokens);
    assert forall|at: int, stop: int, value: RowView|
        0 <= at < stop <= tokens.len() && #[trigger] spells(at, stop, value) implies one(at) == Ok::<
        (RowView, int),
        MessageView,
    >((value, stop)) by {
        rows_are_read_as_spelled(tokens, end, at, stop, value);
    }
    assert forall|at: int| 0 <= at < tokens.len() implies (#[trigger] one(at) matches Ok(
        (value, stop),
    ) ==> at < stop <= tokens.len() && spells(at, stop, value)) by {
        if let Ok((value, stop)) = one(at) {
            rows_are_read_as_spelled(tokens, end, at, stop, value);
            lemma_row_advances(tokens, at, end);
        }
    }
    assert(reads_spelled(tokens, one, spells));
    lemma_rows(tokens, end, one, 0);
    lemma_list(tokens, one, spells, "transition"@, end, rows);
}

proof fn lemma_rows(
    tokens: Seq<Token>,
    end: proc_macro2::Span,
    one: spec_fn(int) -> Result<(RowView, int), MessageView>,
    at: int,
)
    requires
        0 <= at,
        forall|i: int| #[trigger] one(i) == row_syntax(tokens, i, end),
    ensures
        rows_syntax(tokens, at, end) == list_syntax(tokens, one, "transition"@, at, end),
    decreases tokens.len() - at,
{
    if at < tokens.len() {
        lemma_row_advances(tokens, at, end);
        if let Ok((_, stop)) = one(at) {
            if let Ok(next) = separator_syntax(tokens, stop, end, "transition"@) {
                lemma_rows(tokens, end, one, next);
            }
        }
    }
}

} // verus!
