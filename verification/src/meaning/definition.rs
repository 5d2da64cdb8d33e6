//! What reading a whole definition means: which keys it has, and what it says.
use crate::error::MessageView;
use crate::meaning::reading::{
    events_are_read_as_spelled, has_char, has_group, has_name, lists_items, lists_nodes,
    spells_type, spells_variant, states_are_read_as_spelled,
};
use crate::meaning::spelling::{has_word, spells_row, tables_are_read_as_spelled};
use crate::parse::definition::{
    blank, definition_of, definition_syntax, entries_syntax, entry_syntax, lemma_entry_advances,
    value_syntax, DraftView,
};
use crate::parse::rows::rows_syntax;
use crate::parse::states::{nodes_syntax, variants_syntax};
use crate::token::{Delimiter, Ident, Token, TreeView};
use crate::views::{DefinitionView, NodeView, RowView, TypeView, VariantView};
use vstd::prelude::*;

verus! {

/// A key of a definition with its value.
pub enum EntryView {
    Name(Ident),
    Serde(bool),
    Context(TypeView),
    Effect(TypeView),
    States(Seq<NodeView>),
    Events(Seq<VariantView>),
    Rows(Seq<RowView>),
}

/// The word of a key.
pub open spec fn key_of(entry: EntryView) -> Seq<char> {
    match entry {
        EntryView::Name(_) => "name"@,
        EntryView::Serde(_) => "serde"@,
        EntryView::Context(_) => "context"@,
        EntryView::Effect(_) => "effect"@,
        EntryView::States(_) => "states"@,
        EntryView::Events(_) => "events"@,
        EntryView::Rows(_) => "transitions"@,
    }
}

/// Whether two entries have the same key.
pub open spec fn same_key(one: EntryView, other: EntryView) -> bool {
    match one {
        EntryView::Name(_) => other is Name,
        EntryView::Serde(_) => other is Serde,
        EntryView::Context(_) => other is Context,
        EntryView::Effect(_) => other is Effect,
        EntryView::States(_) => other is States,
        EntryView::Events(_) => other is Events,
        EntryView::Rows(_) => other is Rows,
    }
}

/// How the value of a key is spelled.
pub open spec fn spells_value(
    tokens: Seq<Token>,
    source: Seq<TreeView>,
    from: int,
    to: int,
    entry: EntryView,
) -> bool {
    match entry {
        EntryView::Name(name) => has_name(tokens, from, name) && to == from + 1,
        EntryView::Serde(value) => to == from + 1 && if value {
            has_word(tokens, from, "true"@)
        } else {
            has_word(tokens, from, "false"@)
        },
        EntryView::Context(ty) => spells_type(tokens, source, from, to, ty),
        EntryView::Effect(ty) => spells_type(tokens, source, from, to, ty),
        EntryView::States(nodes) => to == from + 1 && has_group(tokens, from, Delimiter::Brace)
            && lists_nodes(tokens[from]->Group_1@, nodes),
        EntryView::Events(events) => to == from + 1 && has_group(tokens, from, Delimiter::Brace)
            && lists_items(
            tokens[from]->Group_1@,
            spells_variant(tokens[from]->Group_1@),
            events,
        ),
        EntryView::Rows(rows) => to == from + 1 && has_group(tokens, from, Delimiter::Brace)
            && lists_items(tokens[from]->Group_1@, spells_row(tokens[from]->Group_1@), rows),
    }
}

/// How a key with its value is spelled: `key: value`, perhaps with a comma behind it.
pub open spec fn spells_entry(
    tokens: Seq<Token>,
    source: Seq<TreeView>,
    from: int,
    to: int,
    entry: EntryView,
) -> bool {
    &&& 0 <= from < tokens.len()
    &&& tokens[from] matches Token::Ident(key, true) && key.spelled() == key_of(entry)
    &&& has_char(tokens, from + 1, ':')
    &&& exists|stop: int| #[trigger]
        spells_value(tokens, source, from + 2, stop, entry) && to == (if has_char(
            tokens,
            stop,
            ',',
        ) {
            stop + 1
        } else {
            stop
        })
}

/// Whether tokens are the entries of a definition from a position on, one behind the other.
pub open spec fn are_entries(
    tokens: Seq<Token>,
    source: Seq<TreeView>,
    entries: Seq<EntryView>,
    starts: Seq<int>,
    at: int,
) -> bool {
    &&& starts.len() == entries.len() + 1
    &&& starts[0] == at
    &&& starts.last() == tokens.len()
    &&& forall|i: int|
        0 <= i < entries.len() ==> spells_entry(
            tokens,
            source,
            starts[i],
            starts[i + 1],
            #[trigger] entries[i],
        )
}

/// Whether no key is given twice.
pub open spec fn keys_are_distinct(entries: Seq<EntryView>) -> bool {
    forall|i: int, j: int|
        0 <= i < j < entries.len() ==> !same_key(#[trigger] entries[i], #[trigger] entries[j])
}

/// Whether a definition says what its entries say.
pub open spec fn says(definition: DefinitionView, entries: Seq<EntryView>, end: proc_macro2::Span) -> bool {
    &&& entries.contains(EntryView::Name(definition.name))
    &&& entries.contains(EntryView::States(definition.states))
    &&& entries.contains(EntryView::Events(definition.events))
    &&& entries.contains(EntryView::Rows(definition.rows))
    &&& definition.serde <==> entries.contains(EntryView::Serde(true))
    &&& match definition.context {
        Some(ty) => entries.contains(EntryView::Context(ty)),
        None => forall|i: int| 0 <= i < entries.len() ==> !(#[trigger] entries[i] is Context),
    }
    &&& match definition.effect {
        Some(ty) => entries.contains(EntryView::Effect(ty)),
        None => forall|i: int| 0 <= i < entries.len() ==> !(#[trigger] entries[i] is Effect),
    }
    &&& definition.call_site == end
}

/// Whether a key was not given yet.
spec fn is_free(draft: DraftView, entry: EntryView) -> bool {
    match entry {
        EntryView::Name(_) => draft.name is None,
        EntryView::Serde(_) => draft.serde is None,
        EntryView::Context(_) => draft.context is None,
        EntryView::Effect(_) => draft.effect is None,
        EntryView::States(_) => draft.states is None,
        EntryView::Events(_) => draft.events is None,
        EntryView::Rows(_) => draft.rows is None,
    }
}

spec fn with_entry(draft: DraftView, entry: EntryView) -> DraftView {
    match entry {
        EntryView::Name(name) => DraftView { name: Some(name), ..draft },
        EntryView::Serde(serde) => DraftView { serde: Some(serde), ..draft },
        EntryView::Context(ty) => DraftView { context: Some(ty), ..draft },
        EntryView::Effect(ty) => DraftView { effect: Some(ty), ..draft },
        EntryView::States(nodes) => DraftView { states: Some(nodes), ..draft },
        EntryView::Events(events) => DraftView { events: Some(events), ..draft },
        EntryView::Rows(rows) => DraftView { rows: Some(rows), ..draft },
    }
}

/// Whether a draft holds exactly what entries say, on top of another.
spec fn holds(draft: DraftView, first: DraftView, entries: Seq<EntryView>) -> bool {
    &&& forall|i: int| 0 <= i < entries.len() ==> with_entry(draft, #[trigger] entries[i]) == draft
    &&& draft.name == first.name || draft.name is Some && entries.contains(
        EntryView::Name(draft.name->0),
    )
    &&& draft.serde == first.serde || draft.serde is Some && entries.contains(
        EntryView::Serde(draft.serde->0),
    )
    &&& draft.context == first.context || draft.context is Some && entries.contains(
        EntryView::Context(draft.context->0),
    )
    &&& draft.effect == first.effect || draft.effect is Some && entries.contains(
        EntryView::Effect(draft.effect->0),
    )
    &&& draft.states == first.states || draft.states is Some && entries.contains(
        EntryView::States(draft.states->0),
    )
    &&& draft.events == first.events || draft.events is Some && entries.contains(
        EntryView::Events(draft.events->0),
    )
    &&& draft.rows == first.rows || draft.rows is Some && entries.contains(
        EntryView::Rows(draft.rows->0),
    )
}

proof fn lemma_words()
    ensures
        "name"@ != "serde"@ && "name"@ != "context"@ && "name"@ != "effect"@ && "name"@
            != "rejection"@ && "name"@ != "states"@ && "name"@ != "events"@ && "name"@
            != "transitions"@,
        "serde"@ != "context"@ && "serde"@ != "effect"@ && "serde"@ != "rejection"@ && "serde"@
            != "states"@ && "serde"@ != "events"@ && "serde"@ != "transitions"@,
        "context"@ != "effect"@ && "context"@ != "rejection"@ && "context"@ != "states"@
            && "context"@ != "events"@ && "context"@ != "transitions"@,
        "effect"@ != "rejection"@ && "effect"@ != "states"@ && "effect"@ != "events"@ && "effect"@
            != "transitions"@,
        "rejection"@ != "states"@ && "rejection"@ != "events"@ && "rejection"@ != "transitions"@,
        "states"@ != "events"@ && "states"@ != "transitions"@ && "events"@ != "transitions"@,
        "true"@ != "false"@,
{
    reveal_strlit("name");
    reveal_strlit("serde");
    reveal_strlit("context");
    reveal_strlit("effect");
    reveal_strlit("rejection");
    reveal_strlit("states");
    reveal_strlit("events");
    reveal_strlit("transitions");
    reveal_strlit("true");
    reveal_strlit("false");
    assert("name"@[0] == 'n' && "serde"@[1] == 'e' && "states"@[1] == 't');
    assert("effect"@[1] == 'f' && "events"@[1] == 'v');
    assert("context"@.len() == 7 && "rejection"@.len() == 9 && "transitions"@.len() == 11);
    assert("name"@.len() == 4 && "serde"@.len() == 5 && "states"@.len() == 6);
    assert("effect"@.len() == 6 && "events"@.len() == 6);
    assert("effect"@[0] == 'e' && "states"@[0] == 's');
    assert("true"@.len() == 4 && "false"@.len() == 5);
}

proof fn lemma_braces(tokens: Seq<Token>, from: int, entry: EntryView)
    requires
        has_group(tokens, from, Delimiter::Brace),
    ensures
        ({
            let inner = tokens[from]->Group_1@;
            let close = tokens[from]->Group_3;
            match entry {
                EntryView::States(nodes) => nodes_syntax(inner, 0, close)
                    == Ok::<Seq<NodeView>, MessageView>(nodes) <==> lists_nodes(inner, nodes),
                EntryView::Events(events) => variants_syntax(inner, 0, close)
                    == Ok::<Seq<VariantView>, MessageView>(events) <==> lists_items(
                    inner,
                    spells_variant(inner),
                    events,
                ),
                EntryView::Rows(rows) => rows_syntax(inner, 0, close) == Ok::<
                    Seq<RowView>,
                    MessageView,
                >(rows) <==> lists_items(inner, spells_row(inner), rows),
                _ => true,
            }
        }),
{
    let inner = tokens[from]->Group_1@;
    let close = tokens[from]->Group_3;
    match entry {
        EntryView::States(nodes) => states_are_read_as_spelled(inner, close, nodes),
        EntryView::Events(events) => events_are_read_as_spelled(inner, close, events),
        EntryView::Rows(rows) => tables_are_read_as_spelled(inner, close, rows),
        _ => {},
    }
}

proof fn lemma_value_is_read(
    tokens: Seq<Token>,
    source: Seq<TreeView>,
    end: proc_macro2::Span,
    key: Ident,
    draft: DraftView,
    from: int,
    to: int,
    entry: EntryView,
)
    requires
        0 <= from,
        key.spelled() == key_of(entry),
        spells_value(tokens, source, from, to, entry),
        is_free(draft, entry),
    ensures
        value_syntax(tokens, source, from, end, key, draft) == Ok::<(DraftView, int), MessageView>(
            (with_entry(draft, entry), to),
        ),
{
    lemma_words();
    if has_group(tokens, from, Delimiter::Brace) {
        lemma_braces(tokens, from, entry);
    }
}

proof fn lemma_value_was_spelled(
    tokens: Seq<Token>,
    source: Seq<TreeView>,
    end: proc_macro2::Span,
    key: Ident,
    draft: DraftView,
    from: int,
) -> (entry: EntryView)
    requires
        0 <= from,
        value_syntax(tokens, source, from, end, key, draft) is Ok,
    ensures
        key.spelled() == key_of(entry),
        is_free(draft, entry),
        value_syntax(tokens, source, from, end, key, draft)->Ok_0.0 == with_entry(draft, entry),
        spells_value(
            tokens,
            source,
            from,
            value_syntax(tokens, source, from, end, key, draft)->Ok_0.1,
            entry,
        ),
{
    lemma_words();
    let known = value_syntax(tokens, source, from, end, key, draft)->Ok_0.0;
    let word = key.spelled();
    let entry = if word == "name"@ {
        EntryView::Name(known.name->0)
    } else if word == "serde"@ {
        EntryView::Serde(known.serde->0)
    } else if word == "context"@ {
        EntryView::Context(known.context->0)
    } else if word == "effect"@ {
        EntryView::Effect(known.effect->0)
    } else if word == "states"@ {
        EntryView::States(known.states->0)
    } else if word == "events"@ {
        EntryView::Events(known.events->0)
    } else {
        EntryView::Rows(known.rows->0)
    };
    if has_group(tokens, from, Delimiter::Brace) {
        lemma_braces(tokens, from, entry);
    }
    entry
}

proof fn lemma_holds_more(
    draft: DraftView,
    first: DraftView,
    entry: EntryView,
    others: Seq<EntryView>,
)
    requires
        holds(draft, with_entry(first, entry), others),
        is_free(first, entry),
        forall|i: int| 0 <= i < others.len() ==> !same_key(entry, #[trigger] others[i]),
    ensures
        holds(draft, first, seq![entry] + others),
{
    let all = seq![entry] + others;
    assert forall|other: EntryView| others.contains(other) implies #[trigger] all.contains(other)
        && !same_key(entry, other) by {
        let i = choose|i: int| 0 <= i < others.len() && others[i] == other;
        assert(all[i + 1] == other);
    }
    assert(all[0] == entry);
    assert(all.contains(entry));
    assert(with_entry(draft, entry) == draft);
    assert forall|i: int| 0 <= i < all.len() implies with_entry(draft, #[trigger] all[i]) == draft by {
        if i > 0 {
            assert(all[i] == others[i - 1]);
        }
    }
    if draft.name is Some {
        assert(all.contains(EntryView::Name(draft.name->0)) || draft.name == first.name);
    }
    if draft.serde is Some {
        assert(all.contains(EntryView::Serde(draft.serde->0)) || draft.serde == first.serde);
    }
    if draft.context is Some {
        assert(all.contains(EntryView::Context(draft.context->0)) || draft.context == first.context);
    }
    if draft.effect is Some {
        assert(all.contains(EntryView::Effect(draft.effect->0)) || draft.effect == first.effect);
    }
    if draft.states is Some {
        assert(all.contains(EntryView::States(draft.states->0)) || draft.states == first.states);
    }
    if draft.events is Some {
        assert(all.contains(EntryView::Events(draft.events->0)) || draft.events == first.events);
    }
    if draft.rows is Some {
        assert(all.contains(EntryView::Rows(draft.rows->0)) || draft.rows == first.rows);
    }
}

proof fn lemma_entries_read(
    tokens: Seq<Token>,
    source: Seq<TreeView>,
    end: proc_macro2::Span,
    entries: Seq<EntryView>,
    starts: Seq<int>,
    at: int,
    draft: DraftView,
)
    requires
        0 <= at,
        are_entries(tokens, source, entries, starts, at),
        keys_are_distinct(entries),
        forall|i: int| 0 <= i < entries.len() ==> is_free(draft, #[trigger] entries[i]),
    ensures
        entries_syntax(tokens, source, at, end, draft) is Ok,
        holds(entries_syntax(tokens, source, at, end, draft)->Ok_0, draft, entries),
    decreases entries.len(),
{
    if entries.len() == 0 {
    } else {
        let entry = entries[0];
        let others = entries.skip(1);
        let tail = starts.skip(1);
        let key = tokens[at]->Ident_0;
        assert(spells_entry(tokens, source, starts[0], starts[1], entries[0]));
        let stop = choose|stop: int| #[trigger]
            spells_value(tokens, source, at + 2, stop, entry) && starts[1] == (if has_char(
                tokens,
                stop,
                ',',
            ) {
                stop + 1
            } else {
                stop
            });
        lemma_value_is_read(tokens, source, end, key, draft, at + 2, stop, entry);
        let known = with_entry(draft, entry);
        assert(entry_syntax(tokens, source, at, end, draft) == Ok::<(DraftView, int), MessageView>(
            (known, starts[1]),
        ));
        lemma_entry_advances(tokens, source, at, end, draft);
        assert forall|i: int| 0 <= i < others.len() implies is_free(known, #[trigger] others[i]) by {
            assert(others[i] == entries[i + 1]);
            assert(!same_key(entries[0], entries[i + 1]));
        }
        assert forall|i: int| 0 <= i < others.len() implies spells_entry(
            tokens,
            source,
            tail[i],
            tail[i + 1],
            #[trigger] others[i],
        ) by {
            assert(others[i] == entries[i + 1]);
        }
        assert(keys_are_distinct(others)) by {
            assert forall|i: int, j: int| 0 <= i < j < others.len() implies !same_key(
                #[trigger] others[i],
                #[trigger] others[j],
            ) by {
                assert(others[i] == entries[i + 1] && others[j] == entries[j + 1]);
            }
        }
        assert(tail.last() == starts.last());
        assert forall|i: int| 0 <= i < others.len() implies !same_key(entry, #[trigger] others[i]) by {
            assert(others[i] == entries[i + 1]);
        }
        lemma_entries_read(tokens, source, end, others, tail, starts[1], known);
        lemma_holds_more(
            entries_syntax(tokens, source, starts[1], end, known)->Ok_0,
            draft,
            entry,
            others,
        );
        assert(seq![entry] + others =~= entries);
    }
}

proof fn lemma_entries_were_spelled(
    tokens: Seq<Token>,
    source: Seq<TreeView>,
    end: proc_macro2::Span,
    at: int,
    draft: DraftView,
) -> (spelled: (Seq<EntryView>, Seq<int>))
    requires
        0 <= at <= tokens.len(),
        entries_syntax(tokens, source, at, end, draft) is Ok,
    ensures
        are_entries(tokens, source, spelled.0, spelled.1, at),
        keys_are_distinct(spelled.0),
        forall|i: int| 0 <= i < spelled.0.len() ==> is_free(draft, #[trigger] spelled.0[i]),
        holds(entries_syntax(tokens, source, at, end, draft)->Ok_0, draft, spelled.0),
    decreases tokens.len() - at,
{
    if at >= tokens.len() {
        (Seq::empty(), seq![at])
    } else {
        lemma_entry_advances(tokens, source, at, end, draft);
        let (known, next) = entry_syntax(tokens, source, at, end, draft)->Ok_0;
        let key = tokens[at]->Ident_0;
        let entry = lemma_value_was_spelled(tokens, source, end, key, draft, at + 2);
        let stop = value_syntax(tokens, source, at + 2, end, key, draft)->Ok_0.1;
        assert(spells_value(tokens, source, at + 2, stop, entry));
        assert(spells_entry(tokens, source, at, next, entry));
        let (others, tail) = lemma_entries_were_spelled(tokens, source, end, next, known);
        let entries = seq![entry] + others;
        let starts = seq![at] + tail;
        assert(starts.last() == tail.last());
        assert forall|i: int| 0 <= i < entries.len() implies spells_entry(
            tokens,
            source,
            starts[i],
            starts[i + 1],
            #[trigger] entries[i],
        ) by {
            if i > 0 {
                assert(entries[i] == others[i - 1]);
                assert(starts[i] == tail[i - 1] && starts[i + 1] == tail[i]);
            } else {
                assert(starts[1] == tail[0]);
            }
        }
        assert forall|i: int| 0 <= i < entries.len() implies is_free(draft, #[trigger] entries[i]) by {
            if i > 0 {
                assert(entries[i] == others[i - 1]);
                assert(is_free(known, others[i - 1]));
            }
        }
        assert forall|i: int, j: int| 0 <= i < j < entries.len() implies !same_key(
            #[trigger] entries[i],
            #[trigger] entries[j],
        ) by {
            assert(entries[j] == others[j - 1]);
            if i > 0 {
                assert(entries[i] == others[i - 1]);
            } else {
                assert(is_free(known, others[j - 1]));
            }
        }
        assert forall|i: int| 0 <= i < others.len() implies !same_key(entry, #[trigger] others[i]) by {
            assert(entries[i + 1] == others[i]);
            assert(!same_key(entries[0], entries[i + 1]));
        }
        lemma_holds_more(
            entries_syntax(tokens, source, at, end, draft)->Ok_0,
            draft,
            entry,
            others,
        );
        (entries, starts)
    }
}

/// Whether tokens are a definition: its keys in any order, none twice.
pub open spec fn spells_definition(
    tokens: Seq<Token>,
    source: Seq<TreeView>,
    end: proc_macro2::Span,
    definition: DefinitionView,
) -> bool {
    exists|entries: Seq<EntryView>, starts: Seq<int>| #[trigger]
        are_entries(tokens, source, entries, starts, 0) && keys_are_distinct(entries) && says(
            definition,
            entries,
            end,
        )
}

/// A definition is read as exactly what is spelled, whatever the order of its keys; and nothing
/// else is read as a definition.
pub proof fn definitions_are_read_as_spelled(
    tokens: Seq<Token>,
    source: Seq<TreeView>,
    end: proc_macro2::Span,
    definition: DefinitionView,
)
    ensures
        definition_syntax(tokens, source, end) == Ok::<DefinitionView, MessageView>(definition)
            <==> spells_definition(tokens, source, end, definition),
{
    if definition_syntax(tokens, source, end) == Ok::<DefinitionView, MessageView>(definition) {
        let (entries, starts) = lemma_entries_were_spelled(tokens, source, end, 0, blank());
        let draft = entries_syntax(tokens, source, 0, end, blank())->Ok_0;
        lemma_says(draft, entries, tokens, end, definition);
    }
    if spells_definition(tokens, source, end, definition) {
        let (entries, starts) = choose|entries: Seq<EntryView>, starts: Seq<int>| #[trigger]
            are_entries(tokens, source, entries, starts, 0) && keys_are_distinct(entries) && says(
                definition,
                entries,
                end,
            );
        lemma_entries_read(tokens, source, end, entries, starts, 0, blank());
        let draft = entries_syntax(tokens, source, 0, end, blank())->Ok_0;
        lemma_says(draft, entries, tokens, end, definition);
    }
}

proof fn lemma_says(
    draft: DraftView,
    entries: Seq<EntryView>,
    tokens: Seq<Token>,
    end: proc_macro2::Span,
    definition: DefinitionView,
)
    requires
        holds(draft, blank(), entries),
        keys_are_distinct(entries),
    ensures
        definition_of(tokens, end, draft) == Ok::<DefinitionView, MessageView>(definition)
            <==> says(definition, entries, end),
{
    if definition_of(tokens, end, draft) == Ok::<DefinitionView, MessageView>(definition) {
        assert(entries.contains(EntryView::Name(definition.name)));
        assert(entries.contains(EntryView::States(definition.states)));
        assert(entries.contains(EntryView::Events(definition.events)));
        assert(entries.contains(EntryView::Rows(definition.rows)));
        if entries.contains(EntryView::Serde(true)) {
            lemma_kept(draft, entries, EntryView::Serde(true));
        }
        assert forall|i: int| 0 <= i < entries.len() && definition.context is None implies !(
        #[trigger] entries[i] is Context) by {
            if entries[i] is Context {
                assert(with_entry(draft, entries[i]) == draft);
            }
        }
        assert forall|i: int| 0 <= i < entries.len() && definition.effect is None implies !(
        #[trigger] entries[i] is Effect) by {
            if entries[i] is Effect {
                assert(with_entry(draft, entries[i]) == draft);
            }
        }
        if let Some(ty) = definition.context {
            assert(entries.contains(EntryView::Context(ty)));
        }
        if let Some(ty) = definition.effect {
            assert(entries.contains(EntryView::Effect(ty)));
        }
    }
    if says(definition, entries, end) {
        lemma_kept(draft, entries, EntryView::Name(definition.name));
        lemma_kept(draft, entries, EntryView::States(definition.states));
        lemma_kept(draft, entries, EntryView::Events(definition.events));
        lemma_kept(draft, entries, EntryView::Rows(definition.rows));
        if definition.serde {
            lemma_kept(draft, entries, EntryView::Serde(true));
        }
        if let Some(ty) = definition.context {
            lemma_kept(draft, entries, EntryView::Context(ty));
        } else if let Some(ty) = draft.context {
            let i = choose|i: int| 0 <= i < entries.len() && entries[i] == EntryView::Context(ty);
            assert(entries[i] is Context);
        }
        if let Some(ty) = definition.effect {
            lemma_kept(draft, entries, EntryView::Effect(ty));
        } else if let Some(ty) = draft.effect {
            let i = choose|i: int| 0 <= i < entries.len() && entries[i] == EntryView::Effect(ty);
            assert(entries[i] is Effect);
        }
    }
}

proof fn lemma_kept(draft: DraftView, entries: Seq<EntryView>, entry: EntryView)
    requires
        holds(draft, blank(), entries),
        entries.contains(entry),
    ensures
        with_entry(draft, entry) == draft,
{
    let i = choose|i: int| 0 <= i < entries.len() && entries[i] == entry;
    assert(with_entry(draft, entries[i]) == draft);
}

} // verus!
