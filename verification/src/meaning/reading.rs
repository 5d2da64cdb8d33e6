//! What reading a definition means: how lists, fields, states, events and rows are spelled.
use crate::error::MessageView;
use crate::model::TargetField;
use crate::parse::cursor::{is_punct, name_syntax, punct_syntax, separator_syntax, type_syntax};
use crate::parse::rows::{names_syntax, target_fields_syntax};
use crate::parse::states::{
    behind_braces, behind_mark, fields_syntax, nodes_syntax, payload_syntax, state_body_syntax,
    variants_syntax,
};
use crate::token::{
    placed, shapes, stream_trees, trees_behind, Delimiter, Ident, Shape, Token, TreeView,
};
use crate::types::type_read;
use crate::views::{FieldView, NodeView, TypeView, VariantView};
use vstd::prelude::*;

verus! {

/// Whether a punctuation character stands at a position.
pub open spec fn has_char(tokens: Seq<Token>, at: int, ch: char) -> bool {
    0 <= at < tokens.len() && (tokens[at] matches Token::Punct(found, _, _) && found == ch)
}

/// Whether a name stands at a position: a word that is no keyword.
pub open spec fn has_name(tokens: Seq<Token>, at: int, name: Ident) -> bool {
    0 <= at < tokens.len() && tokens[at] == Token::Ident(name, true)
}

/// Whether a group in the given brackets stands at a position.
pub open spec fn has_group(tokens: Seq<Token>, at: int, delimiter: Delimiter) -> bool {
    0 <= at < tokens.len() && (tokens[at] matches Token::Group(found, ..) && found == delimiter)
}

/// Whether an item of a list ends at a position, and the next one, or the end of the list, is at
/// another: there is a comma in between, or the item is the last.
pub open spec fn is_cut(tokens: Seq<Token>, stop: int, next: int, last: bool) -> bool {
    ||| has_char(tokens, stop, ',') && next == stop + 1
    ||| last && stop == tokens.len() && next == stop
}

/// Whether item `i` of a list stands between its start and its stop, with the next one, or the end
/// of the list, behind it.
pub open spec fn is_item<T>(
    tokens: Seq<Token>,
    spells: spec_fn(int, int, T) -> bool,
    items: Seq<T>,
    starts: Seq<int>,
    stops: Seq<int>,
    i: int,
) -> bool {
    &&& starts[i] < stops[i] <= tokens.len()
    &&& spells(starts[i], stops[i], items[i])
    &&& is_cut(tokens, stops[i], starts[i + 1], i + 1 == items.len())
}

/// Whether tokens are a list from a position on: the items are separated by commas, and behind the
/// last one a comma may stand.
pub open spec fn is_list<T>(
    tokens: Seq<Token>,
    spells: spec_fn(int, int, T) -> bool,
    items: Seq<T>,
    starts: Seq<int>,
    stops: Seq<int>,
    at: int,
) -> bool {
    &&& starts.len() == items.len() + 1
    &&& stops.len() == items.len()
    &&& starts[0] == at
    &&& starts.last() == tokens.len()
    &&& forall|i: int|
        0 <= i < items.len() ==> #[trigger] is_item(tokens, spells, items, starts, stops, i)
}

/// Whether tokens are a list of the items.
pub open spec fn lists_items<T>(
    tokens: Seq<Token>,
    spells: spec_fn(int, int, T) -> bool,
    items: Seq<T>,
) -> bool {
    exists|starts: Seq<int>, stops: Seq<int>| #[trigger]
        is_list(tokens, spells, items, starts, stops, 0)
}

/// Reading items one after the other, each with the separator behind it.
pub(crate) open spec fn list_syntax<T>(
    tokens: Seq<Token>,
    item: spec_fn(int) -> Result<(T, int), MessageView>,
    name: Seq<char>,
    at: int,
    end: proc_macro2::Span,
) -> Result<Seq<T>, MessageView>
    decreases tokens.len() - at,
{
    if at >= tokens.len() {
        Ok(Seq::empty())
    } else {
        match item(at) {
            Err(message) => Err(message),
            Ok((value, stop)) => match separator_syntax(tokens, stop, end, name) {
                Err(message) => Err(message),
                Ok(next) => if next <= at || next > tokens.len() {
                    Ok(Seq::empty())
                } else {
                    match list_syntax(tokens, item, name, next, end) {
                        Err(message) => Err(message),
                        Ok(rest) => Ok(seq![value] + rest),
                    }
                },
            },
        }
    }
}

/// Whether an item parser reads what is spelled, and nothing else.
pub(crate) open spec fn reads_spelled<T>(
    tokens: Seq<Token>,
    item: spec_fn(int) -> Result<(T, int), MessageView>,
    spells: spec_fn(int, int, T) -> bool,
) -> bool {
    &&& forall|at: int, stop: int, value: T|
        0 <= at < stop <= tokens.len() && #[trigger] spells(at, stop, value) ==> item(at) == Ok::<
            (T, int),
            MessageView,
        >((value, stop))
    &&& forall|at: int|
        0 <= at < tokens.len() ==> (#[trigger] item(at) matches Ok((value, stop)) ==> at < stop
            <= tokens.len() && spells(at, stop, value))
}

proof fn lemma_list_read<T>(
    tokens: Seq<Token>,
    item: spec_fn(int) -> Result<(T, int), MessageView>,
    spells: spec_fn(int, int, T) -> bool,
    name: Seq<char>,
    end: proc_macro2::Span,
    items: Seq<T>,
    starts: Seq<int>,
    stops: Seq<int>,
    i: int,
)
    requires
        reads_spelled(tokens, item, spells),
        is_list(tokens, spells, items, starts, stops, 0),
        0 <= i <= items.len(),
    ensures
        list_syntax(tokens, item, name, starts[i], end) == Ok::<Seq<T>, MessageView>(
            items.skip(i),
        ),
        0 <= starts[i] <= tokens.len(),
    decreases items.len() - i,
{
    if i == items.len() {
        assert(items.skip(i) =~= Seq::empty());
    } else {
        lemma_list_read(tokens, item, spells, name, end, items, starts, stops, i + 1);
        assert(is_item(tokens, spells, items, starts, stops, i));
        lemma_starts_ahead(tokens, spells, items, starts, stops, i);
        assert(item(starts[i]) == Ok::<(T, int), MessageView>((items[i], stops[i])));
        assert(seq![items[i]] + items.skip(i + 1) =~= items.skip(i));
    }
}

proof fn lemma_starts_ahead<T>(
    tokens: Seq<Token>,
    spells: spec_fn(int, int, T) -> bool,
    items: Seq<T>,
    starts: Seq<int>,
    stops: Seq<int>,
    i: int,
)
    requires
        is_list(tokens, spells, items, starts, stops, 0),
        0 <= i < items.len(),
    ensures
        0 <= starts[i],
    decreases i,
{
    if i > 0 {
        assert(is_item(tokens, spells, items, starts, stops, i - 1));
        lemma_starts_ahead(tokens, spells, items, starts, stops, i - 1);
    }
}

proof fn lemma_list_was_spelled<T>(
    tokens: Seq<Token>,
    item: spec_fn(int) -> Result<(T, int), MessageView>,
    spells: spec_fn(int, int, T) -> bool,
    name: Seq<char>,
    end: proc_macro2::Span,
    at: int,
) -> (cut: (Seq<int>, Seq<int>))
    requires
        reads_spelled(tokens, item, spells),
        0 <= at <= tokens.len(),
        list_syntax(tokens, item, name, at, end) is Ok,
    ensures
        is_list(
            tokens,
            spells,
            list_syntax(tokens, item, name, at, end)->Ok_0,
            cut.0,
            cut.1,
            at,
        ),
    decreases tokens.len() - at,
{
    let items = list_syntax(tokens, item, name, at, end)->Ok_0;
    if at >= tokens.len() {
        (seq![at], Seq::empty())
    } else {
        let (value, stop) = item(at)->Ok_0;
        assert(item(at) == Ok::<(T, int), MessageView>((value, stop)));
        assert(spells(at, stop, value) && at < stop <= tokens.len());
        let next = separator_syntax(tokens, stop, end, name)->Ok_0;
        let (starts, stops) = lemma_list_was_spelled(tokens, item, spells, name, end, next);
        let rest = list_syntax(tokens, item, name, next, end)->Ok_0;
        let all_starts = seq![at] + starts;
        let all_stops = seq![stop] + stops;
        assert(items == seq![value] + rest);
        assert(all_starts.last() == starts.last());
        assert forall|i: int| 0 <= i < items.len() implies #[trigger] is_item(
            tokens,
            spells,
            items,
            all_starts,
            all_stops,
            i,
        ) by {
            if i == 0 {
                assert(all_starts[1] == next);
                if stop == tokens.len() {
                    assert(next == tokens.len());
                    assert(rest.len() == 0);
                }
            } else {
                assert(is_item(tokens, spells, rest, starts, stops, i - 1));
                assert(all_starts[i] == starts[i - 1] && all_starts[i + 1] == starts[i]);
                assert(all_stops[i] == stops[i - 1]);
                assert(items[i] == rest[i - 1]);
            }
        }
        (all_starts, all_stops)
    }
}

/// Both ways: what is spelled is read, and what is read was spelled.
pub(crate) proof fn lemma_list<T>(
    tokens: Seq<Token>,
    item: spec_fn(int) -> Result<(T, int), MessageView>,
    spells: spec_fn(int, int, T) -> bool,
    name: Seq<char>,
    end: proc_macro2::Span,
    items: Seq<T>,
)
    requires
        reads_spelled(tokens, item, spells),
    ensures
        list_syntax(tokens, item, name, 0, end) == Ok::<Seq<T>, MessageView>(items) <==> lists_items(
            tokens,
            spells,
            items,
        ),
{
    if lists_items(tokens, spells, items) {
        let (starts, stops) = choose|starts: Seq<int>, stops: Seq<int>| #[trigger]
            is_list(tokens, spells, items, starts, stops, 0);
        lemma_list_read(tokens, item, spells, name, end, items, starts, stops, 0);
        assert(items.skip(0) =~= items);
    }
    if list_syntax(tokens, item, name, 0, end) == Ok::<Seq<T>, MessageView>(items) {
        let (starts, stops) = lemma_list_was_spelled(tokens, item, spells, name, end, 0);
        assert(is_list(tokens, spells, items, starts, stops, 0));
    }
}

/// How a name in a list is spelled.
pub open spec fn spells_name(tokens: Seq<Token>) -> spec_fn(int, int, Ident) -> bool {
    |from: int, to: int, name: Ident| has_name(tokens, from, name) && to == from + 1
}

/// A list of names is read as exactly the names that are spelled, in their order; with or without a
/// comma at the end.
pub proof fn names_are_read_as_spelled(
    tokens: Seq<Token>,
    end: proc_macro2::Span,
    item: Seq<char>,
    names: Seq<Ident>,
)
    ensures
        names_syntax(tokens, 0, end, item) == Ok::<Seq<Ident>, MessageView>(names) <==> lists_items(
            tokens,
            spells_name(tokens),
            names,
        ),
{
    let one = |at: int| name_syntax(tokens, at, end);
    assert(reads_spelled(tokens, one, spells_name(tokens)));
    lemma_names(tokens, end, item, one, 0);
    lemma_list(tokens, one, spells_name(tokens), item, end, names);
}

proof fn lemma_names(
    tokens: Seq<Token>,
    end: proc_macro2::Span,
    item: Seq<char>,
    one: spec_fn(int) -> Result<(Ident, int), MessageView>,
    at: int,
)
    requires
        0 <= at,
        forall|i: int| #[trigger] one(i) == name_syntax(tokens, i, end),
    ensures
        names_syntax(tokens, at, end, item) == list_syntax(tokens, one, item, at, end),
    decreases tokens.len() - at,
{
    if at < tokens.len() {
        if let Ok((_, stop)) = one(at) {
            if let Ok(next) = separator_syntax(tokens, stop, end, item) {
                lemma_names(tokens, end, item, one, next);
            }
        }
    }
}

/// How a type is spelled: `syn` reads it there, and leaves as many tokens as stand behind it.
pub open spec fn spells_type(
    tokens: Seq<Token>,
    source: Seq<TreeView>,
    from: int,
    to: int,
    ty: TypeView,
) -> bool {
    &&& from < to <= tokens.len()
    &&& type_read(shapes(placed(trees_behind(source, from)))) == Ok::<
        (Seq<Shape>, nat),
        Seq<char>,
    >((ty.tokens, (tokens.len() - to) as nat))
}

/// How a payload field is spelled: `name: Type`.
pub open spec fn spells_field(tokens: Seq<Token>, source: Seq<TreeView>) -> spec_fn(
    int,
    int,
    FieldView,
) -> bool {
    |from: int, to: int, field: FieldView|
        has_name(tokens, from, field.name) && has_char(tokens, from + 1, ':') && spells_type(
            tokens,
            source,
            from + 2,
            to,
            field.ty,
        )
}

spec fn one_field(
    tokens: Seq<Token>,
    source: Seq<TreeView>,
    at: int,
    end: proc_macro2::Span,
) -> Result<(FieldView, int), MessageView> {
    match name_syntax(tokens, at, end) {
        Err(message) => Err(message),
        Ok((name, colon)) => match punct_syntax(tokens, colon, end, ':', "expected `:`"@) {
            Err(message) => Err(message),
            Ok(start) => match type_syntax(tokens, source, start, end) {
                Err(message) => Err(message),
                Ok((ty, stop)) => Ok((FieldView { name, ty }, stop)),
            },
        },
    }
}

/// The payload fields of a state or an event are read as exactly those that are spelled, in their
/// order; with or without a comma at the end.
pub proof fn fields_are_read_as_spelled(
    tokens: Seq<Token>,
    source: Seq<TreeView>,
    end: proc_macro2::Span,
    fields: Seq<FieldView>,
)
    ensures
        fields_syntax(tokens, source, 0, end) == Ok::<Seq<FieldView>, MessageView>(fields)
            <==> lists_items(tokens, spells_field(tokens, source), fields),
{
    let one = |at: int| one_field(tokens, source, at, end);
    assert(reads_spelled(tokens, one, spells_field(tokens, source)));
    lemma_fields(tokens, source, end, one, 0);
    lemma_list(tokens, one, spells_field(tokens, source), "field"@, end, fields);
}

proof fn lemma_fields(
    tokens: Seq<Token>,
    source: Seq<TreeView>,
    end: proc_macro2::Span,
    one: spec_fn(int) -> Result<(FieldView, int), MessageView>,
    at: int,
)
    requires
        0 <= at,
        forall|i: int| #[trigger] one(i) == one_field(tokens, source, i, end),
    ensures
        fields_syntax(tokens, source, at, end) == list_syntax(tokens, one, "field"@, at, end),
    decreases tokens.len() - at,
{
    if at < tokens.len() {
        if let Ok((_, stop)) = one(at) {
            if let Ok(next) = separator_syntax(tokens, stop, end, "field"@) {
                lemma_fields(tokens, source, end, one, next);
            }
        }
    }
}

/// How a payload field of a target is spelled: `name`, or `name: binding`.
pub open spec fn spells_target_field(tokens: Seq<Token>) -> spec_fn(int, int, TargetField) -> bool {
    |from: int, to: int, field: TargetField|
        has_name(tokens, from, field.name) && if has_char(tokens, from + 1, ':') {
            has_name(tokens, from + 2, field.binding) && to == from + 3
        } else {
            field.binding == field.name && to == from + 1
        }
}

spec fn one_target_field(tokens: Seq<Token>, at: int, end: proc_macro2::Span) -> Result<
    (TargetField, int),
    MessageView,
> {
    match name_syntax(tokens, at, end) {
        Err(message) => Err(message),
        Ok((name, colon)) => {
            let bound = if is_punct(tokens, colon, ':') {
                name_syntax(tokens, colon + 1, end)
            } else {
                Ok((name, colon))
            };
            match bound {
                Err(message) => Err(message),
                Ok((binding, stop)) => Ok((TargetField { name, binding }, stop)),
            }
        },
    }
}

/// The payload fields of a target are read as exactly those that are spelled, in their order; with
/// or without a comma at the end.
pub proof fn target_fields_are_read_as_spelled(
    tokens: Seq<Token>,
    end: proc_macro2::Span,
    fields: Seq<TargetField>,
)
    ensures
        target_fields_syntax(tokens, 0, end) == Ok::<Seq<TargetField>, MessageView>(fields)
            <==> lists_items(tokens, spells_target_field(tokens), fields),
{
    let one = |at: int| one_target_field(tokens, at, end);
    assert(reads_spelled(tokens, one, spells_target_field(tokens)));
    lemma_target_fields(tokens, end, one, 0);
    lemma_list(tokens, one, spells_target_field(tokens), "target field"@, end, fields);
}

proof fn lemma_target_fields(
    tokens: Seq<Token>,
    end: proc_macro2::Span,
    one: spec_fn(int) -> Result<(TargetField, int), MessageView>,
    at: int,
)
    requires
        0 <= at,
        forall|i: int| #[trigger] one(i) == one_target_field(tokens, i, end),
    ensures
        target_fields_syntax(tokens, at, end) == list_syntax(
            tokens,
            one,
            "target field"@,
            at,
            end,
        ),
    decreases tokens.len() - at,
{
    if at < tokens.len() {
        if let Ok((_, stop)) = one(at) {
            if let Ok(next) = separator_syntax(tokens, stop, end, "target field"@) {
                lemma_target_fields(tokens, end, one, next);
            }
        }
    }
}

/// How an event is spelled: `Name`, or `Name { field: Type, ... }`.
pub open spec fn spells_variant(tokens: Seq<Token>) -> spec_fn(int, int, VariantView) -> bool {
    |from: int, to: int, variant: VariantView|
        has_name(tokens, from, variant.name) && if has_group(tokens, from + 1, Delimiter::Brace) {
            to == from + 2 && lists_items(
                tokens[from + 1]->Group_1@,
                spells_field(tokens[from + 1]->Group_1@, stream_trees(tokens[from + 1]->Group_4)),
                variant.fields,
            )
        } else {
            to == from + 1 && variant.fields.len() == 0
        }
}

spec fn one_variant(tokens: Seq<Token>, at: int, end: proc_macro2::Span) -> Result<
    (VariantView, int),
    MessageView,
> {
    match name_syntax(tokens, at, end) {
        Err(message) => Err(message),
        Ok((name, body)) => match payload_syntax(tokens, body) {
            Err(message) => Err(message),
            Ok(fields) => Ok((VariantView { name, fields }, behind_braces(tokens, body))),
        },
    }
}

/// The events are read as exactly those that are spelled, in their order, each with its payload
/// fields; with or without a comma at the end.
pub proof fn events_are_read_as_spelled(
    tokens: Seq<Token>,
    end: proc_macro2::Span,
    events: Seq<VariantView>,
)
    ensures
        variants_syntax(tokens, 0, end) == Ok::<Seq<VariantView>, MessageView>(events)
            <==> lists_items(tokens, spells_variant(tokens), events),
{
    let one = |at: int| one_variant(tokens, at, end);
    let spells = spells_variant(tokens);
    assert forall|at: int, stop: int, value: VariantView|
        0 <= at < stop <= tokens.len() && #[trigger] spells(at, stop, value) implies one(at) == Ok::<
        (VariantView, int),
        MessageView,
    >((value, stop)) by {
        if has_group(tokens, at + 1, Delimiter::Brace) {
            lemma_payload(tokens, at + 1, value.fields);
        } else {
            assert(value.fields =~= Seq::empty());
        }
    }
    assert forall|at: int| 0 <= at < tokens.len() implies (#[trigger] one(at) matches Ok(
        (value, stop),
    ) ==> at < stop <= tokens.len() && spells(at, stop, value)) by {
        if let Ok((value, stop)) = one(at) {
            if has_group(tokens, at + 1, Delimiter::Brace) {
                lemma_payload(tokens, at + 1, value.fields);
            }
        }
    }
    lemma_variants(tokens, end, one, 0);
    lemma_list(tokens, one, spells, "variant"@, end, events);
}

proof fn lemma_payload(tokens: Seq<Token>, at: int, fields: Seq<FieldView>)
    requires
        has_group(tokens, at, Delimiter::Brace),
    ensures
        payload_syntax(tokens, at) == Ok::<Seq<FieldView>, MessageView>(fields) <==> lists_items(
            tokens[at]->Group_1@,
            spells_field(tokens[at]->Group_1@, stream_trees(tokens[at]->Group_4)),
            fields,
        ),
{
    fields_are_read_as_spelled(
        tokens[at]->Group_1@,
        stream_trees(tokens[at]->Group_4),
        tokens[at]->Group_3,
        fields,
    );
}

proof fn lemma_variants(
    tokens: Seq<Token>,
    end: proc_macro2::Span,
    one: spec_fn(int) -> Result<(VariantView, int), MessageView>,
    at: int,
)
    requires
        0 <= at,
        forall|i: int| #[trigger] one(i) == one_variant(tokens, i, end),
    ensures
        variants_syntax(tokens, at, end) == list_syntax(tokens, one, "variant"@, at, end),
    decreases tokens.len() - at,
{
    if at < tokens.len() {
        if let Ok((_, stop)) = one(at) {
            if let Ok(next) = separator_syntax(tokens, stop, end, "variant"@) {
                lemma_variants(tokens, end, one, next);
            }
        }
    }
}

/// Whether tokens in braces start like a payload field: a name, and a colon.
pub open spec fn starts_with_field(tokens: Seq<Token>) -> bool {
    tokens.len() > 0 && (tokens[0] matches Token::Ident(_, true)) && has_char(tokens, 1, ':')
}

/// How a state is spelled: `Name`, `Name { field: Type, ... }` or `Name { Child, ... }`, with a
/// star in front where it is an initial one.
pub open spec fn spells_node(tokens: Seq<Token>, from: int, to: int, node: NodeView) -> bool
    decreases node, 0nat,
{
    let at = if node.initial {
        from + 1
    } else {
        from
    };
    &&& node.initial == has_char(tokens, from, '*')
    &&& has_name(tokens, at, node.variant.name)
    &&& if has_group(tokens, at + 1, Delimiter::Brace) {
        let inner = tokens[at + 1]->Group_1@;
        &&& to == at + 2
        &&& inner.len() > 0
        &&& if starts_with_field(inner) {
            node.children.len() == 0 && lists_items(
                inner,
                spells_field(inner, stream_trees(tokens[at + 1]->Group_4)),
                node.variant.fields,
            )
        } else {
            node.variant.fields.len() == 0 && lists_nodes(inner, node.children)
        }
    } else {
        to == at + 1 && node.variant.fields.len() == 0 && node.children.len() == 0
    }
}

/// Whether tokens are a list of states: they are separated by commas, and behind the last one a
/// comma may stand.
pub open spec fn lists_nodes(tokens: Seq<Token>, nodes: Seq<NodeView>) -> bool
    decreases nodes, 1nat,
{
    exists|starts: Seq<int>, stops: Seq<int>|
        #![trigger node_cuts(tokens, nodes, starts, stops)]
        node_cuts(tokens, nodes, starts, stops) && forall|i: int|
            0 <= i < nodes.len() ==> spells_node(tokens, starts[i], stops[i], #[trigger] nodes[i])
}

/// Whether the states of a list stand between their starts and their stops.
pub open spec fn node_cuts(
    tokens: Seq<Token>,
    nodes: Seq<NodeView>,
    starts: Seq<int>,
    stops: Seq<int>,
) -> bool {
    &&& starts.len() == nodes.len() + 1
    &&& stops.len() == nodes.len()
    &&& starts[0] == 0
    &&& starts.last() == tokens.len()
    &&& forall|i: int|
        0 <= i < nodes.len() ==> starts[i] < #[trigger] stops[i] <= tokens.len() && is_cut(
            tokens,
            stops[i],
            starts[i + 1],
            i + 1 == nodes.len(),
        )
}

spec fn spells_nodes(tokens: Seq<Token>) -> spec_fn(int, int, NodeView) -> bool {
    |from: int, to: int, node: NodeView| spells_node(tokens, from, to, node)
}

proof fn lemma_lists_nodes(tokens: Seq<Token>, nodes: Seq<NodeView>)
    ensures
        lists_nodes(tokens, nodes) <==> lists_items(tokens, spells_nodes(tokens), nodes),
{
    let spells = spells_nodes(tokens);
    if lists_nodes(tokens, nodes) {
        let (starts, stops) = choose|starts: Seq<int>, stops: Seq<int>|
            #![trigger node_cuts(tokens, nodes, starts, stops)]
            node_cuts(tokens, nodes, starts, stops) && forall|i: int|
                0 <= i < nodes.len() ==> spells_node(
                    tokens,
                    starts[i],
                    stops[i],
                    #[trigger] nodes[i],
                );
        assert forall|i: int| 0 <= i < nodes.len() implies #[trigger] is_item(
            tokens,
            spells,
            nodes,
            starts,
            stops,
            i,
        ) by {
            assert(starts[i] < stops[i]);
            assert(spells_node(tokens, starts[i], stops[i], nodes[i]));
        }
        assert(is_list(tokens, spells, nodes, starts, stops, 0));
    }
    if lists_items(tokens, spells, nodes) {
        let (starts, stops) = choose|starts: Seq<int>, stops: Seq<int>| #[trigger]
            is_list(tokens, spells, nodes, starts, stops, 0);
        assert forall|i: int| 0 <= i < nodes.len() implies starts[i] < #[trigger] stops[i]
            <= tokens.len() && is_cut(
            tokens,
            stops[i],
            starts[i + 1],
            i + 1 == nodes.len(),
        ) by {
            assert(is_item(tokens, spells, nodes, starts, stops, i));
        }
        assert(node_cuts(tokens, nodes, starts, stops));
        assert forall|i: int| 0 <= i < nodes.len() implies spells_node(
            tokens,
            starts[i],
            stops[i],
            #[trigger] nodes[i],
        ) by {
            assert(is_item(tokens, spells, nodes, starts, stops, i));
        }
    }
}

spec fn one_node(tokens: Seq<Token>, at: int, end: proc_macro2::Span) -> Result<
    (NodeView, int),
    MessageView,
> {
    match name_syntax(tokens, behind_mark(tokens, at), end) {
        Err(message) => Err(message),
        Ok((name, body)) => match state_body_syntax(tokens, body, name) {
            Err(message) => Err(message),
            Ok((fields, children)) => Ok(
                (
                    NodeView {
                        variant: VariantView { name, fields },
                        initial: is_punct(tokens, at, '*'),
                        children,
                    },
                    behind_braces(tokens, body),
                ),
            ),
        },
    }
}

/// The states are read as exactly the tree that is spelled: the states in their order, each with
/// its payload fields or its child states, and marked as initial where a star stands in front; with
/// or without a comma at the end.
pub proof fn states_are_read_as_spelled(
    tokens: Seq<Token>,
    end: proc_macro2::Span,
    nodes: Seq<NodeView>,
)
    ensures
        nodes_syntax(tokens, 0, end) == Ok::<Seq<NodeView>, MessageView>(nodes) <==> lists_nodes(
            tokens,
            nodes,
        ),
    decreases tokens,
{
    let one = |at: int| one_node(tokens, at, end);
    let spells = spells_nodes(tokens);
    assert forall|at: int, stop: int, value: NodeView|
        0 <= at < stop <= tokens.len() && #[trigger] spells(at, stop, value) implies one(at) == Ok::<
        (NodeView, int),
        MessageView,
    >((value, stop)) by {
        let body = behind_mark(tokens, at) + 1;
        if has_group(tokens, body, Delimiter::Brace) {
            let inner = tokens[body]->Group_1@;
            let close = tokens[body]->Group_3;
            fields_are_read_as_spelled(
                inner,
                stream_trees(tokens[body]->Group_4),
                close,
                value.variant.fields,
            );
            states_are_read_as_spelled(inner, close, value.children);
        }
        assert(value.variant.fields.len() == 0 ==> value.variant.fields =~= Seq::empty());
        assert(value.children.len() == 0 ==> value.children =~= Seq::empty());
    }
    assert forall|at: int| 0 <= at < tokens.len() implies (#[trigger] one(at) matches Ok(
        (value, stop),
    ) ==> at < stop <= tokens.len() && spells(at, stop, value)) by {
        if let Ok((value, stop)) = one(at) {
            let body = behind_mark(tokens, at) + 1;
            if has_group(tokens, body, Delimiter::Brace) {
                let inner = tokens[body]->Group_1@;
                let close = tokens[body]->Group_3;
                fields_are_read_as_spelled(
                    inner,
                    stream_trees(tokens[body]->Group_4),
                    close,
                    value.variant.fields,
                );
                states_are_read_as_spelled(inner, close, value.children);
            }
        }
    }
    lemma_nodes(tokens, end, one, 0);
    lemma_list(tokens, one, spells, "state"@, end, nodes);
    lemma_lists_nodes(tokens, nodes);
}

proof fn lemma_nodes(
    tokens: Seq<Token>,
    end: proc_macro2::Span,
    one: spec_fn(int) -> Result<(NodeView, int), MessageView>,
    at: int,
)
    requires
        0 <= at,
        forall|i: int| #[trigger] one(i) == one_node(tokens, i, end),
    ensures
        nodes_syntax(tokens, at, end) == list_syntax(tokens, one, "state"@, at, end),
    decreases tokens.len() - at,
{
    if at < tokens.len() {
        if let Ok((_, stop)) = one(at) {
            if let Ok(next) = separator_syntax(tokens, stop, end, "state"@) {
                lemma_nodes(tokens, end, one, next);
            }
        }
    }
}

/// A list is spelled the same with a comma behind its last item as without one.
pub proof fn a_comma_may_end_a_list<T>(
    tokens: Seq<Token>,
    comma: Token,
    spells: spec_fn(int, int, T) -> bool,
    longer: spec_fn(int, int, T) -> bool,
    items: Seq<T>,
)
    requires
        has_char(seq![comma], 0, ','),
        !has_char(tokens, tokens.len() - 1, ','),
        lists_items(tokens, spells, items),
        items.len() > 0,
        forall|from: int, to: int, item: T|
            0 <= from < to <= tokens.len() && spells(from, to, item) ==> #[trigger] longer(
                from,
                to,
                item,
            ),
    ensures
        lists_items(tokens.push(comma), longer, items),
{
    let (starts, stops) = choose|starts: Seq<int>, stops: Seq<int>| #[trigger]
        is_list(tokens, spells, items, starts, stops, 0);
    let all = tokens.push(comma);
    let last = items.len() - 1;
    let ends = starts.update(items.len() as int, all.len() as int);
    lemma_starts(tokens, spells, items, starts, stops, last);
    assert(is_item(tokens, spells, items, starts, stops, last));
    if stops[last] < tokens.len() {
        assert(starts[last + 1] == stops[last] + 1);
        assert(has_char(tokens, tokens.len() - 1, ','));
    }
    assert forall|i: int| 0 <= i < items.len() implies #[trigger] is_item(
        all,
        longer,
        items,
        ends,
        stops,
        i,
    ) by {
        assert(is_item(tokens, spells, items, starts, stops, i));
        lemma_starts(tokens, spells, items, starts, stops, i);
        assert(longer(starts[i], stops[i], items[i]));
        if i == last {
            assert(all[tokens.len() as int] == seq![comma][0]);
        }
    }
    assert(is_list(all, longer, items, ends, stops, 0));
}

proof fn lemma_starts<T>(
    tokens: Seq<Token>,
    spells: spec_fn(int, int, T) -> bool,
    items: Seq<T>,
    starts: Seq<int>,
    stops: Seq<int>,
    i: int,
)
    requires
        is_list(tokens, spells, items, starts, stops, 0),
        0 <= i < items.len(),
    ensures
        0 <= starts[i] < tokens.len(),
    decreases i,
{
    assert(is_item(tokens, spells, items, starts, stops, i));
    if i > 0 {
        lemma_starts(tokens, spells, items, starts, stops, i - 1);
        assert(is_item(tokens, spells, items, starts, stops, i - 1));
    }
}

/// Fields are read the same with a comma behind the last one as without, where the types are.
pub proof fn a_comma_may_end_the_fields(
    tokens: Seq<Token>,
    comma: Token,
    source: Seq<TreeView>,
    longer: Seq<TreeView>,
    end: proc_macro2::Span,
    fields: Seq<FieldView>,
)
    requires
        has_char(seq![comma], 0, ','),
        !has_char(tokens, tokens.len() - 1, ','),
        fields.len() > 0,
        fields_syntax(tokens, source, 0, end) == Ok::<Seq<FieldView>, MessageView>(fields),
        forall|from: int, to: int, ty: TypeView|
            spells_type(tokens, source, from, to, ty) ==> #[trigger] spells_type(
                tokens.push(comma),
                longer,
                from,
                to,
                ty,
            ),
    ensures
        fields_syntax(tokens.push(comma), longer, 0, end) == Ok::<Seq<FieldView>, MessageView>(
            fields,
        ),
{
    let all = tokens.push(comma);
    fields_are_read_as_spelled(tokens, source, end, fields);
    fields_are_read_as_spelled(all, longer, end, fields);
    assert forall|from: int, to: int, field: FieldView|
        0 <= from < to <= tokens.len() && spells_field(tokens, source)(
            from,
            to,
            field,
        ) implies #[trigger] spells_field(all, longer)(from, to, field) by {
        assert(spells_type(all, longer, from + 2, to, field.ty));
    }
    a_comma_may_end_a_list(
        tokens,
        comma,
        spells_field(tokens, source),
        spells_field(all, longer),
        fields,
    );
}

/// Names are read the same with a comma behind the last one as without.
pub proof fn a_comma_may_end_the_names(
    tokens: Seq<Token>,
    comma: Token,
    end: proc_macro2::Span,
    item: Seq<char>,
    names: Seq<Ident>,
)
    requires
        has_char(seq![comma], 0, ','),
        !has_char(tokens, tokens.len() - 1, ','),
        names.len() > 0,
        names_syntax(tokens, 0, end, item) == Ok::<Seq<Ident>, MessageView>(names),
    ensures
        names_syntax(tokens.push(comma), 0, end, item) == Ok::<Seq<Ident>, MessageView>(names),
{
    let all = tokens.push(comma);
    names_are_read_as_spelled(tokens, end, item, names);
    names_are_read_as_spelled(all, end, item, names);
    assert forall|from: int, to: int, name: Ident|
        0 <= from < to <= tokens.len() && spells_name(tokens)(
            from,
            to,
            name,
        ) implies #[trigger] spells_name(all)(from, to, name) by {
    }
    a_comma_may_end_a_list(tokens, comma, spells_name(tokens), spells_name(all), names);
}

} // verus!
