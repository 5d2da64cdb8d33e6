//! What the code of a machine says: which items it declares, and what stands in them.
use crate::code::{
    braced, bracketed, joined, name_of, parenthesized, quote_of, text_if, text_of, type_of,
    CodeView,
};
use crate::error::MessageView;
use crate::expand::items::{
    context_method_code, context_methods_code, context_trait_code, declaration_code,
    declared_fields_code, doc_code, enums_code, events_code, identities_code, leaves_code,
    parameters_code, parents_code, serde_code, state_names_code, CONTEXT_KEEPS, CONTEXT_READS,
    CONTEXT_TRAIT_HEADER, CONTEXT_WRITES, REJECTION_HEADER, STATE_ID_HEADER, TRANSITION_HEADER,
};
use crate::expand::rows::{
    callback_call_code, context_code, effect_code, ignored_variant_code, initial_code, names_code,
    row_code,
};
use crate::expand::{
    accessors_code, blocks_code, constructors_code, evaluate_code, expansion, levels_code,
    lookups_code, machine_code, membership_code, outcome_type_code, process_code, struct_code,
    with_context, ValidatedView, LEVEL_LOOP, UNHANDLED,
};
use crate::meaning::blocks::{entering_is_written_as_the_leaf, names_are_listed_in_order};
use crate::meaning::running::descends;
use crate::meaning::writing::{
    blocks, gathered, lemma_marks_add, lemma_marks_one, marks, name_marks, optional_marks,
    outer_names, type_mark, Mark,
};
use crate::model::{
    Callable, CallableRole, FieldDef, Flat, MachineDef, Row, RowSource, StateNode, Type,
    VariantDef,
};
use crate::token::{Delimiter, Ident};
use crate::validate::callables::CallableView;
use crate::validate::declarations::first_initial;
use crate::validate::states_of;
use vstd::prelude::*;

verus! {

proof fn lemma_quiet(inner: Seq<CodeView>, line: &str)
    ensures
        marks(bracketed(inner)) == marks(inner),
        marks(quote_of(line)) == Seq::<Mark>::empty(),
{
    lemma_marks_one(CodeView::Group(Delimiter::Bracket, inner));
    lemma_marks_one(CodeView::Quote(line@));
}

proof fn lemma_doc(line: &str)
    ensures
        marks(doc_code(line)) == Seq::<Mark>::empty(),
{
    broadcast use crate::meaning::writing::group_marks;

    lemma_quiet(text_of("doc =") + quote_of(line), line);
    assert(marks(doc_code(line)) =~= Seq::<Mark>::empty());
}

proof fn lemma_serde(definition: MachineDef)
    ensures
        marks(serde_code(definition)) == Seq::<Mark>::empty(),
        blocks(serde_code(definition)) == Seq::<Seq<CodeView>>::empty(),
{
    broadcast use crate::meaning::writing::group_marks;
    broadcast use crate::meaning::writing::group_places;

    let own = text_of("crate =") + quote_of("::rfsm::serde") + text_of(", deny_unknown_fields");
    let inner = text_of("serde") + parenthesized(own);
    lemma_quiet(inner, "::rfsm::serde");
    assert(marks(own) =~= Seq::<Mark>::empty());
    assert(marks(inner) =~= Seq::<Mark>::empty());
    assert(marks(serde_code(definition)) =~= Seq::<Mark>::empty());
    assert(blocks(serde_code(definition)) =~= Seq::<Seq<CodeView>>::empty());
}

/// What the declaration of fields holds: each field with its type, in order.
pub open spec fn field_marks(fields: Seq<FieldDef>) -> Seq<Mark> {
    gathered(
        fields.len() as int,
        |i: int| seq![Mark::Name(fields[i].name), type_mark(fields[i].ty)],
    )
}

/// What the declaration of a state or an event holds: its name, and its fields.
pub open spec fn variant_marks(variant: VariantDef) -> Seq<Mark> {
    seq![Mark::Name(variant.name)] + field_marks(variant.fields@)
}

proof fn lemma_declared_fields(fields: Seq<FieldDef>, n: int)
    ensures
        marks(declared_fields_code(fields, n)) == gathered(
            n,
            |i: int| seq![Mark::Name(fields[i].name), type_mark(fields[i].ty)],
        ),
    decreases n,
{
    broadcast use crate::meaning::writing::group_marks;

    if n > 0 {
        lemma_declared_fields(fields, n - 1);
        let own = name_of(fields[n - 1].name) + text_of(":") + type_of(fields[n - 1].ty);
        assert(marks(own) =~= seq![Mark::Name(fields[n - 1].name), type_mark(fields[n - 1].ty)]);
    }
}

/// A state or an event is declared with its name, and with its fields and their types in order, in
/// braces, where it has any.
pub proof fn variants_are_declared_with_their_fields(variant: VariantDef)
    ensures
        ({
            let code = declaration_code(variant);
            &&& marks(code) == variant_marks(variant)
            &&& outer_names(code) == seq![variant.name]
            &&& variant.fields@.len() == 0 ==> blocks(code).len() == 0
            &&& variant.fields@.len() > 0 ==> blocks(code).len() == 1 && marks(blocks(code)[0])
                == field_marks(variant.fields@)
        }),
{
    broadcast use crate::meaning::writing::group_marks;
    broadcast use crate::meaning::writing::group_places;

    let fields = variant.fields@;
    lemma_declared_fields(fields, fields.len() as int);
    let code = declaration_code(variant);
    if fields.len() == 0 {
        assert(field_marks(fields) =~= Seq::<Mark>::empty());
        assert(marks(code) =~= variant_marks(variant));
        assert(outer_names(code) =~= seq![variant.name]);
    } else {
        let inner = declared_fields_code(fields, fields.len() as int);
        assert(marks(code) =~= variant_marks(variant));
        assert(outer_names(code) =~= seq![variant.name]);
        assert(blocks(code) =~= seq![inner]);
    }
}

proof fn lemma_outer_joined(list: Seq<CodeView>, item: Seq<CodeView>)
    ensures
        outer_names(joined(list, item)) == outer_names(list) + outer_names(item),
        blocks(joined(list, item)) == blocks(list) + blocks(item),
{
    broadcast use crate::meaning::writing::group_places;

    assert(outer_names(joined(list, item)) =~= outer_names(list) + outer_names(item));
    assert(blocks(joined(list, item)) =~= blocks(list) + blocks(item));
}

/// The enum of states has a variant for each leaf, in the order in which the states are listed,
/// with its fields, and for nothing else.
pub proof fn each_leaf_is_declared(states: Seq<Flat>, n: int)
    ensures
        marks(leaves_code(states, n)) == gathered(
            n,
            |i: int|
                if states[i].node.children@.len() == 0 {
                    variant_marks(states[i].node.variant)
                } else {
                    Seq::empty()
                },
        ),
        outer_names(leaves_code(states, n)) == gathered(
            n,
            |i: int|
                if states[i].node.children@.len() == 0 {
                    seq![states[i].node.variant.name]
                } else {
                    Seq::empty()
                },
        ),
    decreases n,
{
    broadcast use crate::meaning::writing::group_marks;

    if n > 0 {
        each_leaf_is_declared(states, n - 1);
        if states[n - 1].node.compound() {
            assert(marks(leaves_code(states, n)) =~= marks(leaves_code(states, n - 1)) + Seq::<
                Mark,
            >::empty());
            assert(outer_names(leaves_code(states, n)) =~= outer_names(leaves_code(states, n - 1))
                + Seq::<Ident>::empty());
        } else {
            let own = declaration_code(states[n - 1].node.variant);
            variants_are_declared_with_their_fields(states[n - 1].node.variant);
            lemma_outer_joined(leaves_code(states, n - 1), own);
        }
    }
}

/// The enum of state identities has a variant for each state, in the order in which they are
/// listed.
pub proof fn each_state_has_an_identity(states: Seq<Flat>, n: int)
    ensures
        marks(state_names_code(states, n)) == gathered(
            n,
            |i: int| seq![Mark::Name(states[i].node.variant.name)],
        ),
    decreases n,
{
    broadcast use crate::meaning::writing::group_marks;

    if n > 0 {
        each_state_has_an_identity(states, n - 1);
    }
}

/// The enum of events has a variant for each event, in the order of the definition, with its
/// fields.
pub proof fn each_event_is_declared(events: Seq<VariantDef>, n: int)
    ensures
        marks(events_code(events, n)) == gathered(n, |i: int| variant_marks(events[i])),
        outer_names(events_code(events, n)) == gathered(n, |i: int| seq![events[i].name]),
    decreases n,
{
    broadcast use crate::meaning::writing::group_marks;

    if n > 0 {
        each_event_is_declared(events, n - 1);
        variants_are_declared_with_their_fields(events[n - 1]);
        lemma_outer_joined(events_code(events, n - 1), declaration_code(events[n - 1]));
    }
}

proof fn lemma_all_names(names: Seq<Ident>)
    ensures
        marks(names_code(names, names.len() as int)) == name_marks(names),
{
    names_are_listed_in_order(names, names.len() as int);
    assert(names.take(names.len() as int) =~= names);
}

/// Five enums are declared, in this order: the leaves, the identities of all states, the events,
/// the labels of the accepting rows, and the reasons of the rejecting rows.
pub proof fn enums_are_declared(
    definition: MachineDef,
    states: Seq<Flat>,
    transitions: Seq<Ident>,
    rejections: Seq<Ident>,
)
    ensures
        ({
            let code = enums_code(definition, states, transitions, rejections);
            let all = blocks(code);
            &&& all.len() == 5
            &&& all[0] == leaves_code(states, states.len() as int)
            &&& all[1] == state_names_code(states, states.len() as int)
            &&& all[2] == events_code(definition.events@, definition.events@.len() as int)
            &&& marks(all[3]) == name_marks(transitions)
            &&& marks(all[4]) == name_marks(rejections)
            &&& marks(code) == marks(all[0]) + marks(all[1]) + marks(all[2]) + marks(all[3])
                + marks(all[4])
        }),
{
    broadcast use crate::meaning::writing::group_marks;
    broadcast use crate::meaning::writing::group_places;

    lemma_serde(definition);
    lemma_all_names(transitions);
    lemma_all_names(rejections);
    let code = enums_code(definition, states, transitions, rejections);
    let leaves = leaves_code(states, states.len() as int);
    let ids = state_names_code(states, states.len() as int);
    let events = events_code(definition.events@, definition.events@.len() as int);
    let labels = names_code(transitions, transitions.len() as int);
    let reasons = names_code(rejections, rejections.len() as int);
    let first = text_of("#[allow(missing_docs)] #[derive(Clone, Debug, PartialEq)]") + serde_code(
        definition,
    ) + text_of("pub enum State") + braced(leaves);
    let second = first + text_of(STATE_ID_HEADER) + braced(ids);
    let third = second + text_of(
        "#[allow(missing_docs)] #[derive(Clone, Debug, PartialEq)] pub enum Event",
    ) + braced(events);
    let fourth = third + text_of(TRANSITION_HEADER) + braced(labels);
    assert(code == fourth + text_of(REJECTION_HEADER) + braced(reasons));
    assert(blocks(first) =~= seq![leaves]);
    assert(blocks(second) =~= seq![leaves, ids]);
    assert(blocks(third) =~= seq![leaves, ids, events]);
    assert(blocks(fourth) =~= seq![leaves, ids, events, labels]);
    assert(blocks(code) =~= seq![leaves, ids, events, labels, reasons]);
    assert(marks(first) =~= marks(leaves));
    assert(marks(second) =~= marks(leaves) + marks(ids));
    assert(marks(third) =~= marks(leaves) + marks(ids) + marks(events));
    assert(marks(fourth) =~= marks(leaves) + marks(ids) + marks(events) + marks(labels));
    assert(marks(code) =~= marks(leaves) + marks(ids) + marks(events) + marks(labels) + marks(
        reasons,
    ));
}

/// What the declaration of a callback holds: its name, its parameters with their types in order,
/// and the effect type where it is an effect.
pub open spec fn method_marks(callable: CallableView, definition: MachineDef) -> Seq<Mark> {
    seq![Mark::Name(callable.name)] + gathered(
        callable.arguments.len() as int,
        |i: int| seq![Mark::Name(callable.arguments[i].0), type_mark(callable.arguments[i].1)],
    ) + match callable.role {
        CallableRole::Guard => Seq::empty(),
        CallableRole::Effect => optional_marks(definition.effect),
    }
}

proof fn lemma_parameters(arguments: Seq<(Ident, Type)>, n: int)
    ensures
        marks(parameters_code(arguments, n)) == gathered(
            n,
            |i: int| seq![Mark::Name(arguments[i].0), type_mark(arguments[i].1)],
        ),
    decreases n,
{
    broadcast use crate::meaning::writing::group_marks;

    if n > 0 {
        lemma_parameters(arguments, n - 1);
        let own = name_of(arguments[n - 1].0) + text_of(": &") + type_of(arguments[n - 1].1);
        assert(marks(own) =~= seq![Mark::Name(arguments[n - 1].0), type_mark(arguments[n - 1].1)]);
    }
}

proof fn lemma_types(definition: MachineDef)
    ensures
        marks(context_code(definition)) == optional_marks(definition.context),
        marks(effect_code(definition)) == optional_marks(definition.effect),
{
    broadcast use crate::meaning::writing::group_marks;

}

/// A callback is declared with its name and with its parameters in order; it is async exactly where
/// its uses are, and gives a `bool` exactly where it is a guard.
pub proof fn callbacks_are_declared(callable: CallableView, definition: MachineDef)
    ensures
        ({
            let code = context_method_code(callable, definition);
            &&& marks(code) == method_marks(callable, definition)
            &&& code.len() >= 2
            &&& callable.is_async ==> code[0] == CodeView::Text("async"@) && code[1]
                == CodeView::Text("fn"@)
            &&& !callable.is_async ==> code[0] == CodeView::Text("fn"@)
            &&& callable.role is Guard ==> code[code.len() - 2] == CodeView::Text("bool"@)
        }),
{
    broadcast use crate::meaning::writing::group_marks;

    let n = callable.arguments.len() as int;
    lemma_parameters(callable.arguments, n);
    lemma_types(definition);
    let inner = text_of("&self,") + parameters_code(callable.arguments, n);
    assert(marks(inner) =~= marks(parameters_code(callable.arguments, n)));
    let result = match callable.role {
        CallableRole::Guard => text_of("bool"),
        CallableRole::Effect => effect_code(definition),
    };
    let front = text_if(callable.is_async, "async") + text_of("fn") + name_of(callable.name);
    assert(marks(front) =~= seq![Mark::Name(callable.name)]);
    let code = context_method_code(callable, definition);
    assert(code == front + parenthesized(inner) + text_of("->") + result + text_of(";"));
    assert(marks(code) =~= method_marks(callable, definition));
}

proof fn lemma_methods(callables: Seq<CallableView>, definition: MachineDef, n: int)
    ensures
        context_methods_code(callables, definition, n) == gathered(
            n,
            |i: int| context_method_code(callables[i], definition),
        ),
        marks(context_methods_code(callables, definition, n)) == gathered(
            n,
            |i: int| method_marks(callables[i], definition),
        ),
    decreases n,
{
    broadcast use crate::meaning::writing::group_marks;

    if n > 0 {
        lemma_methods(callables, definition, n - 1);
        callbacks_are_declared(callables[n - 1], definition);
    }
}

/// A machine with callbacks declares them all in its context trait, in order; one without has no
/// such trait.
pub proof fn the_context_trait_declares_the_callbacks(
    callables: Seq<CallableView>,
    definition: MachineDef,
    context_trait: Ident,
)
    ensures
        ({
            let code = context_trait_code(callables, definition, context_trait);
            let n = callables.len() as int;
            &&& callables.len() == 0 <==> code.len() == 0
            &&& callables.len() > 0 ==> {
                &&& outer_names(code) == seq![context_trait]
                &&& blocks(code) == seq![
                    gathered(n, |i: int| context_method_code(callables[i], definition)),
                ]
                &&& marks(code) == seq![Mark::Name(context_trait)] + gathered(
                    n,
                    |i: int| method_marks(callables[i], definition),
                )
            }
        }),
{
    broadcast use crate::meaning::writing::group_marks;
    broadcast use crate::meaning::writing::group_places;

    let n = callables.len() as int;
    lemma_methods(callables, definition, n);
    lemma_doc(CONTEXT_READS);
    lemma_doc(CONTEXT_KEEPS);
    lemma_doc(CONTEXT_WRITES);
    let code = context_trait_code(callables, definition, context_trait);
    if n > 0 {
        let front = doc_code(CONTEXT_READS) + doc_code(CONTEXT_KEEPS) + doc_code(CONTEXT_WRITES)
            + text_of(CONTEXT_TRAIT_HEADER);
        assert(marks(front) =~= Seq::<Mark>::empty());
        assert(outer_names(front) =~= Seq::<Ident>::empty());
        assert(blocks(front) =~= Seq::<Seq<CodeView>>::empty());
        assert(code == front + name_of(context_trait) + braced(
            context_methods_code(callables, definition, n),
        ));
        assert(outer_names(code) =~= seq![context_trait]);
        assert(blocks(code) =~= seq![context_methods_code(callables, definition, n)]);
        assert(marks(code) =~= seq![Mark::Name(context_trait)] + marks(
            context_methods_code(callables, definition, n),
        ));
    }
}

/// With one state more the lookup of an identity has one arm more exactly where the state is a
/// leaf: the pattern that leaves its payload aside, and behind it its identity.
pub proof fn arms_of_leaves_follow_each_other(states: Seq<Flat>, n: int)
    requires
        0 < n <= states.len(),
    ensures
        ({
            let variant = states[n - 1].node.variant;
            let before = identities_code(states, n - 1);
            let after = identities_code(states, n);
            let pattern = ignored_variant_code("State::", variant);
            if states[n - 1].node.children@.len() > 0 {
                after == before
            } else {
                &&& after.len() == before.len() + pattern.len() + 3
                &&& after.take(before.len() as int) == before
                &&& after.subrange(before.len() as int, (before.len() + pattern.len()) as int)
                    == pattern
                &&& after[after.len() - 3] == CodeView::Text("=> StateId::"@)
                &&& after[after.len() - 2] == CodeView::Name(variant.name)
                &&& after.last() == CodeView::Text(","@)
            }
        }),
{
    let variant = states[n - 1].node.variant;
    let before = identities_code(states, n - 1);
    let after = identities_code(states, n);
    let pattern = ignored_variant_code("State::", variant);
    if states[n - 1].node.children@.len() == 0 {
        assert(after.take(before.len() as int) =~= before);
        assert(after.subrange(before.len() as int, (before.len() + pattern.len()) as int)
            =~= pattern);
    }
}

/// The lookup of an identity has an arm for each leaf, in order, from its variant to the identity
/// of the same name, and for nothing else.
pub proof fn each_leaf_has_its_own_identity(states: Seq<Flat>, n: int)
    ensures
        marks(identities_code(states, n)) == gathered(
            n,
            |i: int|
                if states[i].node.children@.len() == 0 {
                    seq![
                        Mark::Name(states[i].node.variant.name),
                        Mark::Name(states[i].node.variant.name),
                    ]
                } else {
                    Seq::empty()
                },
        ),
    decreases n,
{
    broadcast use crate::meaning::writing::group_marks;

    if n > 0 {
        each_leaf_has_its_own_identity(states, n - 1);
        let variant = states[n - 1].node.variant;
        if states[n - 1].node.compound() {
            assert(marks(identities_code(states, n)) =~= marks(identities_code(states, n - 1))
                + Seq::<Mark>::empty());
        } else {
            let pattern = ignored_variant_code("State::", variant);
            assert(marks(pattern) =~= seq![Mark::Name(variant.name)]);
            assert(marks(identities_code(states, n)) =~= marks(identities_code(states, n - 1))
                + seq![Mark::Name(variant.name), Mark::Name(variant.name)]);
        }
    }
}

/// The lookup of a parent has an arm for each state, in order, that names the state and, where it
/// is nested, its parent.
pub proof fn each_state_has_its_parent(states: Seq<Flat>, n: int)
    ensures
        marks(parents_code(states, n)) == gathered(
            n,
            |i: int|
                match states[i].parent {
                    Some(parent) => seq![
                        Mark::Name(states[i].node.variant.name),
                        Mark::Name(parent),
                    ],
                    None => seq![Mark::Name(states[i].node.variant.name)],
                },
        ),
        outer_names(parents_code(states, n)) == gathered(
            n,
            |i: int| seq![states[i].node.variant.name],
        ),
    decreases n,
{
    broadcast use crate::meaning::writing::group_marks;
    broadcast use crate::meaning::writing::group_places;

    if n > 0 {
        each_state_has_its_parent(states, n - 1);
        let name = states[n - 1].node.variant.name;
        let before = parents_code(states, n - 1);
        match states[n - 1].parent {
            Some(parent) => {
                let inner = text_of("StateId::") + name_of(parent);
                assert(marks(inner) =~= seq![Mark::Name(parent)]);
                assert(marks(parents_code(states, n)) =~= marks(before) + seq![
                    Mark::Name(name),
                    Mark::Name(parent),
                ]);
            },
            None => {
                assert(marks(parents_code(states, n)) =~= marks(before) + seq![Mark::Name(name)]);
            },
        }
        assert(outer_names(parents_code(states, n)) =~= outer_names(before) + seq![name]);
    }
}

/// Whether row `r` is for a source: a state of the name, or any state where there is no name.
pub open spec fn is_row_for(definition: MachineDef, r: int, source: Option<Seq<char>>) -> bool {
    match source {
        Some(name) => definition.rows@[r].source matches RowSource::State(pattern)
            && pattern.name.name@ == name,
        None => definition.rows@[r].source is Any,
    }
}

/// The rows of one level are tried in the order of the table, each row for its own source only.
pub proof fn rows_of_a_level_are_written_in_order(
    definition: MachineDef,
    context_trait: Ident,
    states: Seq<Flat>,
    source: Option<Seq<char>>,
    n: int,
)
    requires
        blocks_code(definition, context_trait, states, source, n) is Ok,
    ensures
        blocks_code(definition, context_trait, states, source, n)->Ok_0 == gathered(
            n,
            |r: int|
                if is_row_for(definition, r, source) {
                    row_code(definition.rows@[r], definition, context_trait, states)->Ok_0
                } else {
                    Seq::empty()
                },
        ),
        forall|r: int|
            0 <= r < n && is_row_for(definition, r, source) ==> row_code(
                #[trigger] definition.rows@[r],
                definition,
                context_trait,
                states,
            ) is Ok,
    decreases n,
{
    if n > 0 {
        rows_of_a_level_are_written_in_order(definition, context_trait, states, source, n - 1);
        if !is_row_for(definition, n - 1, source) {
            assert(blocks_code(definition, context_trait, states, source, n)->Ok_0
                =~= blocks_code(definition, context_trait, states, source, n - 1)->Ok_0 + Seq::<
                CodeView,
            >::empty());
        }
    }
}

/// Each state has its level, in the order in which the states are listed, which holds the rows for
/// that state.
pub proof fn each_state_has_its_level(
    definition: MachineDef,
    context_trait: Ident,
    states: Seq<Flat>,
    n: int,
)
    requires
        0 <= n,
        levels_code(definition, context_trait, states, n) is Ok,
    ensures
        ({
            let code = levels_code(definition, context_trait, states, n)->Ok_0;
            &&& outer_names(code) == Seq::new(n as nat, |i: int| states[i].node.variant.name)
            &&& blocks(code).len() == n
            &&& forall|i: int|
                0 <= i < n ==> #[trigger] blocks_code(
                    definition,
                    context_trait,
                    states,
                    Some(states[i].node.variant.name.name@),
                    definition.rows@.len() as int,
                ) == Ok::<Seq<CodeView>, MessageView>(blocks(code)[i])
        }),
    decreases n,
{
    broadcast use crate::meaning::writing::group_places;

    let code = levels_code(definition, context_trait, states, n)->Ok_0;
    if n > 0 {
        each_state_has_its_level(definition, context_trait, states, n - 1);
        let before = levels_code(definition, context_trait, states, n - 1)->Ok_0;
        let name = states[n - 1].node.variant.name;
        let inner = blocks_code(
            definition,
            context_trait,
            states,
            Some(name.name@),
            definition.rows@.len() as int,
        )->Ok_0;
        let own = text_of("StateId::") + name_of(name) + text_of("=>") + braced(inner);
        assert(outer_names(own) =~= seq![name]);
        assert(blocks(own) =~= seq![inner]);
        lemma_outer_joined(before, own);
        assert(outer_names(code) =~= Seq::new(n as nat, |i: int| states[i].node.variant.name));
        assert(blocks(code) =~= blocks(before) + seq![inner]);
        assert forall|i: int| 0 <= i < n implies #[trigger] blocks_code(
            definition,
            context_trait,
            states,
            Some(states[i].node.variant.name.name@),
            definition.rows@.len() as int,
        ) == Ok::<Seq<CodeView>, MessageView>(blocks(code)[i]) by {
            if i < n - 1 {
                assert(blocks(code)[i] == blocks(before)[i]);
            }
        }
    } else {
        assert(outer_names(code) =~= Seq::new(0, |i: int| states[i].node.variant.name));
    }
}

/// What the methods of a machine hold of its definition, one by one: the context type wherever a
/// context is handed over, the leaf that a machine starts in, the effect type of the results, the
/// levels and the rows for any source, and the lookups.
pub open spec fn methods_marks(
    definition: MachineDef,
    states: Seq<Flat>,
    initial: Seq<CodeView>,
    levels: Seq<CodeView>,
    wildcards: Seq<CodeView>,
) -> Seq<Mark> {
    let context = optional_marks(definition.context);
    let effect = optional_marks(definition.effect);
    (context + marks(initial) + context) + (context + context) + (context + effect + marks(levels)
        + marks(wildcards)) + effect + (marks(identities_code(states, states.len() as int)) + marks(
        parents_code(states, states.len() as int),
    ))
}

/// What a machine type holds of its definition: its name and its context type, and behind them its
/// name, its methods, and its name where a state is asked what it lies in.
pub open spec fn machine_marks(definition: MachineDef, methods: Seq<Mark>) -> Seq<Mark> {
    let name = seq![Mark::Name(definition.name)];
    name + optional_marks(definition.context) + name + methods + name + name
}

proof fn lemma_with_context(definition: MachineDef, before: &str, behind: &str)
    ensures
        marks(with_context(definition, before, behind)) == optional_marks(definition.context),
{
    broadcast use crate::meaning::writing::group_marks;

    lemma_types(definition);
    assert(marks(with_context(definition, before, behind)) =~= optional_marks(definition.context));
}

proof fn lemma_struct(definition: MachineDef)
    ensures
        marks(struct_code(definition)) == seq![Mark::Name(definition.name)] + optional_marks(
            definition.context,
        ),
{
    broadcast use crate::meaning::writing::group_marks;

    lemma_with_context(definition, "context:", ",");
    assert(marks(struct_code(definition)) =~= seq![Mark::Name(definition.name)] + optional_marks(
        definition.context,
    ));
}

proof fn lemma_constructors(definition: MachineDef, initial: Seq<CodeView>)
    ensures
        marks(constructors_code(definition, initial)) == optional_marks(definition.context) + marks(
            initial,
        ) + optional_marks(definition.context),
{
    broadcast use crate::meaning::writing::group_marks;

    lemma_with_context(definition, "context:", ",");
    let context = optional_marks(definition.context);
    let held = text_of("state:") + initial + text_of(",") + text_if(
        definition.context is Some,
        "context,",
    );
    assert(marks(held) =~= marks(initial));
    let made = text_of("Self") + braced(held);
    assert(marks(made) =~= marks(initial));
    let first = text_of("pub fn new") + parenthesized(with_context(definition, "context:", ","))
        + text_of("-> Self") + braced(made);
    assert(marks(first) =~= context + marks(initial));
    let given = text_of("state: State,") + with_context(definition, "context:", ",");
    assert(marks(given) =~= context);
    let kept = text_of("state,") + text_if(definition.context is Some, "context,");
    assert(marks(kept) =~= Seq::<Mark>::empty());
    let again = text_of("Self") + braced(kept);
    assert(marks(again) =~= Seq::<Mark>::empty());
    let code = constructors_code(definition, initial);
    assert(code == first + text_of("pub fn from_state") + parenthesized(given) + text_of("-> Self")
        + braced(again));
    assert(marks(code) =~= context + marks(initial) + context);
}

proof fn lemma_accessors(definition: MachineDef)
    ensures
        marks(accessors_code(definition)) == optional_marks(definition.context) + optional_marks(
            definition.context,
        ),
{
    broadcast use crate::meaning::writing::group_marks;

    lemma_with_context(definition, "pub fn context(&self) -> &", "{ &self.context }");
    lemma_with_context(
        definition,
        "pub fn context_mut(&mut self) -> &mut",
        "{ &mut self.context }",
    );
    assert(marks(accessors_code(definition)) =~= optional_marks(definition.context)
        + optional_marks(definition.context));
}

proof fn lemma_outcome_type(plan: &str, definition: MachineDef)
    ensures
        marks(outcome_type_code(plan, definition)) == optional_marks(definition.effect),
{
    broadcast use crate::meaning::writing::group_marks;

    lemma_types(definition);
    assert(marks(outcome_type_code(plan, definition)) =~= optional_marks(definition.effect));
}

proof fn lemma_evaluate(
    definition: MachineDef,
    is_async: bool,
    levels: Seq<CodeView>,
    wildcards: Seq<CodeView>,
)
    ensures
        marks(evaluate_code(definition, is_async, levels, wildcards)) == optional_marks(
            definition.context,
        ) + optional_marks(definition.effect) + marks(levels) + marks(wildcards),
{
    broadcast use crate::meaning::writing::group_marks;

    lemma_with_context(definition, "context: &", ",");
    lemma_outcome_type("::core::result::Result< ::rfsm::Plan<State, Transition,", definition);
    let given = text_of("state: &State, event: &Event,") + with_context(
        definition,
        "context: &",
        ",",
    );
    assert(marks(given) =~= optional_marks(definition.context));
    let front = text_of("#[allow(irrefutable_let_patterns, unreachable_code)] pub") + text_if(
        is_async,
        "async",
    ) + text_of("fn evaluate") + parenthesized(given) + text_of("->") + outcome_type_code(
        "::core::result::Result< ::rfsm::Plan<State, Transition,",
        definition,
    );
    assert(marks(front) =~= optional_marks(definition.context) + optional_marks(definition.effect));
    let turn = text_of("match at") + braced(levels) + text_of("level = Self::__parent(at);");
    assert(marks(turn) =~= marks(levels));
    let body = text_if(definition.context is Some, "let _ = context;") + text_of(LEVEL_LOOP)
        + braced(turn) + wildcards + text_of(UNHANDLED);
    assert(marks(body) =~= marks(levels) + marks(wildcards));
    let code = evaluate_code(definition, is_async, levels, wildcards);
    assert(code == front + braced(body));
    assert(marks(code) =~= optional_marks(definition.context) + optional_marks(definition.effect)
        + marks(levels) + marks(wildcards));
}

proof fn lemma_process(definition: MachineDef, is_async: bool)
    ensures
        marks(process_code(definition, is_async)) == optional_marks(definition.effect),
{
    broadcast use crate::meaning::writing::group_marks;

    lemma_outcome_type("::core::result::Result< ::rfsm::Applied<State, Transition,", definition);
    let given = text_of("&self.state, &event,") + text_if(
        definition.context is Some,
        "&self.context,",
    );
    assert(marks(given) =~= Seq::<Mark>::empty());
    let body = text_of("let plan = Self::evaluate") + parenthesized(given) + text_if(
        is_async,
        ".await",
    ) + text_of("?; self.state = plan.to.clone(); ::core::result::Result::Ok(plan.confirm())");
    assert(marks(body) =~= Seq::<Mark>::empty());
    assert(marks(process_code(definition, is_async)) =~= optional_marks(definition.effect));
}

proof fn lemma_lookups(states: Seq<Flat>)
    ensures
        marks(lookups_code(states)) == marks(identities_code(states, states.len() as int)) + marks(
            parents_code(states, states.len() as int),
        ),
{
    broadcast use crate::meaning::writing::group_marks;

    let n = states.len() as int;
    let first = text_of("match state") + braced(identities_code(states, n));
    let second = text_of("match state") + braced(parents_code(states, n));
    assert(marks(first) =~= marks(identities_code(states, n)));
    assert(marks(second) =~= marks(parents_code(states, n)));
    assert(marks(lookups_code(states)) =~= marks(identities_code(states, n)) + marks(
        parents_code(states, n),
    ));
}

proof fn lemma_membership(definition: MachineDef)
    ensures
        marks(membership_code(definition)) == seq![
            Mark::Name(definition.name),
            Mark::Name(definition.name),
        ],
{
    broadcast use crate::meaning::writing::group_marks;

    let own = name_of(definition.name) + text_of("::__state_id(self)");
    assert(marks(own) =~= seq![Mark::Name(definition.name)]);
    let turn = text_of("if state == ancestor { return true; } current =") + name_of(definition.name)
        + text_of("::__parent(state);");
    assert(marks(turn) =~= seq![Mark::Name(definition.name)]);
    let body = text_of("let mut current = ::core::option::Option::Some") + parenthesized(own)
        + text_of("; while let ::core::option::Option::Some(state) = current") + braced(turn)
        + text_of("false");
    assert(marks(body) =~= seq![Mark::Name(definition.name), Mark::Name(definition.name)]);
    let inner = text_of("pub fn is_in(&self, ancestor: StateId) -> bool") + braced(body);
    assert(marks(inner) =~= marks(body));
    assert(marks(membership_code(definition)) =~= marks(inner));
}

proof fn lemma_methods_of_machine(
    definition: MachineDef,
    is_async: bool,
    initial: Seq<CodeView>,
    levels: Seq<CodeView>,
    wildcards: Seq<CodeView>,
)
    ensures
        marks(
            constructors_code(definition, initial) + accessors_code(definition) + evaluate_code(
                definition,
                is_async,
                levels,
                wildcards,
            ) + process_code(definition, is_async) + lookups_code(states_of(definition)),
        ) == methods_marks(definition, states_of(definition), initial, levels, wildcards),
{
    broadcast use crate::meaning::writing::lemma_marks_add;

    lemma_constructors(definition, initial);
    lemma_accessors(definition);
    lemma_evaluate(definition, is_async, levels, wildcards);
    lemma_process(definition, is_async);
    lemma_lookups(states_of(definition));
}

/// The code of a machine is its enums, its context trait, and its type with all that the definition
/// says of it, in this order.
pub proof fn machines_hold_what_their_definitions_say(
    definition: MachineDef,
    table: ValidatedView,
    context_trait: Ident,
    initial: Seq<CodeView>,
    levels: Seq<CodeView>,
    wildcards: Seq<CodeView>,
)
    ensures
        marks(machine_code(definition, table, context_trait, initial, levels, wildcards)) == marks(
            enums_code(definition, states_of(definition), table.transitions, table.rejections),
        ) + marks(context_trait_code(table.callables, definition, context_trait)) + machine_marks(
            definition,
            methods_marks(definition, states_of(definition), initial, levels, wildcards),
        ),
{
    let states = states_of(definition);
    let methods = constructors_code(definition, initial) + accessors_code(definition)
        + evaluate_code(definition, table.is_async, levels, wildcards) + process_code(
        definition,
        table.is_async,
    ) + lookups_code(states);
    let held = methods_marks(definition, states, initial, levels, wildcards);
    lemma_methods_of_machine(definition, table.is_async, initial, levels, wildcards);
    let front = enums_code(definition, states, table.transitions, table.rejections)
        + context_trait_code(table.callables, definition, context_trait);
    let code = machine_code(definition, table, context_trait, initial, levels, wildcards);
    lemma_parts(definition, front, methods, code);
    lemma_marks_add(
        enums_code(definition, states, table.transitions, table.rejections),
        context_trait_code(table.callables, definition, context_trait),
    );
}

proof fn lemma_parts(
    definition: MachineDef,
    front: Seq<CodeView>,
    methods: Seq<CodeView>,
    code: Seq<CodeView>,
)
    requires
        code == front + struct_code(definition) + text_of("#[allow(missing_docs)] impl") + name_of(
            definition.name,
        ) + braced(methods) + membership_code(definition),
    ensures
        marks(code) == marks(front) + machine_marks(definition, marks(methods)),
{
    broadcast use crate::meaning::writing::group_marks;

    lemma_struct(definition);
    lemma_membership(definition);
    assert(marks(code) =~= marks(front) + machine_marks(definition, marks(methods)));
}

/// Whether code is the leaf that a machine starts in: the leaf that is reached from a root state
/// that is marked as initial by going down to the initial child again and again.
pub open spec fn is_start(definition: MachineDef, code: Seq<CodeView>) -> bool {
    exists|root: int, leaf: StateNode, depth: nat|
        0 <= root < definition.states@.len() && definition.states@[root].initial && #[trigger]
        descends(definition.states@[root], leaf, depth) && code == seq![
            CodeView::Text("State::"@),
            CodeView::Name(leaf.variant.name),
        ]
}

proof fn lemma_root(nodes: Seq<StateNode>, i: int)
    requires
        0 <= i,
    ensures
        first_initial(nodes, i) matches Some(k) ==> i <= k < nodes.len() && nodes[k].initial,
    decreases nodes.len() - i,
{
    if i < nodes.len() && !nodes[i].initial {
        lemma_root(nodes, i + 1);
    }
}

/// A definition expands to the code of its machine: it starts in the initial leaf, has a level for
/// each state with the rows for that state, and behind the levels the rows for any source.
pub proof fn definitions_expand_to_their_machines(
    definition: MachineDef,
    table: ValidatedView,
    context_trait: Ident,
)
    requires
        expansion(definition, table, context_trait) is Ok,
    ensures
        ({
            let states = states_of(definition);
            let n = definition.rows@.len() as int;
            let levels = levels_code(definition, context_trait, states, states.len() as int);
            let wildcards = blocks_code(definition, context_trait, states, None, n);
            &&& levels is Ok
            &&& wildcards is Ok
            &&& exists|initial: Seq<CodeView>| #[trigger]
                is_start(definition, initial) && expansion(
                    definition,
                    table,
                    context_trait,
                )->Ok_0 == machine_code(
                    definition,
                    table,
                    context_trait,
                    initial,
                    levels->Ok_0,
                    wildcards->Ok_0,
                )
        }),
{
    lemma_root(definition.states@, 0);
    let root = first_initial(definition.states@, 0)->0;
    let node = definition.states@[root];
    let initial = initial_code(node)->Ok_0;
    entering_is_written_as_the_leaf(node);
    let (leaf, depth) = choose|leaf: StateNode, depth: nat| #[trigger]
        descends(node, leaf, depth) && initial == seq![
            CodeView::Text("State::"@),
            CodeView::Name(leaf.variant.name),
        ];
    assert(descends(definition.states@[root], leaf, depth));
    assert(is_start(definition, initial));
}

/// Whether a fixed text stands in code, in no brackets.
pub open spec fn has_text(code: Seq<CodeView>, text: &str) -> bool {
    exists|i: int| 0 <= i < code.len() && #[trigger] code[i] == CodeView::Text(text@)
}

proof fn lemma_has_text_add(left: Seq<CodeView>, right: Seq<CodeView>, text: &str)
    ensures
        has_text(left + right, text) <==> has_text(left, text) || has_text(right, text),
{
    let all = left + right;
    if has_text(left, text) {
        let i = choose|i: int| 0 <= i < left.len() && #[trigger] left[i] == CodeView::Text(text@);
        assert(all[i] == CodeView::Text(text@));
    }
    if has_text(right, text) {
        let i = choose|i: int| 0 <= i < right.len() && #[trigger] right[i] == CodeView::Text(
            text@,
        );
        assert(all[left.len() + i] == CodeView::Text(text@));
    }
    if has_text(all, text) {
        let i = choose|i: int| 0 <= i < all.len() && #[trigger] all[i] == CodeView::Text(text@);
        if i < left.len() {
            assert(left[i] == CodeView::Text(text@));
        } else {
            assert(right[i - left.len()] == CodeView::Text(text@));
        }
    }
}

/// A machine is made with the context that it is given, and holds one exactly where its definition
/// has a context type.
pub proof fn machines_hold_their_context(definition: MachineDef, leaf: Ident)
    ensures
        ({
            let initial = seq![CodeView::Text("State::"@), CodeView::Name(leaf)];
            let made = blocks(constructors_code(definition, initial));
            &&& made.len() == 2
            &&& blocks(made[0]).len() == 1
            &&& blocks(made[1]).len() == 1
            &&& has_text(blocks(made[0])[0], "context,") <==> definition.context is Some
            &&& has_text(blocks(made[1])[0], "context,") <==> definition.context is Some
            &&& blocks(made[0])[0].len() >= 3
            &&& blocks(made[0])[0].subrange(1, 3) == initial
        }),
{
    broadcast use crate::meaning::writing::group_places;

    reveal_strlit("context,");
    reveal_strlit("state:");
    reveal_strlit("state,");
    reveal_strlit("State::");
    reveal_strlit(",");
    let initial = seq![CodeView::Text("State::"@), CodeView::Name(leaf)];
    let held = text_if(definition.context is Some, "context,");
    let first = text_of("state:") + initial + text_of(",") + held;
    let second = text_of("state,") + held;
    let code = constructors_code(definition, initial);
    let one = text_of("Self") + braced(first);
    let two = text_of("Self") + braced(second);
    let given = with_context(definition, "context:", ",");
    assert(code == text_of("pub fn new") + parenthesized(given) + text_of("-> Self") + braced(one)
        + text_of("pub fn from_state") + parenthesized(text_of("state: State,") + given) + text_of(
        "-> Self",
    ) + braced(two));
    assert(blocks(code) =~= seq![one, two]);
    assert(blocks(one) =~= seq![first]);
    assert(blocks(two) =~= seq![second]);
    let front = text_of("state:") + initial + text_of(",");
    assert("state:"@.len() == 6 && "state,"@.len() == 6 && "State::"@.len() == 7);
    assert("context,"@.len() == 8 && ","@.len() == 1);
    assert(!has_text(front, "context,")) by {
        assert forall|i: int| 0 <= i < front.len() implies #[trigger] front[i] != CodeView::Text(
            "context,"@,
        ) by {
            assert(front =~= seq![
                CodeView::Text("state:"@),
                CodeView::Text("State::"@),
                CodeView::Name(leaf),
                CodeView::Text(","@),
            ]);
        }
    }
    assert(!has_text(text_of("state,"), "context,"));
    lemma_has_text_add(front, held, "context,");
    lemma_has_text_add(text_of("state,"), held, "context,");
    if definition.context is Some {
        assert(held[0] == CodeView::Text("context,"@));
    }
    assert(first.subrange(1, 3) =~= initial);
}

/// Handling an event is async exactly where the machine is, is given the context exactly where
/// there is one, and is awaited exactly where it is async.
pub proof fn events_are_handed_on(definition: MachineDef, is_async: bool)
    ensures
        ({
            let code = process_code(definition, is_async);
            &&& code.len() >= 2
            &&& is_async <==> code[1] == CodeView::Text("async"@)
            &&& code.last() matches CodeView::Group(Delimiter::Brace, body)
            &&& body.len() >= 3
            &&& is_async <==> body[2] == CodeView::Text(".await"@)
            &&& body[1] matches CodeView::Group(Delimiter::Parenthesis, given)
            &&& has_text(given, "&self.context,") <==> definition.context is Some
        }),
{
    reveal_strlit("async");
    reveal_strlit("fn process(&mut self, event: Event,) ->");
    reveal_strlit(".await");
    reveal_strlit(
        "?; self.state = plan.to.clone(); ::core::result::Result::Ok(plan.confirm())",
    );
    reveal_strlit("&self.state, &event,");
    reveal_strlit("&self.context,");
    let code = process_code(definition, is_async);
    assert("async"@.len() == 5 && ".await"@.len() == 6);
    assert("fn process(&mut self, event: Event,) ->"@.len() > 5);
    assert("?; self.state = plan.to.clone(); ::core::result::Result::Ok(plan.confirm())"@.len() > 6);
    assert("&self.state, &event,"@.len() != "&self.context,"@.len());
    let handed = text_if(definition.context is Some, "&self.context,");
    let given = text_of("&self.state, &event,") + handed;
    lemma_has_text_add(text_of("&self.state, &event,"), handed, "&self.context,");
    assert(!has_text(text_of("&self.state, &event,"), "&self.context,"));
    if definition.context is Some {
        assert(handed[0] == CodeView::Text("&self.context,"@));
    }
    let body = text_of("let plan = Self::evaluate") + parenthesized(given) + text_if(
        is_async,
        ".await",
    ) + text_of("?; self.state = plan.to.clone(); ::core::result::Result::Ok(plan.confirm())");
    assert(code.last() == CodeView::Group(Delimiter::Brace, body));
    assert(body[1] == CodeView::Group(Delimiter::Parenthesis, given));
}

/// Evaluating an event is async exactly where the machine is; the levels are tried in the loop, and
/// the rows for any source behind it.
pub proof fn levels_are_tried_before_rows_for_any_source(
    definition: MachineDef,
    is_async: bool,
    levels: Seq<CodeView>,
    wildcards: Seq<CodeView>,
)
    ensures
        ({
            let code = evaluate_code(definition, is_async, levels, wildcards);
            let at = if definition.context is Some {
                2int
            } else {
                1int
            };
            &&& code.len() >= 2
            &&& is_async <==> code[1] == CodeView::Text("async"@)
            &&& code.last() matches CodeView::Group(Delimiter::Brace, body)
            &&& body.len() == at + 1 + wildcards.len() + 1
            &&& body[at] matches CodeView::Group(Delimiter::Brace, turn)
            &&& turn.len() == 3
            &&& turn[1] == CodeView::Group(Delimiter::Brace, levels)
            &&& body.subrange(at + 1, at + 1 + wildcards.len()) == wildcards
        }),
{
    reveal_strlit("async");
    reveal_strlit("fn evaluate");
    assert("async"@.len() == 5 && "fn evaluate"@.len() == 11);
    let code = evaluate_code(definition, is_async, levels, wildcards);
    let turn = text_of("match at") + braced(levels) + text_of("level = Self::__parent(at);");
    let body = text_if(definition.context is Some, "let _ = context;") + text_of(LEVEL_LOOP)
        + braced(turn) + wildcards + text_of(UNHANDLED);
    let at = if definition.context is Some {
        2int
    } else {
        1int
    };
    assert(code.last() == CodeView::Group(Delimiter::Brace, body));
    assert(body.subrange(at + 1, at + 1 + wildcards.len()) =~= wildcards);
}

/// The parts of a machine depend on nothing but what they are about: the attributes of a state on
/// whether it can be serialized, the mention of a type on that type, and the machine type on its
/// name, its context type and its effect type.
pub proof fn parts_depend_on_what_they_are_about(
    one: MachineDef,
    other: MachineDef,
    is_async: bool,
    levels: Seq<CodeView>,
    wildcards: Seq<CodeView>,
)
    ensures
        serde_code(one).len() > 0 <==> one.serde,
        one.serde == other.serde ==> serde_code(one) == serde_code(other),
        one.context == other.context ==> context_code(one) == context_code(other),
        one.effect == other.effect ==> effect_code(one) == effect_code(other),
        one.name == other.name && one.context == other.context ==> {
            &&& struct_code(one) == struct_code(other)
            &&& constructors_code(one, levels) == constructors_code(other, levels)
            &&& accessors_code(one) == accessors_code(other)
            &&& membership_code(one) == membership_code(other)
            &&& one.effect == other.effect ==> evaluate_code(one, is_async, levels, wildcards)
                == evaluate_code(other, is_async, levels, wildcards)
            &&& one.effect == other.effect ==> process_code(one, is_async) == process_code(
                other,
                is_async,
            )
        },
{
}

/// The call of a callback depends on the callback, the context type and the context trait alone;
/// and the block of a row on the row, those two types, that trait, and what is declared.
pub proof fn blocks_depend_on_what_they_are_about(
    callable: Callable,
    row: Row,
    one: MachineDef,
    other: MachineDef,
    context_trait: Ident,
    states: Seq<Flat>,
)
    requires
        one.context == other.context,
    ensures
        callback_call_code(callable, one, context_trait) == callback_call_code(
            callable,
            other,
            context_trait,
        ),
        one.effect == other.effect && one.events@ == other.events@ ==> row_code(
            row,
            one,
            context_trait,
            states,
        ) == row_code(row, other, context_trait, states),
{
}

} // verus!
