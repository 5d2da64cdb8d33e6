//! What the code of a row says: which patterns it has, what it calls, and what it returns.
use crate::code::{name_of, parenthesized, text_if, text_of, CodeView};
use crate::error::MessageView;
use crate::expand::rows::{
    binding_pattern_code, callback_call_code, context_code, effect_code, effect_value_code,
    event_code, guarded_code, ignored_variant_code, initial_code, matched_code, names_code,
    plan_code, rejection_code, row_code, selected_row_code, source_code, target_code,
    target_field_code, target_fields_code,
};
use crate::meaning::callbacks::lemma_last_field;
use crate::meaning::running::descends;
use crate::meaning::writing::{gathered, marks, name_marks, optional_marks, type_mark, Mark};
use crate::model::{
    BindingPattern, Callable, Flat, MachineDef, Row, RowEvent, RowOutcome, RowSource, StateNode,
    TargetField, TargetState, Type, VariantDef,
};
use crate::token::{Delimiter, Ident};
use crate::validate::declarations::{first_initial, lemma_first_initial};
use crate::validate::lookup::{
    event_named, last_event, last_field, last_index, last_state, state_named,
};
use vstd::prelude::*;

verus! {

/// Names are listed in their order.
pub proof fn names_are_listed_in_order(names: Seq<Ident>, n: int)
    requires
        0 <= n <= names.len(),
    ensures
        marks(names_code(names, n)) == name_marks(names.take(n)),
        n == 0 ==> names_code(names, n).len() == 0,
    decreases n,
{
    broadcast use crate::meaning::writing::group_marks;

    if n > 0 {
        names_are_listed_in_order(names, n - 1);
        assert(name_marks(names.take(n)) =~= name_marks(names.take(n - 1)) + seq![
            Mark::Name(names[n - 1]),
        ]);
    } else {
        assert(name_marks(names.take(0)) =~= Seq::<Mark>::empty());
    }
}

/// Listed names take turns with commas: a name, a comma, a name, and so on.
pub proof fn names_take_turns_with_commas(names: Seq<Ident>, n: int, i: int)
    requires
        0 <= i < n <= names.len(),
    ensures
        names_code(names, n).len() == 2 * n - 1,
        names_code(names, n)[2 * i] == CodeView::Name(names[i]),
        i + 1 < n ==> names_code(names, n)[2 * i + 1] == CodeView::Text(","@),
    decreases n,
{
    if n > 1 {
        let j = if i < n - 1 {
            i
        } else {
            0
        };
        names_take_turns_with_commas(names, n - 1, j);
    } else {
        assert(names_code(names, 0).len() == 0);
    }
}

proof fn lemma_names(names: Seq<Ident>)
    ensures
        marks(names_code(names, names.len() as int)) == name_marks(names),
{
    names_are_listed_in_order(names, names.len() as int);
    assert(names.take(names.len() as int) =~= names);
}

/// Whether code is a pattern: the name behind its path, and behind that, where there is a payload,
/// in braces the names that are bound, in order, and `..` where others are left out.
pub open spec fn is_pattern(
    code: Seq<CodeView>,
    path: &str,
    name: Ident,
    payload: bool,
    bound: Seq<Ident>,
    rest: bool,
) -> bool {
    &&& code.len() == if payload {
        3int
    } else {
        2int
    }
    &&& code[0] == CodeView::Text(path@)
    &&& code[1] == CodeView::Name(name)
    &&& payload ==> {
        &&& code[2] matches CodeView::Group(Delimiter::Brace, inner)
        &&& marks(inner) == name_marks(bound)
        &&& if rest {
            inner.len() > 0 && inner.last() == CodeView::Text(
                if bound.len() == 0 {
                    ".."@
                } else {
                    ", .."@
                },
            )
        } else {
            inner.len() == 0 || inner.last() is Name
        }
    }
}

/// The names that a pattern lists.
pub open spec fn listed_names(pattern: BindingPattern) -> Seq<Ident> {
    if pattern.explicit_fields {
        pattern.fields@
    } else {
        Seq::empty()
    }
}

proof fn lemma_list_end(names: Seq<Ident>, n: int)
    requires
        0 < n <= names.len(),
    ensures
        names_code(names, n).len() > 0,
        names_code(names, n).last() == CodeView::Name(names[n - 1]),
    decreases n,
{
    if n > 1 {
        lemma_list_end(names, n - 1);
    }
}

proof fn lemma_pattern(path: &str, pattern: BindingPattern, variant: VariantDef)
    ensures
        is_pattern(
            binding_pattern_code(path, pattern, variant),
            path,
            pattern.name,
            variant.fields@.len() > 0,
            listed_names(pattern),
            pattern.rest || !pattern.explicit_fields,
        ),
{
    broadcast use crate::meaning::writing::group_marks;

    let n = pattern.fields@.len() as int;
    lemma_names(pattern.fields@);
    let names = names_code(pattern.fields@, n);
    assert(name_marks(Seq::<Ident>::empty()) =~= Seq::<Mark>::empty());
    if n > 0 {
        lemma_list_end(pattern.fields@, n);
    } else {
        assert(name_marks(pattern.fields@) =~= Seq::<Mark>::empty());
    }
    assert((names + text_of(", ..")).last() == CodeView::Text(", .."@));
    assert(text_of("..").last() == CodeView::Text(".."@));
    assert(marks(names + text_of(", ..")) =~= name_marks(pattern.fields@));
}

/// The pattern that leaves a payload aside binds nothing.
pub proof fn ignored_payloads_bind_nothing(path: &str, variant: VariantDef)
    ensures
        is_pattern(
            ignored_variant_code(path, variant),
            path,
            variant.name,
            variant.fields@.len() > 0,
            Seq::empty(),
            true,
        ),
{
    broadcast use crate::meaning::writing::group_marks;

    assert(name_marks(Seq::<Ident>::empty()) =~= Seq::<Mark>::empty());
    assert(text_of("..").last() == CodeView::Text(".."@));
}

proof fn lemma_last_index(n: int, holds: spec_fn(int) -> bool)
    ensures
        match last_index(n, holds) {
            Some(k) => 0 <= k < n && holds(k),
            None => forall|k: int| 0 <= k < n ==> !#[trigger] holds(k),
        },
    decreases n,
{
    if n > 0 {
        lemma_last_index(n - 1, holds);
    }
}

/// Whether a list of states holds one with a name.
pub open spec fn is_state_named(states: Seq<Flat>, name: Ident, k: int) -> bool {
    0 <= k < states.len() && states[k].node.variant.name.name@ == name.name@
}

/// Whether a list of events holds one with a name.
pub open spec fn is_event_named(events: Seq<VariantDef>, name: Ident, k: int) -> bool {
    0 <= k < events.len() && events[k].name.name@ == name.name@
}

/// Whether the names of states are different.
pub open spec fn state_names_differ(states: Seq<Flat>) -> bool {
    forall|i: int, j: int|
        0 <= i < j < states.len() ==> (#[trigger] states[i]).node.variant.name.name@ != (
        #[trigger] states[j]).node.variant.name.name@
}

/// Whether the names of events are different.
pub open spec fn event_names_differ(events: Seq<VariantDef>) -> bool {
    forall|i: int, j: int|
        0 <= i < j < events.len() ==> (#[trigger] events[i]).name.name@ != (
        #[trigger] events[j]).name.name@
}

pub(crate) proof fn lemma_state_at(states: Seq<Flat>, name: Ident, k: int)
    requires
        state_names_differ(states),
        is_state_named(states, name, k),
    ensures
        last_state(states, states.len() as int, name.name@) == Some(k),
{
    let named = state_named(states, name.name@);
    lemma_last_index(states.len() as int, named);
    assert(named(k));
    let found = last_state(states, states.len() as int, name.name@);
    assert(found is Some);
    assert(named(found->0));
    if found->0 < k {
        assert(states[found->0].node.variant.name.name@ != states[k].node.variant.name.name@);
    } else if k < found->0 {
        assert(states[k].node.variant.name.name@ != states[found->0].node.variant.name.name@);
    }
}

pub(crate) proof fn lemma_event_at(events: Seq<VariantDef>, name: Ident, k: int)
    requires
        event_names_differ(events),
        is_event_named(events, name, k),
    ensures
        last_event(events, events.len() as int, name.name@) == Some(k),
{
    let named = event_named(events, name.name@);
    lemma_last_index(events.len() as int, named);
    assert(named(k));
    let found = last_event(events, events.len() as int, name.name@);
    assert(found is Some);
    assert(named(found->0));
    if found->0 < k {
        assert(events[found->0].name.name@ != events[k].name.name@);
    } else if k < found->0 {
        assert(events[k].name.name@ != events[found->0].name.name@);
    }
}

/// The pattern that is matched with the state binds exactly the fields that the row lists for its
/// source, in their order; a row for any source or for a compound state has none.
pub proof fn source_patterns_bind_the_listed_fields(row: Row, states: Seq<Flat>, k: int)
    requires
        state_names_differ(states),
    ensures
        row.source is Any ==> source_code(row, states) == Ok::<
            Option<Seq<CodeView>>,
            MessageView,
        >(None),
        row.source matches RowSource::State(pattern) ==> is_state_named(states, pattern.name, k)
            ==> match source_code(row, states) {
            Ok(Some(code)) => states[k].node.children@.len() == 0 && is_pattern(
                code,
                "State::",
                pattern.name,
                states[k].node.variant.fields@.len() > 0,
                listed_names(pattern),
                pattern.rest || !pattern.explicit_fields,
            ),
            Ok(None) => states[k].node.children@.len() > 0,
            Err(_) => false,
        },
{
    if let RowSource::State(pattern) = row.source {
        if is_state_named(states, pattern.name, k) {
            lemma_state_at(states, pattern.name, k);
            lemma_pattern("State::", pattern, states[k].node.variant);
        }
    }
}

/// The pattern that is matched with the event binds exactly the fields that the row lists for its
/// event, in their order; a row for any event has none.
pub proof fn event_patterns_bind_the_listed_fields(row: Row, events: Seq<VariantDef>, k: int)
    requires
        event_names_differ(events),
    ensures
        row.event is Any ==> event_code(row, events) == Ok::<
            Option<Seq<CodeView>>,
            MessageView,
        >(None),
        row.event matches RowEvent::Event(pattern) ==> is_event_named(events, pattern.name, k)
            ==> match event_code(row, events) {
            Ok(Some(code)) => is_pattern(
                code,
                "Event::",
                pattern.name,
                events[k].fields@.len() > 0,
                listed_names(pattern),
                pattern.rest || !pattern.explicit_fields,
            ),
            _ => false,
        },
{
    if let RowEvent::Event(pattern) = row.event {
        if is_event_named(events, pattern.name, k) {
            lemma_event_at(events, pattern.name, k);
            lemma_pattern("Event::", pattern, events[k]);
        }
    }
}

/// What the call of a callback holds: the context type, the context trait, the name of the
/// callback, and its arguments in order.
pub open spec fn call_marks(callable: Callable, definition: MachineDef, context_trait: Ident) -> Seq<
    Mark,
> {
    optional_marks(definition.context) + seq![
        Mark::Name(context_trait),
        Mark::Name(callable.name),
    ] + name_marks(callable.arguments@)
}

/// A callback is called with its arguments in their order, and awaited exactly where it is async.
pub proof fn callbacks_are_called_with_their_arguments(
    callable: Callable,
    definition: MachineDef,
    context_trait: Ident,
)
    ensures
        ({
            let code = callback_call_code(callable, definition, context_trait);
            let end = if callable.is_async {
                code.len() - 2
            } else {
                code.len() - 1
            };
            &&& marks(code) == call_marks(callable, definition, context_trait)
            &&& callable.is_async <==> code.last() == CodeView::Text(".await"@)
            &&& code[end - 1] == CodeView::Name(callable.name)
            &&& code[end] matches CodeView::Group(Delimiter::Parenthesis, inner)
            &&& marks(inner) == name_marks(callable.arguments@)
        }),
{
    broadcast use crate::meaning::writing::group_marks;

    lemma_names(callable.arguments@);
    let code = callback_call_code(callable, definition, context_trait);
    let names = names_code(callable.arguments@, callable.arguments@.len() as int);
    let inner = text_of("context,") + names;
    assert(marks(inner) =~= name_marks(callable.arguments@));
    lemma_context(definition);
    let front = text_of("<") + context_code(definition) + text_of("as") + name_of(context_trait)
        + text_of(">::") + name_of(callable.name);
    assert(marks(front) =~= optional_marks(definition.context) + seq![
        Mark::Name(context_trait),
        Mark::Name(callable.name),
    ]);
    assert(front.last() == CodeView::Name(callable.name));
    assert(code == front + parenthesized(inner) + text_if(callable.is_async, ".await"));
    assert(marks(code) =~= call_marks(callable, definition, context_trait));
}

proof fn lemma_context(definition: MachineDef)
    ensures
        marks(context_code(definition)) == optional_marks(definition.context),
        marks(effect_code(definition)) == optional_marks(definition.effect),
{
    broadcast use crate::meaning::writing::group_marks;

}

proof fn lemma_initial(node: StateNode) -> (leaf: StateNode)
    requires
        initial_code(node) is Ok,
    ensures
        exists|depth: nat| descends(node, leaf, depth),
        initial_code(node)->Ok_0 == text_of("State::") + name_of(leaf.variant.name),
    decreases node,
{
    if node.compound() {
        lemma_first_initial(node.children@, 0);
        let i = first_initial(node.children@, 0)->0;
        lemma_marked(node.children@, 0);
        let leaf = lemma_initial(node.children@[i]);
        let depth = choose|depth: nat| descends(node.children@[i], leaf, depth);
        assert(descends(node, leaf, depth + 1));
        leaf
    } else {
        assert(descends(node, node, 0));
        node
    }
}

proof fn lemma_marked(nodes: Seq<StateNode>, i: int)
    requires
        0 <= i,
    ensures
        first_initial(nodes, i) matches Some(k) ==> i <= k < nodes.len() && nodes[k].initial,
    decreases nodes.len() - i,
{
    if i < nodes.len() && !nodes[i].initial {
        lemma_marked(nodes, i + 1);
    }
}

/// Entering a state is written as the leaf that is reached by going down to the initial child again
/// and again.
pub proof fn entering_is_written_as_the_leaf(node: StateNode)
    requires
        initial_code(node) is Ok,
    ensures
        exists|leaf: StateNode, depth: nat| #[trigger]
            descends(node, leaf, depth) && initial_code(node)->Ok_0 == seq![
                CodeView::Text("State::"@),
                CodeView::Name(leaf.variant.name),
            ],
{
    let leaf = lemma_initial(node);
    let depth = choose|depth: nat| descends(node, leaf, depth);
    assert(text_of("State::") + name_of(leaf.variant.name) =~= seq![
        CodeView::Text("State::"@),
        CodeView::Name(leaf.variant.name),
    ]);
    assert(descends(node, leaf, depth));
}

/// Whether types are those that a state declares for the fields that a target fills.
pub open spec fn are_declared(
    types: Seq<Type>,
    filled: Seq<TargetField>,
    variant: VariantDef,
) -> bool {
    &&& types.len() == filled.len()
    &&& forall|i: int|
        0 <= i < filled.len() ==> is_declared(variant, (#[trigger] filled[i]).name, types[i])
}

/// Whether a state declares a field with a type.
pub open spec fn is_declared(variant: VariantDef, name: Ident, ty: Type) -> bool {
    exists|j: int|
        0 <= j < variant.fields@.len() && (#[trigger] variant.fields@[j]).name.name@ == name.name@
            && variant.fields@[j].ty == ty
}

/// Whether the fields of a state have different names.
pub open spec fn field_names_differ(variant: VariantDef) -> bool {
    forall|i: int, j: int|
        0 <= i < j < variant.fields@.len() ==> (#[trigger] variant.fields@[i]).name.name@ != (
        #[trigger] variant.fields@[j]).name.name@
}

/// What filling the fields of a target holds: each field with its declared type and the binding
/// that it is cloned from, in the order of the target.
pub open spec fn filling_marks(filled: Seq<TargetField>, types: Seq<Type>) -> Seq<Mark> {
    gathered(
        filled.len() as int,
        |i: int|
            seq![
                Mark::Name(filled[i].name),
                type_mark(types[i]),
                Mark::Name(filled[i].binding),
            ],
    )
}

proof fn lemma_fields(target: TargetState, variant: VariantDef, types: Seq<Type>, n: int)
    requires
        0 <= n <= target.fields@.len(),
        are_declared(types, target.fields@, variant),
        field_names_differ(variant),
    ensures
        target_fields_code(target, variant, n) is Ok,
        marks(target_fields_code(target, variant, n)->Ok_0) == gathered(
            n,
            |i: int|
                seq![
                    Mark::Name(target.fields@[i].name),
                    type_mark(types[i]),
                    Mark::Name(target.fields@[i].binding),
                ],
        ),
    decreases n,
{
    broadcast use crate::meaning::writing::group_marks;

    if n > 0 {
        lemma_fields(target, variant, types, n - 1);
        let field = target.fields@[n - 1];
        let name = field.name.name@;
        lemma_last_field(variant.fields@, variant.fields@.len() as int, name);
        assert(is_declared(variant, target.fields@[n - 1].name, types[n - 1]));
        let j = choose|j: int|
            0 <= j < variant.fields@.len() && (#[trigger] variant.fields@[j]).name.name@ == name
                && variant.fields@[j].ty == types[n - 1];
        let k = last_field(variant.fields@, variant.fields@.len() as int, name)->0;
        assert(variant.fields@[k].name.name@ == variant.fields@[j].name.name@);
        assert(k == j);
        let own = target_field_code(field, variant.fields@[k].ty);
        assert(marks(own) =~= seq![
            Mark::Name(field.name),
            type_mark(types[n - 1]),
            Mark::Name(field.binding),
        ]);
    }
}

/// A target is written as the state that the row names, and each of its fields is filled, in the
/// order of the row, with a clone of the binding that the row gives for it, under the type that the
/// state declares. A compound target is written as the leaf that entering it ends in.
pub proof fn targets_are_written_with_their_fields(
    target: TargetState,
    states: Seq<Flat>,
    k: int,
    types: Seq<Type>,
)
    requires
        state_names_differ(states),
        is_state_named(states, target.name, k),
    ensures
        ({
            let node = states[k].node;
            let leaf = node.children@.len() == 0;
            &&& leaf && node.variant.fields@.len() == 0 ==> target_code(target, states) is Ok
                && target_code(target, states)->Ok_0 == seq![
                CodeView::Text("State::"@),
                CodeView::Name(target.name),
            ]
            &&& leaf && node.variant.fields@.len() > 0 && are_declared(
                types,
                target.fields@,
                node.variant,
            ) && field_names_differ(node.variant) ==> match target_code(target, states) {
                Ok(code) => {
                    &&& code.len() == 3
                    &&& code[0] == CodeView::Text("State::"@)
                    &&& code[1] == CodeView::Name(target.name)
                    &&& code[2] matches CodeView::Group(Delimiter::Brace, inner)
                    &&& marks(inner) == filling_marks(target.fields@, types)
                },
                Err(_) => false,
            }
            &&& !leaf && target_code(target, states) is Ok ==> exists|below: StateNode, depth: nat|
                #[trigger]
                descends(node, below, depth) && target_code(target, states)->Ok_0 == seq![
                    CodeView::Text("State::"@),
                    CodeView::Name(below.variant.name),
                ]
        }),
{
    lemma_state_at(states, target.name, k);
    let node = states[k].node;
    if node.compound() {
        if target_code(target, states) is Ok {
            entering_is_written_as_the_leaf(node);
        }
    } else if node.variant.fields@.len() == 0 {
        assert(target_code(target, states)->Ok_0 =~= seq![
            CodeView::Text("State::"@),
            CodeView::Name(target.name),
        ]);
    } else if are_declared(types, target.fields@, node.variant) && field_names_differ(
        node.variant,
    ) {
        lemma_fields(target, node.variant, types, target.fields@.len() as int);
    }
}

/// What a selected row holds: of a rejection its reason; of a transition its target, the effect
/// type, the call of its effect, and its label.
pub open spec fn outcome_marks(
    row: Row,
    definition: MachineDef,
    context_trait: Ident,
    target: Seq<Mark>,
) -> Seq<Mark> {
    match row.outcome {
        RowOutcome::Reject(reason) => seq![Mark::Name(reason)],
        RowOutcome::Transition { transition, .. } => target + optional_marks(definition.effect) + (
        match row.effect {
            Some(effect) => call_marks(effect, definition, context_trait),
            None => Seq::empty(),
        }) + seq![Mark::Name(transition)],
    }
}

/// What the target of a row holds.
pub open spec fn target_marks(row: Row, states: Seq<Flat>) -> Seq<Mark> {
    match row.outcome {
        RowOutcome::Transition { target: Some(target), .. } => marks(
            target_code(target, states)->Ok_0,
        ),
        _ => Seq::empty(),
    }
}

/// What stands in the braces that end code.
pub open spec fn ends_in(code: Seq<CodeView>, inner: Seq<CodeView>) -> bool {
    code.len() > 0 && code.last() == CodeView::Group(Delimiter::Brace, inner)
}

/// What the patterns of a row hold.
pub open spec fn pattern_marks(pattern: Option<Seq<CodeView>>) -> Seq<Mark> {
    match pattern {
        Some(code) => marks(code),
        None => Seq::empty(),
    }
}

/// Whether code is the patterns of a row, what they are matched with, and behind that, in braces,
/// the rest; where there are no patterns, it is the rest alone.
pub open spec fn is_behind_patterns(
    code: Seq<CodeView>,
    source: Option<Seq<CodeView>>,
    event: Option<Seq<CodeView>>,
    guarded: Seq<CodeView>,
) -> bool {
    if source is None && event is None {
        code == guarded
    } else {
        &&& ends_in(code, guarded)
        &&& marks(code.drop_last()) == pattern_marks(source) + pattern_marks(event)
        &&& code.len() >= 2
        &&& code[code.len() - 2] == CodeView::Text(
            if event is None {
                "= state"@
            } else if source is None {
                "= event"@
            } else {
                "= (state, event)"@
            },
        )
    }
}

/// What the guard of a row holds.
pub open spec fn guard_marks(
    guard: Option<Callable>,
    definition: MachineDef,
    context_trait: Ident,
) -> Seq<Mark> {
    match guard {
        Some(guard) => call_marks(guard, definition, context_trait),
        None => Seq::empty(),
    }
}

/// Whether code is the guard of a row and behind it, in braces, the rest; where there is no guard,
/// it is the rest alone.
pub open spec fn is_behind_guard(
    guarded: Seq<CodeView>,
    guard: Option<Callable>,
    definition: MachineDef,
    context_trait: Ident,
    body: Seq<CodeView>,
) -> bool {
    match guard {
        None => guarded == body,
        Some(_) => ends_in(guarded, body) && marks(guarded.drop_last()) == guard_marks(
            guard,
            definition,
            context_trait,
        ),
    }
}

proof fn lemma_body(row: Row, definition: MachineDef, context_trait: Ident, states: Seq<Flat>)
    requires
        selected_row_code(row, definition, context_trait, states) is Ok,
    ensures
        row.outcome matches RowOutcome::Transition { target: Some(target), .. } ==> target_code(
            target,
            states,
        ) is Ok,
        marks(selected_row_code(row, definition, context_trait, states)->Ok_0) == outcome_marks(
            row,
            definition,
            context_trait,
            target_marks(row, states),
        ),
{
    broadcast use crate::meaning::writing::group_marks;

    lemma_context(definition);
    if let Some(effect) = row.effect {
        callbacks_are_called_with_their_arguments(effect, definition, context_trait);
    }
    match row.outcome {
        RowOutcome::Reject(reason) => {
            assert(marks(rejection_code(reason)) =~= seq![Mark::Name(reason)]);
        },
        RowOutcome::Transition { transition, target } => {
            let to = match target {
                Some(target) => target_code(target, states)->Ok_0,
                None => text_of("state.clone()"),
            };
            let value = effect_value_code(row.effect, definition, context_trait);
            let called = match row.effect {
                Some(effect) => call_marks(effect, definition, context_trait),
                None => Seq::empty(),
            };
            assert(marks(value) =~= called);
            assert(marks(plan_code(transition, to, effect_code(definition), value)) =~= marks(to)
                + optional_marks(definition.effect) + called + seq![Mark::Name(transition)]);
        },
    }
}

proof fn lemma_guarded(
    guard: Option<Callable>,
    definition: MachineDef,
    context_trait: Ident,
    body: Seq<CodeView>,
)
    ensures
        ({
            let guarded = guarded_code(guard, definition, context_trait, body);
            &&& is_behind_guard(guarded, guard, definition, context_trait, body)
            &&& marks(guarded) == guard_marks(guard, definition, context_trait) + marks(body)
        }),
{
    broadcast use crate::meaning::writing::group_marks;

    let guarded = guarded_code(guard, definition, context_trait, body);
    if let Some(callable) = guard {
        callbacks_are_called_with_their_arguments(callable, definition, context_trait);
        let front = text_of("if") + callback_call_code(callable, definition, context_trait);
        assert(marks(front) =~= call_marks(callable, definition, context_trait));
        assert(guarded.drop_last() =~= front);
    }
    assert(marks(guarded) =~= guard_marks(guard, definition, context_trait) + marks(body));
}

proof fn lemma_matched(
    source: Option<Seq<CodeView>>,
    event: Option<Seq<CodeView>>,
    guarded: Seq<CodeView>,
)
    ensures
        ({
            let code = matched_code(source, event, guarded);
            &&& is_behind_patterns(code, source, event, guarded)
            &&& marks(code) == pattern_marks(source) + pattern_marks(event) + marks(guarded)
        }),
{
    broadcast use crate::meaning::writing::group_marks;

    let code = matched_code(source, event, guarded);
    let front = code.drop_last();
    match (source, event) {
        (Some(source), Some(event)) => {
            assert(front =~= text_of("if let") + parenthesized(source + text_of(",") + event)
                + text_of("= (state, event)"));
        },
        (Some(source), None) => {
            assert(front =~= text_of("if let") + source + text_of("= state"));
        },
        (None, Some(event)) => {
            assert(front =~= text_of("if let") + event + text_of("= event"));
        },
        (None, None) => {},
    }
    if source is Some || event is Some {
        assert(marks(front) =~= pattern_marks(source) + pattern_marks(event));
    }
    assert(marks(code) =~= pattern_marks(source) + pattern_marks(event) + marks(guarded));
}

/// A row that stays writes the state that it was in as the state to go to, and a row with a target
/// writes the target there.
pub proof fn rows_go_where_they_say(
    row: Row,
    definition: MachineDef,
    context_trait: Ident,
    states: Seq<Flat>,
)
    requires
        selected_row_code(row, definition, context_trait, states) is Ok,
        row.outcome is Transition,
    ensures
        ({
            let code = selected_row_code(row, definition, context_trait, states)->Ok_0;
            let to = match row.outcome->target {
                Some(target) => target_code(target, states)->Ok_0,
                None => text_of("state.clone()"),
            };
            &&& code.len() > to.len()
            &&& code[0] == CodeView::Text("let to ="@)
            &&& code.subrange(1, to.len() + 1int) == to
        }),
{
    let code = selected_row_code(row, definition, context_trait, states)->Ok_0;
    let to = match row.outcome->target {
        Some(target) => target_code(target, states)->Ok_0,
        None => text_of("state.clone()"),
    };
    assert(code.subrange(1, to.len() + 1int) =~= to);
}

/// The block of a row is its patterns, behind them in braces its guard, and behind that in braces
/// what the row does; a row without patterns or without a guard lacks that part and its braces. A
/// row that accepts names its target, its effect and its label, and one that rejects names its
/// reason.
pub proof fn rows_are_written_as_they_are(
    row: Row,
    definition: MachineDef,
    context_trait: Ident,
    states: Seq<Flat>,
)
    requires
        row_code(row, definition, context_trait, states) is Ok,
    ensures
        source_code(row, states) is Ok,
        event_code(row, definition.events@) is Ok,
        row.outcome matches RowOutcome::Transition { target: Some(target), .. } ==> target_code(
            target,
            states,
        ) is Ok,
        marks(row_code(row, definition, context_trait, states)->Ok_0) == pattern_marks(
            source_code(row, states)->Ok_0,
        ) + pattern_marks(event_code(row, definition.events@)->Ok_0) + guard_marks(
            row.guard,
            definition,
            context_trait,
        ) + outcome_marks(row, definition, context_trait, target_marks(row, states)),
        exists|guarded: Seq<CodeView>, body: Seq<CodeView>|
            {
                &&& #[trigger] is_behind_patterns(
                    row_code(row, definition, context_trait, states)->Ok_0,
                    source_code(row, states)->Ok_0,
                    event_code(row, definition.events@)->Ok_0,
                    guarded,
                )
                &&& #[trigger] is_behind_guard(
                    guarded,
                    row.guard,
                    definition,
                    context_trait,
                    body,
                )
                &&& marks(body) == outcome_marks(
                    row,
                    definition,
                    context_trait,
                    target_marks(row, states),
                )
            },
{
    let source = source_code(row, states)->Ok_0;
    let event = event_code(row, definition.events@)->Ok_0;
    let body = selected_row_code(row, definition, context_trait, states)->Ok_0;
    let guarded = guarded_code(row.guard, definition, context_trait, body);
    lemma_body(row, definition, context_trait, states);
    lemma_guarded(row.guard, definition, context_trait, body);
    lemma_matched(source, event, guarded);
    let code = row_code(row, definition, context_trait, states)->Ok_0;
    assert(code == matched_code(source, event, guarded));
    assert(is_behind_patterns(code, source, event, guarded));
    assert(is_behind_guard(guarded, row.guard, definition, context_trait, body));
    assert(marks(code) =~= pattern_marks(source) + pattern_marks(event) + guard_marks(
        row.guard,
        definition,
        context_trait,
    ) + outcome_marks(row, definition, context_trait, target_marks(row, states)));
}

} // verus!
