//! Checks on the declared states and events.
use crate::error::{messages_view, report, Message, MessageView};
use crate::model::{flats, Flat, FlatState, MachineDef, StateNode, VariantDef};
use crate::text::{join2, join3, join5};
use crate::validate::lookup::{find_event, find_field, find_state, has_event, has_field, has_state};
use vstd::prelude::*;

verus! {

/// The messages on the first `n` payload fields of a state or an event: a field that an
/// earlier field has the name of.
pub open spec fn field_errors(variant: VariantDef, kind: Seq<char>, n: int) -> Seq<MessageView>
    decreases n,
{
    if n <= 0 {
        Seq::empty()
    } else {
        let field = variant.fields@[n - 1];
        let before = field_errors(variant, kind, n - 1);
        if has_field(variant.fields@, n - 1, field.name.name@) {
            before.push(
                MessageView {
                    span: field.name.span,
                    text: "duplicate field `"@ + field.name.spelled() + ("` in "@ + kind + " `"@)
                        + variant.name.spelled() + "`"@,
                    failed: None,
                },
            )
        } else {
            before
        }
    }
}

/// The messages on the first `n` states.
pub open spec fn state_errors(states: Seq<Flat>, n: int) -> Seq<MessageView>
    decreases n,
{
    if n <= 0 {
        Seq::empty()
    } else {
        let variant = states[n - 1].node.variant;
        let before = state_errors(states, n - 1);
        let repeated = if has_state(states, n - 1, variant.name.name@) {
            before.push(
                MessageView {
                    span: variant.name.span,
                    text: "duplicate state `"@ + variant.name.spelled() + "`"@,
                    failed: None,
                },
            )
        } else {
            before
        };
        repeated + field_errors(variant, "state"@, variant.fields@.len() as int)
    }
}

/// The messages on the first `n` events.
pub open spec fn event_errors(events: Seq<VariantDef>, n: int) -> Seq<MessageView>
    decreases n,
{
    if n <= 0 {
        Seq::empty()
    } else {
        let variant = events[n - 1];
        let before = event_errors(events, n - 1);
        let repeated = if has_event(events, n - 1, variant.name.name@) {
            before.push(
                MessageView {
                    span: variant.name.span,
                    text: "duplicate event `"@ + variant.name.spelled() + "`"@,
                    failed: None,
                },
            )
        } else {
            before
        };
        repeated + field_errors(variant, "event"@, variant.fields@.len() as int)
    }
}

/// The first state from position `i` on that is marked as initial.
pub open spec fn first_initial(nodes: Seq<StateNode>, i: int) -> Option<int>
    decreases nodes.len() - i,
{
    if i < 0 || i >= nodes.len() {
        None
    } else if nodes[i].initial {
        Some(i)
    } else {
        first_initial(nodes, i + 1)
    }
}

/// What is found is marked as initial, and nothing before the end is where nothing is found.
pub proof fn lemma_first_initial(nodes: Seq<StateNode>, i: int)
    requires
        0 <= i,
    ensures
        first_initial(nodes, i) matches Some(k) ==> i <= k < nodes.len() && nodes[k].initial,
        first_initial(nodes, i) is None ==> forall|k: int|
            i <= k < nodes.len() ==> !(#[trigger] nodes[k]).initial,
    decreases nodes.len() - i,
{
    if i < nodes.len() && !nodes[i].initial {
        lemma_first_initial(nodes, i + 1);
    }
}

/// The leaf that entering a state ends in: the state itself where it has no children, else
/// the one that entering its initial child ends in.
pub open spec fn initial_leaf(node: StateNode) -> Option<StateNode>
    decreases node,
{
    if !node.compound() {
        Some(node)
    } else {
        proof {
            lemma_first_initial(node.children@, 0);
        }
        match first_initial(node.children@, 0) {
            Some(i) => initial_leaf(node.children@[i]),
            None => None,
        }
    }
}

/// The messages on a second, third, ... initial state among those from position `i` on.
pub open spec fn extra_initial_errors(nodes: Seq<StateNode>, owner: Seq<char>, first: int, n: int) -> Seq<
    MessageView,
>
    decreases n,
{
    if n <= 0 {
        Seq::empty()
    } else {
        let before = extra_initial_errors(nodes, owner, first, n - 1);
        if n - 1 > first && nodes[n - 1].initial {
            before.push(
                MessageView {
                    span: nodes[n - 1].variant.name.span,
                    text: owner + " has more than one `*` initial state"@,
                    failed: None,
                },
            )
        } else {
            before
        }
    }
}

/// The messages on which of the states of one group is initial.
pub open spec fn own_initial_errors(
    nodes: Seq<StateNode>,
    owner: Seq<char>,
    call_site: proc_macro2::Span,
) -> Seq<MessageView> {
    match first_initial(nodes, 0) {
        None => seq![
            MessageView {
                span: if nodes.len() == 0 {
                    call_site
                } else {
                    nodes[0].variant.name.span
                },
                text: owner + " requires exactly one `*` initial state"@,
                failed: None,
            },
        ],
        Some(first) => match first_initial(nodes, first + 1) {
            None => match initial_leaf(nodes[first]) {
                Some(leaf) => if leaf.variant.fields@.len() > 0 {
                    seq![
                        MessageView {
                            span: leaf.variant.name.span,
                            text: "an initial leaf cannot require payload fields"@,
                            failed: None,
                        },
                    ]
                } else {
                    Seq::empty()
                },
                None => Seq::empty(),
            },
            Some(_) => extra_initial_errors(nodes, owner, first, nodes.len() as int),
        },
    }
}

/// How a compound state is called in messages.
pub open spec fn compound_owner(node: StateNode) -> Seq<char> {
    "compound state `"@ + node.variant.name.spelled() + "`"@
}

/// The messages on the initial states of a group and of all groups below it.
pub open spec fn initial_errors(
    nodes: Seq<StateNode>,
    owner: Seq<char>,
    call_site: proc_macro2::Span,
) -> Seq<MessageView>
    decreases nodes, nodes.len() + 1,
{
    own_initial_errors(nodes, owner, call_site) + nested_initial_errors(
        nodes,
        call_site,
        nodes.len() as int,
    )
}

/// The messages on the initial states of the groups below the first `n` states.
pub open spec fn nested_initial_errors(
    nodes: Seq<StateNode>,
    call_site: proc_macro2::Span,
    n: int,
) -> Seq<MessageView>
    decreases nodes, n,
{
    if n <= 0 || n > nodes.len() {
        Seq::empty()
    } else {
        let before = nested_initial_errors(nodes, call_site, n - 1);
        if nodes[n - 1].compound() {
            before + initial_errors(
                nodes[n - 1].children@,
                compound_owner(nodes[n - 1]),
                call_site,
            )
        } else {
            before
        }
    }
}

/// The messages on the declarations of a machine whose states are listed in `states`.
pub open spec fn declaration_errors(definition: MachineDef, states: Seq<Flat>) -> Seq<MessageView> {
    let no_state = if definition.states@.len() == 0 {
        seq![MessageView { span: definition.name.span, text: "at least one state is required"@, failed: None }]
    } else {
        Seq::empty()
    };
    let no_event = if definition.events@.len() == 0 {
        no_state.push(
            MessageView { span: definition.name.span, text: "at least one event is required"@, failed: None },
        )
    } else {
        no_state
    };
    no_event + state_errors(states, states.len() as int) + event_errors(
        definition.events@,
        definition.events@.len() as int,
    ) + initial_errors(definition.states@, "machine root"@, definition.call_site)
}

/// Reports each payload field whose name an earlier field has.
fn validate_fields(variant: &VariantDef, kind: &str, errors: &mut Vec<Message>)
    ensures
        messages_view(final(errors)@) == messages_view(old(errors)@) + field_errors(
            *variant,
            kind@,
            variant.fields@.len() as int,
        ),
{
    let ghost before = messages_view(errors@);
    let mut i: usize = 0;
    assert(before =~= before + field_errors(*variant, kind@, 0));
    while i < variant.fields.len()
        invariant
            i <= variant.fields@.len(),
            messages_view(errors@) == before + field_errors(*variant, kind@, i as int),
        decreases variant.fields@.len() - i,
    {
        let field = &variant.fields[i];
        if find_field(&variant.fields, i, &field.name.name).is_some() {
            let field_name = field.name.spelling();
            let variant_name = variant.name.spelling();
            let place = join3("` in ", kind, " `");
            report(
                errors,
                field.name.span,
                join5(
                    "duplicate field `",
                    field_name.as_str(),
                    place.as_str(),
                    variant_name.as_str(),
                    "`",
                ),
            );
        }
        assert(messages_view(errors@) =~= before + field_errors(*variant, kind@, i + 1));
        i = i + 1;
    }
}

fn validate_states(states: &Vec<FlatState<'_>>, errors: &mut Vec<Message>)
    ensures
        messages_view(final(errors)@) == messages_view(old(errors)@) + state_errors(
            flats(states@),
            states@.len() as int,
        ),
{
    let ghost before = messages_view(errors@);
    let ghost all = flats(states@);
    let mut i: usize = 0;
    assert(before =~= before + state_errors(all, 0));
    while i < states.len()
        invariant
            i <= states@.len(),
            all == flats(states@),
            messages_view(errors@) == before + state_errors(all, i as int),
        decreases states@.len() - i,
    {
        let variant = &states[i].node.variant;
        assert(all[i as int].node.variant == *variant);
        if find_state(states, i, &variant.name.name).is_some() {
            let name = variant.name.spelling();
            report(errors, variant.name.span, join3("duplicate state `", name.as_str(), "`"));
        }
        validate_fields(variant, "state", errors);
        assert(messages_view(errors@) =~= before + state_errors(all, i + 1));
        i = i + 1;
    }
}

fn validate_events(events: &Vec<VariantDef>, errors: &mut Vec<Message>)
    ensures
        messages_view(final(errors)@) == messages_view(old(errors)@) + event_errors(
            events@,
            events@.len() as int,
        ),
{
    let ghost before = messages_view(errors@);
    let mut i: usize = 0;
    assert(before =~= before + event_errors(events@, 0));
    while i < events.len()
        invariant
            i <= events@.len(),
            messages_view(errors@) == before + event_errors(events@, i as int),
        decreases events@.len() - i,
    {
        let variant = &events[i];
        if find_event(events, i, &variant.name.name).is_some() {
            let name = variant.name.spelling();
            report(errors, variant.name.span, join3("duplicate event `", name.as_str(), "`"));
        }
        validate_fields(variant, "event", errors);
        assert(messages_view(errors@) =~= before + event_errors(events@, i + 1));
        i = i + 1;
    }
}

/// Finds the first state from position `from` on that is marked as initial.
pub(crate) fn find_initial(nodes: &Vec<StateNode>, from: usize) -> (found: Option<usize>)
    requires
        from <= nodes@.len(),
    ensures
        found is Some <==> first_initial(nodes@, from as int) is Some,
        found matches Some(i) ==> first_initial(nodes@, from as int) == Some(i as int) && from <= i
            < nodes@.len() && nodes@[i as int].initial,
{
    let mut i: usize = from;
    while i < nodes.len()
        invariant
            from <= i <= nodes@.len(),
            first_initial(nodes@, from as int) == first_initial(nodes@, i as int),
        decreases nodes@.len() - i,
    {
        if nodes[i].initial {
            return Some(i);
        }
        i = i + 1;
    }
    None
}

/// Follows the initial children of a state down to a leaf. There is none where a compound
/// state on the way has no initial child.
pub fn resolve_initial_leaf(node: &StateNode) -> (leaf: Option<&StateNode>)
    ensures
        leaf is Some <==> initial_leaf(*node) is Some,
        leaf matches Some(l) ==> initial_leaf(*node) == Some(*l),
    decreases *node,
{
    if node.is_compound() {
        match find_initial(&node.children, 0) {
            Some(i) => resolve_initial_leaf(&node.children[i]),
            None => None,
        }
    } else {
        Some(node)
    }
}

fn report_extra_initials(
    nodes: &Vec<StateNode>,
    owner: &str,
    first: usize,
    errors: &mut Vec<Message>,
)
    ensures
        messages_view(final(errors)@) == messages_view(old(errors)@) + extra_initial_errors(
            nodes@,
            owner@,
            first as int,
            nodes@.len() as int,
        ),
{
    let ghost before = messages_view(errors@);
    let mut i: usize = 0;
    assert(before =~= before + extra_initial_errors(nodes@, owner@, first as int, 0));
    while i < nodes.len()
        invariant
            i <= nodes@.len(),
            messages_view(errors@) == before + extra_initial_errors(
                nodes@,
                owner@,
                first as int,
                i as int,
            ),
        decreases nodes@.len() - i,
    {
        if i > first && nodes[i].initial {
            report(
                errors,
                nodes[i].variant.name.span,
                join2(owner, " has more than one `*` initial state"),
            );
        }
        assert(messages_view(errors@) =~= before + extra_initial_errors(
            nodes@,
            owner@,
            first as int,
            i + 1,
        ));
        i = i + 1;
    }
}

/// Reports each group of states that has not exactly one initial state, or whose initial state
/// enters a leaf with a payload.
fn validate_initial_group(
    nodes: &Vec<StateNode>,
    owner: &str,
    call_site: proc_macro2::Span,
    errors: &mut Vec<Message>,
)
    ensures
        messages_view(final(errors)@) == messages_view(old(errors)@) + initial_errors(
            nodes@,
            owner@,
            call_site,
        ),
    decreases nodes@,
{
    let ghost before = messages_view(errors@);
    let count = nodes.len();
    match find_initial(nodes, 0) {
        None => {
            let span = if count == 0 {
                call_site
            } else {
                nodes[0].variant.name.span
            };
            report(errors, span, join2(owner, " requires exactly one `*` initial state"));
        },
        Some(first) => match find_initial(nodes, first + 1) {
            None => {
                if let Some(leaf) = resolve_initial_leaf(&nodes[first]) {
                    if leaf.variant.fields.len() > 0 {
                        report(
                            errors,
                            leaf.variant.name.span,
                            "an initial leaf cannot require payload fields".to_owned(),
                        );
                    }
                }
            },
            Some(_) => report_extra_initials(nodes, owner, first, errors),
        },
    }
    let ghost own = own_initial_errors(nodes@, owner@, call_site);
    assert(messages_view(errors@) =~= before + own);
    assert(before + own =~= before + own + nested_initial_errors(nodes@, call_site, 0));
    let mut i: usize = 0;
    while i < count
        invariant
            i <= count,
            count == nodes@.len(),
            messages_view(errors@) == before + own + nested_initial_errors(
                nodes@,
                call_site,
                i as int,
            ),
        decreases nodes@.len() - i,
    {
        let node = &nodes[i];
        if node.is_compound() {
            let name = node.variant.name.spelling();
            let inner = join3("compound state `", name.as_str(), "`");
            validate_initial_group(&node.children, inner.as_str(), call_site, errors);
        }
        assert(messages_view(errors@) =~= before + own + nested_initial_errors(
            nodes@,
            call_site,
            i + 1,
        ));
        i = i + 1;
    }
    assert(messages_view(errors@) =~= before + initial_errors(nodes@, owner@, call_site));
}

/// Reports what is wrong with the declared states and events.
pub(crate) fn validate_declarations(
    definition: &MachineDef,
    states: &Vec<FlatState<'_>>,
    errors: &mut Vec<Message>,
)
    ensures
        messages_view(final(errors)@) == messages_view(old(errors)@) + declaration_errors(
            *definition,
            flats(states@),
        ),
{
    let ghost before = messages_view(errors@);
    if definition.states.len() == 0 {
        report(errors, definition.name.span, "at least one state is required".to_owned());
    }
    if definition.events.len() == 0 {
        report(errors, definition.name.span, "at least one event is required".to_owned());
    }
    validate_states(states, errors);
    validate_events(&definition.events, errors);
    validate_initial_group(&definition.states, "machine root", definition.call_site, errors);
    assert(messages_view(errors@) =~= before + declaration_errors(*definition, flats(states@)));
}

} // verus!
