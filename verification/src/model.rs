//! What a machine definition says, as plain values.
use crate::token::Ident;
use std::rc::Rc;
use vstd::prelude::*;

verus! {

/// A Rust type: its tokens.
pub struct Type {
    pub tokens: Rc<proc_macro2::TokenStream>,
}

impl Clone for Type {
    fn clone(&self) -> (copy: Type)
        ensures
            copy == *self,
    {
        Type { tokens: self.tokens.clone() }
    }
}

/// A named payload field.
pub struct FieldDef {
    pub name: Ident,
    pub ty: Type,
}

impl Clone for FieldDef {
    fn clone(&self) -> (copy: FieldDef)
        ensures
            copy == *self,
    {
        FieldDef { name: self.name.clone(), ty: self.ty.clone() }
    }
}

/// A state or an event, with the payload that it carries.
pub struct VariantDef {
    pub name: Ident,
    pub fields: Vec<FieldDef>,
}

/// A state in the state tree.
pub struct StateNode {
    pub variant: VariantDef,
    /// Whether the state is the one that its parent (or the machine) starts in.
    pub initial: bool,
    pub children: Vec<StateNode>,
}

impl StateNode {
    /// Whether the state has child states.
    pub open spec fn compound(self) -> bool {
        self.children@.len() > 0
    }

    /// Whether the state has child states. Only a state without can be active.
    pub fn is_compound(&self) -> (compound: bool)
        ensures
            compound == self.compound(),
    {
        self.children.len() > 0
    }
}

/// A state or an event in a row, with the payload fields that the row uses.
pub struct BindingPattern {
    pub name: Ident,
    pub fields: Vec<Ident>,
    /// Whether the pattern ends with `..`.
    pub rest: bool,
    /// Whether the pattern has braces.
    pub explicit_fields: bool,
}

/// The states that a row is for.
pub enum RowSource {
    Any,
    State(BindingPattern),
}

/// The events that a row is for.
pub enum RowEvent {
    Any,
    Event(BindingPattern),
}

/// What a callback is asked for.
#[derive(Clone, Copy, Debug, Eq, PartialEq, Structural)]
pub enum CallableRole {
    Guard,
    Effect,
}

/// A use of a callback in a row.
pub struct Callable {
    pub is_async: bool,
    pub name: Ident,
    pub arguments: Vec<Ident>,
}

/// A payload field of the target state, and the binding that it is filled from.
pub struct TargetField {
    pub name: Ident,
    pub binding: Ident,
}

impl Clone for TargetField {
    fn clone(&self) -> (copy: TargetField)
        ensures
            copy == *self,
    {
        TargetField { name: self.name.clone(), binding: self.binding.clone() }
    }
}

/// The state that a row moves to.
pub struct TargetState {
    pub name: Ident,
    pub fields: Vec<TargetField>,
    /// Whether the target has braces.
    pub explicit_fields: bool,
}

/// What a selected row does.
pub enum RowOutcome {
    /// Commits under a label. Without a target the machine stays where it is.
    Transition { transition: Ident, target: Option<TargetState> },
    /// Refuses the event.
    Reject(Ident),
}

/// A row of the transition table.
pub struct Row {
    pub source: RowSource,
    pub event: RowEvent,
    pub guard: Option<Callable>,
    pub effect: Option<Callable>,
    pub outcome: RowOutcome,
    pub span: proc_macro2::Span,
}

/// A machine definition.
pub struct MachineDef {
    pub name: Ident,
    /// Whether the generated state can be serialized.
    pub serde: bool,
    pub context: Option<Type>,
    pub effect: Option<Type>,
    pub states: Vec<StateNode>,
    pub events: Vec<VariantDef>,
    pub rows: Vec<Row>,
    /// Where the definition stands as a whole.
    pub call_site: proc_macro2::Span,
}

/// A state of the tree together with the name of its parent.
#[derive(Clone, Copy)]
pub struct FlatState<'a> {
    pub node: &'a StateNode,
    pub parent: Option<&'a Ident>,
}

/// The mathematical value of a [`FlatState`].
pub struct Flat {
    pub node: StateNode,
    pub parent: Option<Ident>,
}

impl<'a> View for FlatState<'a> {
    type V = Flat;

    open spec fn view(&self) -> Flat {
        Flat {
            node: *self.node,
            parent: match self.parent {
                Some(name) => Some(*name),
                None => None,
            },
        }
    }
}

/// The mathematical values of several flat states, in order.
pub open spec fn flats<'a>(states: Seq<FlatState<'a>>) -> Seq<Flat> {
    states.map_values(|state: FlatState<'a>| state@)
}

/// The states of a tree in declaration order, each parent before its children.
pub open spec fn flattened(nodes: Seq<StateNode>, parent: Option<Ident>) -> Seq<Flat>
    decreases nodes,
{
    if nodes.len() == 0 {
        Seq::empty()
    } else {
        let node = nodes.last();
        flattened(nodes.drop_last(), parent).push(Flat { node, parent }) + flattened(
            node.children@,
            Some(node.variant.name),
        )
    }
}

fn visit<'a>(
    nodes: &'a [StateNode],
    parent: Option<&'a Ident>,
    output: &mut Vec<FlatState<'a>>,
)
    ensures
        flats(final(output)@) == flats(old(output)@) + flattened(
            nodes@,
            match parent {
                Some(name) => Some(*name),
                None => None,
            },
        ),
    decreases nodes@,
{
    let ghost above: Option<Ident> = match parent {
        Some(name) => Some(*name),
        None => None,
    };
    let ghost before = flats(output@);
    let mut i: usize = 0;
    proof {
        assert(nodes@.take(0) =~= Seq::<StateNode>::empty());
        assert(before =~= before + flattened(nodes@.take(0), above));
    }
    while i < nodes.len()
        invariant
            i <= nodes@.len(),
            above == (match parent {
                Some(name) => Some(*name),
                None => None,
            }),
            flats(output@) == before + flattened(nodes@.take(i as int), above),
        decreases nodes@.len() - i,
    {
        let node = &nodes[i];
        let ghost so_far = flats(output@);
        output.push(FlatState { node, parent });
        proof {
            assert(flats(output@) =~= so_far.push(Flat { node: *node, parent: above }));
        }
        visit(node.children.as_slice(), Some(&node.variant.name), output);
        proof {
            assert(nodes@.take(i + 1).drop_last() =~= nodes@.take(i as int));
            assert(flats(output@) =~= before + flattened(nodes@.take(i + 1), above));
        }
        i = i + 1;
    }
    proof {
        assert(nodes@.take(nodes@.len() as int) =~= nodes@);
    }
}

/// Lists the states of a tree in declaration order, each parent before its children.
pub fn flatten_states(nodes: &[StateNode]) -> (output: Vec<FlatState<'_>>)
    ensures
        flats(output@) == flattened(nodes@, None),
{
    let mut output: Vec<FlatState<'_>> = Vec::new();
    visit(nodes, None, &mut output);
    proof {
        assert(flats(output@) =~= flattened(nodes@, None));
    }
    output
}

} // verus!
