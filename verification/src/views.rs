//! The mathematical values of the parts of a definition.
use crate::model::{
    BindingPattern, Callable, FieldDef, MachineDef, Row, RowEvent, RowOutcome, RowSource, StateNode,
    TargetField, TargetState, Type, VariantDef,
};
use crate::token::{stream_shapes, Ident, Shape};
use vstd::prelude::*;

verus! {

/// A [`Type`], without the places of its tokens.
pub struct TypeView {
    pub tokens: Seq<Shape>,
}

impl View for Type {
    type V = TypeView;

    open spec fn view(&self) -> TypeView {
        TypeView { tokens: stream_shapes(*self.tokens) }
    }
}

/// An optional [`Type`].
pub open spec fn type_option(ty: Option<Type>) -> Option<TypeView> {
    match ty {
        Some(ty) => Some(ty@),
        None => None,
    }
}

/// A [`FieldDef`].
pub struct FieldView {
    pub name: Ident,
    pub ty: TypeView,
}

impl View for FieldDef {
    type V = FieldView;

    open spec fn view(&self) -> FieldView {
        FieldView { name: self.name, ty: self.ty@ }
    }
}

/// Several fields, in order.
pub open spec fn field_list(fields: Seq<FieldDef>) -> Seq<FieldView> {
    fields.map_values(|field: FieldDef| field@)
}

/// A [`VariantDef`].
pub struct VariantView {
    pub name: Ident,
    pub fields: Seq<FieldView>,
}

impl View for VariantDef {
    type V = VariantView;

    open spec fn view(&self) -> VariantView {
        VariantView { name: self.name, fields: field_list(self.fields@) }
    }
}

impl Clone for VariantDef {
    fn clone(&self) -> (copy: VariantDef)
        ensures
            copy@ == self@,
    {
        let fields = self.fields.clone();
        assert(fields@ =~= self.fields@);
        VariantDef { name: self.name.clone(), fields }
    }
}

/// Several events, in order.
pub open spec fn variant_list(variants: Seq<VariantDef>) -> Seq<VariantView> {
    variants.map_values(|variant: VariantDef| variant@)
}

/// A [`StateNode`].
pub struct NodeView {
    pub variant: VariantView,
    pub initial: bool,
    pub children: Seq<NodeView>,
}

/// The mathematical value of a state.
pub open spec fn node_view(node: StateNode) -> NodeView
    decreases node,
{
    NodeView {
        variant: node.variant@,
        initial: node.initial,
        children: node_list(node.children@),
    }
}

/// Several states, in order.
pub open spec fn node_list(nodes: Seq<StateNode>) -> Seq<NodeView>
    decreases nodes,
{
    if nodes.len() == 0 {
        Seq::empty()
    } else {
        node_list(nodes.drop_last()).push(node_view(nodes.last()))
    }
}

impl Clone for StateNode {
    fn clone(&self) -> (copy: StateNode)
        ensures
            node_view(copy) == node_view(*self),
        decreases *self,
    {
        let mut children: Vec<StateNode> = Vec::new();
        let mut i: usize = 0;
        assert(self.children@.take(0) =~= Seq::<StateNode>::empty());
        while i < self.children.len()
            invariant
                i <= self.children@.len(),
                node_list(children@) == node_list(self.children@.take(i as int)),
            decreases self.children@.len() - i,
        {
            let ghost before = children@;
            children.push(self.children[i].clone());
            proof {
                let next = self.children@.take(i + 1);
                assert(next.drop_last() =~= self.children@.take(i as int));
                assert(next.last() == self.children@[i as int]);
                assert(children@.drop_last() =~= before);
            }
            i = i + 1;
        }
        assert(self.children@.take(self.children@.len() as int) =~= self.children@);
        StateNode { variant: self.variant.clone(), initial: self.initial, children }
    }
}

/// A [`BindingPattern`].
pub struct PatternView {
    pub name: Ident,
    pub fields: Seq<Ident>,
    pub rest: bool,
    pub explicit_fields: bool,
}

impl View for BindingPattern {
    type V = PatternView;

    open spec fn view(&self) -> PatternView {
        PatternView {
            name: self.name,
            fields: self.fields@,
            rest: self.rest,
            explicit_fields: self.explicit_fields,
        }
    }
}

impl Clone for BindingPattern {
    fn clone(&self) -> (copy: BindingPattern)
        ensures
            copy@ == self@,
    {
        let fields = self.fields.clone();
        assert(fields@ =~= self.fields@);
        BindingPattern {
            name: self.name.clone(),
            fields,
            rest: self.rest,
            explicit_fields: self.explicit_fields,
        }
    }
}

/// A [`RowSource`]: the pattern, where it names a state.
pub open spec fn source_view(source: RowSource) -> Option<PatternView> {
    match source {
        RowSource::Any => None,
        RowSource::State(pattern) => Some(pattern@),
    }
}

impl Clone for RowSource {
    fn clone(&self) -> (copy: RowSource)
        ensures
            source_view(copy) == source_view(*self),
    {
        match self {
            RowSource::Any => RowSource::Any,
            RowSource::State(pattern) => RowSource::State(pattern.clone()),
        }
    }
}

/// A [`RowEvent`]: the pattern, where it names an event.
pub open spec fn event_view(event: RowEvent) -> Option<PatternView> {
    match event {
        RowEvent::Any => None,
        RowEvent::Event(pattern) => Some(pattern@),
    }
}

impl Clone for RowEvent {
    fn clone(&self) -> (copy: RowEvent)
        ensures
            event_view(copy) == event_view(*self),
    {
        match self {
            RowEvent::Any => RowEvent::Any,
            RowEvent::Event(pattern) => RowEvent::Event(pattern.clone()),
        }
    }
}

/// A [`Callable`].
pub struct CallView {
    pub is_async: bool,
    pub name: Ident,
    pub arguments: Seq<Ident>,
}

impl View for Callable {
    type V = CallView;

    open spec fn view(&self) -> CallView {
        CallView { is_async: self.is_async, name: self.name, arguments: self.arguments@ }
    }
}

impl Clone for Callable {
    fn clone(&self) -> (copy: Callable)
        ensures
            copy@ == self@,
    {
        let arguments = self.arguments.clone();
        assert(arguments@ =~= self.arguments@);
        Callable { is_async: self.is_async, name: self.name.clone(), arguments }
    }
}

/// An optional [`Callable`].
pub open spec fn call_option(callable: Option<Callable>) -> Option<CallView> {
    match callable {
        Some(callable) => Some(callable@),
        None => None,
    }
}

/// A [`TargetState`].
pub struct TargetView {
    pub name: Ident,
    pub fields: Seq<TargetField>,
    pub explicit_fields: bool,
}

impl View for TargetState {
    type V = TargetView;

    open spec fn view(&self) -> TargetView {
        TargetView {
            name: self.name,
            fields: self.fields@,
            explicit_fields: self.explicit_fields,
        }
    }
}

impl Clone for TargetState {
    fn clone(&self) -> (copy: TargetState)
        ensures
            copy@ == self@,
    {
        let fields = self.fields.clone();
        assert(fields@ =~= self.fields@);
        TargetState { name: self.name.clone(), fields, explicit_fields: self.explicit_fields }
    }
}

/// A [`RowOutcome`].
pub enum OutcomeView {
    Transition(Ident, Option<TargetView>),
    Reject(Ident),
}

impl View for RowOutcome {
    type V = OutcomeView;

    open spec fn view(&self) -> OutcomeView {
        match *self {
            RowOutcome::Transition { transition, target } => OutcomeView::Transition(
                transition,
                match target {
                    Some(target) => Some(target@),
                    None => None,
                },
            ),
            RowOutcome::Reject(reason) => OutcomeView::Reject(reason),
        }
    }
}

impl Clone for RowOutcome {
    fn clone(&self) -> (copy: RowOutcome)
        ensures
            copy@ == self@,
    {
        match self {
            RowOutcome::Transition { transition, target } => RowOutcome::Transition {
                transition: transition.clone(),
                target: match target {
                    Some(target) => Some(target.clone()),
                    None => None,
                },
            },
            RowOutcome::Reject(reason) => RowOutcome::Reject(reason.clone()),
        }
    }
}

/// A [`Row`].
pub struct RowView {
    pub source: Option<PatternView>,
    pub event: Option<PatternView>,
    pub guard: Option<CallView>,
    pub effect: Option<CallView>,
    pub outcome: OutcomeView,
    pub span: proc_macro2::Span,
}

impl View for Row {
    type V = RowView;

    open spec fn view(&self) -> RowView {
        RowView {
            source: source_view(self.source),
            event: event_view(self.event),
            guard: call_option(self.guard),
            effect: call_option(self.effect),
            outcome: self.outcome@,
            span: self.span,
        }
    }
}

fn clone_call(callable: &Option<Callable>) -> (copy: Option<Callable>)
    ensures
        call_option(copy) == call_option(*callable),
{
    match callable {
        Some(callable) => Some(callable.clone()),
        None => None,
    }
}

impl Clone for Row {
    fn clone(&self) -> (copy: Row)
        ensures
            copy@ == self@,
    {
        Row {
            source: self.source.clone(),
            event: self.event.clone(),
            guard: clone_call(&self.guard),
            effect: clone_call(&self.effect),
            outcome: self.outcome.clone(),
            span: self.span,
        }
    }
}

/// Several rows, in order.
pub open spec fn row_list(rows: Seq<Row>) -> Seq<RowView> {
    rows.map_values(|row: Row| row@)
}

/// A [`MachineDef`].
pub struct DefinitionView {
    pub name: Ident,
    pub serde: bool,
    pub context: Option<TypeView>,
    pub effect: Option<TypeView>,
    pub states: Seq<NodeView>,
    pub events: Seq<VariantView>,
    pub rows: Seq<RowView>,
    pub call_site: proc_macro2::Span,
}

impl View for MachineDef {
    type V = DefinitionView;

    open spec fn view(&self) -> DefinitionView {
        DefinitionView {
            name: self.name,
            serde: self.serde,
            context: type_option(self.context),
            effect: type_option(self.effect),
            states: node_list(self.states@),
            events: variant_list(self.events@),
            rows: row_list(self.rows@),
            call_site: self.call_site,
        }
    }
}

} // verus!
