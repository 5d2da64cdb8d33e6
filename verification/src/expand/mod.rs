//! The Rust code of a machine.
use crate::code::{
    braced, code_made, code_stream, codes, joined, name_of, parenthesized, put_all,
    put_braces, put_item, put_name, put_parens, put_text, put_text_if, start, text_if, text_of,
    written, Code, CodeView,
};
use crate::error::{Error, Message, MessageView};
use crate::expand::items::{
    context_trait_code, context_trait_item, enums, enums_code, identities, identities_code, parents,
    parents_code,
};
use crate::expand::rows::{
    context_code, effect_code, initial_code, initial_expression, put_context, put_effect, row_block,
    row_code, single_name,
};
use crate::model::{flats, flatten_states, Flat, FlatState, MachineDef, Row, RowSource};
use crate::token::{stream_placed, Ident, TreeView};
use crate::validate::callables::{callables_view, CallableView};
use crate::validate::declarations::{find_initial, first_initial};
use crate::validate::{some_async, states_of, table_of, Validated};
use vstd::prelude::*;

pub mod items;
pub mod rows;

verus! {

/// The methods that read the state.
pub const READERS: &'static str =
    "pub fn state(&self) -> &State { &self.state } pub fn state_id(&self) -> StateId { Self::__state_id(&self.state) } pub fn is_in(&self, ancestor: StateId) -> bool { self.state.is_in(ancestor) }";

/// What introduces the loop over the levels.
pub const LEVEL_LOOP: &'static str =
    "let from_id = Self::__state_id(state); let mut level = ::core::option::Option::Some(from_id); while let ::core::option::Option::Some(at) = level";

/// The result where no row is selected.
pub const UNHANDLED: &'static str =
    "::core::result::Result::Err(::rfsm::ProcessError::Unhandled { state: from_id, event: event.clone(), })";

/// The mathematical value of what is known of a table.
pub struct ValidatedView {
    pub callables: Seq<CallableView>,
    pub transitions: Seq<Ident>,
    pub rejections: Seq<Ident>,
    pub is_async: bool,
}

impl View for Validated {
    type V = ValidatedView;

    open spec fn view(&self) -> ValidatedView {
        ValidatedView {
            callables: callables_view(self.callables@),
            transitions: self.transitions@,
            rejections: self.rejections@,
            is_async: self.is_async,
        }
    }
}

/// What is known of the table of a valid definition.
pub open spec fn table_view(definition: MachineDef) -> ValidatedView {
    let table = table_of(definition);
    ValidatedView {
        callables: table.callables,
        transitions: table.transitions,
        rejections: table.rejections,
        is_async: some_async(table.callables, table.callables.len() as int),
    }
}

/// Whether an identifier is the name of the context trait: that of the machine, and `Context`.
pub open spec fn is_context_trait(definition: MachineDef, ident: Ident) -> bool {
    &&& ident.name@ == definition.name.name@ + "Context"@
    &&& !ident.raw
    &&& ident.span == definition.name.span
    &&& ident.held() == seq![TreeView::Ident(ident.name@, ident.span)]
}

/// The message on a machine whose name cannot be made longer.
pub open spec fn no_name(ident: Ident) -> MessageView {
    MessageView {
        span: ident.span,
        text: "the name of a machine must be an identifier"@,
        failed: None,
    }
}

/// Whether a row is for one of the states with the name, or for any source where none is given.
pub open spec fn is_for(row: Row, source: Option<Seq<char>>) -> bool {
    match row.source {
        RowSource::Any => source is None,
        RowSource::State(pattern) => source == Some(pattern.name.name@),
    }
}

/// The blocks of those among the first `n` rows that are for a source.
pub open spec fn blocks_code(
    definition: MachineDef,
    context_trait: Ident,
    states: Seq<Flat>,
    source: Option<Seq<char>>,
    n: int,
) -> Result<Seq<CodeView>, MessageView>
    decreases n,
{
    if n <= 0 {
        Ok(Seq::empty())
    } else {
        match blocks_code(definition, context_trait, states, source, n - 1) {
            Err(message) => Err(message),
            Ok(before) => if !is_for(definition.rows@[n - 1], source) {
                Ok(before)
            } else {
                match row_code(definition.rows@[n - 1], definition, context_trait, states) {
                    Err(message) => Err(message),
                    Ok(block) => Ok(before + block),
                }
            },
        }
    }
}

/// The blocks of the first `n` states, each behind its identity.
pub open spec fn levels_code(
    definition: MachineDef,
    context_trait: Ident,
    states: Seq<Flat>,
    n: int,
) -> Result<Seq<CodeView>, MessageView>
    decreases n,
{
    if n <= 0 {
        Ok(Seq::empty())
    } else {
        match levels_code(definition, context_trait, states, n - 1) {
            Err(message) => Err(message),
            Ok(before) => {
                let name = states[n - 1].node.variant.name;
                match blocks_code(
                    definition,
                    context_trait,
                    states,
                    Some(name.name@),
                    definition.rows@.len() as int,
                ) {
                    Err(message) => Err(message),
                    Ok(blocks) => Ok(
                        joined(
                            before,
                            text_of("StateId::") + name_of(name) + text_of("=>") + braced(blocks),
                        ),
                    ),
                }
            },
        }
    }
}

/// Code that is there only where the definition has a context.
pub open spec fn with_context(definition: MachineDef, before: &str, behind: &str) -> Seq<CodeView> {
    if definition.context is Some {
        text_of(before) + context_code(definition) + text_of(behind)
    } else {
        Seq::empty()
    }
}

/// The struct of a machine.
pub open spec fn struct_code(definition: MachineDef) -> Seq<CodeView> {
    text_of("#[allow(missing_docs)] pub struct") + name_of(definition.name) + braced(
        text_of("state: State,") + with_context(definition, "context:", ","),
    )
}

/// The constructors of a machine.
pub open spec fn constructors_code(definition: MachineDef, initial: Seq<CodeView>) -> Seq<CodeView> {
    text_of("pub fn new") + parenthesized(with_context(definition, "context:", ",")) + text_of(
        "-> Self",
    ) + braced(
        text_of("Self") + braced(
            text_of("state:") + initial + text_of(",") + text_if(
                definition.context is Some,
                "context,",
            ),
        ),
    ) + text_of("pub fn from_state") + parenthesized(
        text_of("state: State,") + with_context(definition, "context:", ","),
    ) + text_of("-> Self") + braced(
        text_of("Self") + braced(
            text_of("state,") + text_if(definition.context is Some, "context,"),
        ),
    )
}

/// The methods of a machine that read it.
pub open spec fn accessors_code(definition: MachineDef) -> Seq<CodeView> {
    text_of(READERS) + with_context(definition, "pub fn context(&self) -> &", "{ &self.context }") + with_context(
        definition,
        "pub fn context_mut(&mut self) -> &mut",
        "{ &mut self.context }",
    )
}

/// The type of what selecting a row gives.
pub open spec fn outcome_type_code(plan: &str, definition: MachineDef) -> Seq<CodeView> {
    text_of(plan) + effect_code(definition) + text_of(
        ">, ::rfsm::ProcessError<StateId, Event, Rejection>, >",
    )
}

/// The function that selects a row: level by level from the active leaf up, then the rows for any
/// source.
pub open spec fn evaluate_code(
    definition: MachineDef,
    is_async: bool,
    levels: Seq<CodeView>,
    wildcards: Seq<CodeView>,
) -> Seq<CodeView> {
    text_of("#[allow(irrefutable_let_patterns, unreachable_code)] pub") + text_if(
        is_async,
        "async",
    ) + text_of("fn evaluate") + parenthesized(
        text_of("state: &State, event: &Event,") + with_context(definition, "context: &", ","),
    ) + text_of("->") + outcome_type_code(
        "::core::result::Result< ::rfsm::Plan<State, Transition,",
        definition,
    ) + braced(
        text_if(definition.context is Some, "let _ = context;") + text_of(LEVEL_LOOP) + braced(
            text_of("match at") + braced(levels) + text_of("level = Self::__parent(at);"),
        ) + wildcards + text_of(UNHANDLED),
    )
}

/// The method that handles an event: it evaluates, and commits where a row accepts.
pub open spec fn process_code(definition: MachineDef, is_async: bool) -> Seq<CodeView> {
    text_of("pub") + text_if(is_async, "async") + text_of("fn process(&mut self, event: Event,) ->")
        + outcome_type_code(
        "::core::result::Result< ::rfsm::Applied<State, Transition,",
        definition,
    ) + braced(
        text_of("let plan = Self::evaluate") + parenthesized(
            text_of("&self.state, &event,") + text_if(
                definition.context is Some,
                "&self.context,",
            ),
        ) + text_if(is_async, ".await") + text_of(
            "?; self.state = plan.to.clone(); ::core::result::Result::Ok(plan.confirm())",
        ),
    )
}

/// The lookups of identities and parents.
pub open spec fn lookups_code(states: Seq<Flat>) -> Seq<CodeView> {
    text_of("fn __state_id(state: &State) -> StateId") + braced(
        text_of("match state") + braced(identities_code(states, states.len() as int)),
    ) + text_of("fn __parent(state: StateId) -> ::core::option::Option<StateId>") + braced(
        text_of("match state") + braced(parents_code(states, states.len() as int)),
    )
}

/// The method of a state that looks for an ancestor.
pub open spec fn membership_code(definition: MachineDef) -> Seq<CodeView> {
    text_of("#[allow(missing_docs)] impl State") + braced(
        text_of("pub fn is_in(&self, ancestor: StateId) -> bool") + braced(
            text_of("let mut current = ::core::option::Option::Some") + parenthesized(
                name_of(definition.name) + text_of("::__state_id(self)"),
            ) + text_of("; while let ::core::option::Option::Some(state) = current") + braced(
                text_of("if state == ancestor { return true; } current =") + name_of(
                    definition.name,
                ) + text_of("::__parent(state);"),
            ) + text_of("false"),
        ),
    )
}

/// The whole code of a machine, where its parts are given.
pub open spec fn machine_code(
    definition: MachineDef,
    table: ValidatedView,
    context_trait: Ident,
    initial: Seq<CodeView>,
    levels: Seq<CodeView>,
    wildcards: Seq<CodeView>,
) -> Seq<CodeView> {
    let states = states_of(definition);
    enums_code(definition, states, table.transitions, table.rejections) + context_trait_code(
        table.callables,
        definition,
        context_trait,
    ) + struct_code(definition) + text_of("#[allow(missing_docs)] impl") + name_of(definition.name)
        + braced(
        constructors_code(definition, initial) + accessors_code(definition) + evaluate_code(
            definition,
            table.is_async,
            levels,
            wildcards,
        ) + process_code(definition, table.is_async) + lookups_code(states),
    ) + membership_code(definition)
}

/// The whole code of a machine, or what the definition lacks for it.
pub open spec fn expansion(
    definition: MachineDef,
    table: ValidatedView,
    context_trait: Ident,
) -> Result<Seq<CodeView>, MessageView> {
    let states = states_of(definition);
    match first_initial(definition.states@, 0) {
        None => Err(
            MessageView { span: definition.name.span, text: "missing root initial state"@, failed: None },
        ),
        Some(root) => match initial_code(definition.states@[root]) {
            Err(message) => Err(message),
            Ok(initial) => match levels_code(
                definition,
                context_trait,
                states,
                states.len() as int,
            ) {
                Err(message) => Err(message),
                Ok(levels) => match blocks_code(
                    definition,
                    context_trait,
                    states,
                    None,
                    definition.rows@.len() as int,
                ) {
                    Err(message) => Err(message),
                    Ok(wildcards) => Ok(
                        machine_code(
                            definition,
                            table,
                            context_trait,
                            initial,
                            levels,
                            wildcards,
                        ),
                    ),
                },
            },
        },
    }
}

/// Whether a result is the code of a machine, or the one message on what the definition lacks for
/// it.
pub open spec fn makes_code(
    result: Result<Vec<Code>, Error>,
    definition: MachineDef,
    table: ValidatedView,
    context_trait: Ident,
) -> bool {
    match expansion(definition, table, context_trait) {
        Ok(code) => result matches Ok(pieces) && codes(pieces@) == code,
        Err(message) => result matches Err(error) && error@ == seq![message],
    }
}

/// Whether a result is what expanding a definition gives: the tokens of its code, or the one
/// message on what the definition lacks for it.
pub open spec fn expands(
    result: Result<proc_macro2::TokenStream, Error>,
    definition: MachineDef,
    table: ValidatedView,
    context_trait: Ident,
) -> bool {
    match expansion(definition, table, context_trait) {
        Ok(code) => result matches Ok(stream) && written(code, stream_placed(stream)),
        Err(message) => result matches Err(error) && error@ == seq![message],
    }
}

fn matches_source(row: &Row, source: Option<&Ident>) -> (found: bool)
    ensures
        found == is_for(
            *row,
            match source {
                Some(ident) => Some(ident.name@),
                None => None,
            },
        ),
{
    match (&row.source, source) {
        (RowSource::Any, None) => true,
        (RowSource::State(pattern), Some(ident)) => pattern.name.same(ident),
        _ => false,
    }
}

fn blocks(
    definition: &MachineDef,
    context_trait: &Ident,
    states: &Vec<FlatState<'_>>,
    source: Option<&Ident>,
) -> (result: Result<Vec<Code>, Message>)
    ensures
        code_made(result) == blocks_code(
            *definition,
            *context_trait,
            flats(states@),
            match source {
                Some(ident) => Some(ident.name@),
                None => None,
            },
            definition.rows@.len() as int,
        ),
{
    let ghost all = flats(states@);
    let ghost name: Option<Seq<char>> = match source {
        Some(ident) => Some(ident.name@),
        None => None,
    };
    let mut out: Vec<Code> = Vec::new();
    let mut i: usize = 0;
    while i < definition.rows.len()
        invariant
            i <= definition.rows@.len(),
            all == flats(states@),
            name == (match source {
                Some(ident) => Some(ident.name@),
                None => None,
            }),
            blocks_code(*definition, *context_trait, all, name, i as int) == Ok::<
                Seq<CodeView>,
                MessageView,
            >(codes(out@)),
        decreases definition.rows@.len() - i,
    {
        let row = &definition.rows[i];
        if matches_source(row, source) {
            match row_block(row, definition, context_trait, states) {
                Ok(block) => put_all(&mut out, block),
                Err(message) => {
                    proof {
                        lemma_blocks_fail(
                            *definition,
                            *context_trait,
                            all,
                            name,
                            i + 1,
                            message@,
                        );
                    }
                    return Err(message);
                },
            }
        }
        i = i + 1;
    }
    Ok(out)
}

/// What is wrong with the first rows is wrong with the table.
proof fn lemma_blocks_fail(
    definition: MachineDef,
    context_trait: Ident,
    states: Seq<Flat>,
    source: Option<Seq<char>>,
    n: int,
    message: MessageView,
)
    requires
        0 <= n <= definition.rows@.len(),
        blocks_code(definition, context_trait, states, source, n) == Err::<
            Seq<CodeView>,
            MessageView,
        >(message),
    ensures
        blocks_code(
            definition,
            context_trait,
            states,
            source,
            definition.rows@.len() as int,
        ) == Err::<Seq<CodeView>, MessageView>(message),
    decreases definition.rows@.len() - n,
{
    if n < definition.rows@.len() {
        lemma_blocks_fail(definition, context_trait, states, source, n + 1, message);
    }
}

fn levels(
    definition: &MachineDef,
    context_trait: &Ident,
    states: &Vec<FlatState<'_>>,
) -> (result: Result<Vec<Code>, Message>)
    ensures
        code_made(result) == levels_code(
            *definition,
            *context_trait,
            flats(states@),
            states@.len() as int,
        ),
{
    let ghost all = flats(states@);
    let mut out: Vec<Code> = Vec::new();
    let mut i: usize = 0;
    while i < states.len()
        invariant
            i <= states@.len(),
            all == flats(states@),
            levels_code(*definition, *context_trait, all, i as int) == Ok::<
                Seq<CodeView>,
                MessageView,
            >(codes(out@)),
        decreases states@.len() - i,
    {
        assert(all[i as int] == states@[i as int]@);
        let name = &states[i].node.variant.name;
        match blocks(definition, context_trait, states, Some(name)) {
            Ok(rows) => {
                let mut arm = start("StateId::");
                put_name(&mut arm, name);
                put_text(&mut arm, "=>");
                put_braces(&mut arm, rows);
                put_item(&mut out, arm);
            },
            Err(message) => {
                proof {
                    lemma_levels_fail(*definition, *context_trait, all, i + 1, message@);
                }
                return Err(message);
            },
        }
        i = i + 1;
    }
    Ok(out)
}

/// What is wrong with the rows of the first states is wrong with the table.
proof fn lemma_levels_fail(
    definition: MachineDef,
    context_trait: Ident,
    states: Seq<Flat>,
    n: int,
    message: MessageView,
)
    requires
        0 <= n <= states.len(),
        levels_code(definition, context_trait, states, n) == Err::<Seq<CodeView>, MessageView>(
            message,
        ),
    ensures
        levels_code(definition, context_trait, states, states.len() as int) == Err::<
            Seq<CodeView>,
            MessageView,
        >(message),
    decreases states.len() - n,
{
    if n < states.len() {
        lemma_levels_fail(definition, context_trait, states, n + 1, message);
    }
}

fn put_with_context(
    out: &mut Vec<Code>,
    definition: &MachineDef,
    before: &'static str,
    behind: &'static str,
)
    ensures
        codes(final(out)@) == codes(old(out)@) + with_context(*definition, before, behind),
{
    let ghost first = codes(out@);
    if definition.context.is_some() {
        put_text(out, before);
        put_context(out, definition);
        put_text(out, behind);
    }
    assert(codes(out@) =~= first + with_context(*definition, before, behind));
}

fn machine_struct(definition: &MachineDef) -> (out: Vec<Code>)
    ensures
        codes(out@) == struct_code(*definition),
{
    let mut fields = start("state: State,");
    put_with_context(&mut fields, definition, "context:", ",");
    let mut out = start("#[allow(missing_docs)] pub struct");
    put_name(&mut out, &definition.name);
    put_braces(&mut out, fields);
    out
}

fn constructors(definition: &MachineDef, initial: Vec<Code>) -> (out: Vec<Code>)
    ensures
        codes(out@) == constructors_code(*definition, codes(initial@)),
{
    let has_context = definition.context.is_some();
    let mut parameter: Vec<Code> = Vec::new();
    put_with_context(&mut parameter, definition, "context:", ",");
    assert(codes(parameter@) =~= with_context(*definition, "context:", ","));
    let mut new_fields = start("state:");
    put_all(&mut new_fields, initial);
    put_text(&mut new_fields, ",");
    put_text_if(&mut new_fields, has_context, "context,");
    let mut new_body = start("Self");
    put_braces(&mut new_body, new_fields);
    let mut restored = start("state: State,");
    put_with_context(&mut restored, definition, "context:", ",");
    let mut fields = start("state,");
    put_text_if(&mut fields, has_context, "context,");
    let mut body = start("Self");
    put_braces(&mut body, fields);
    let mut out = start("pub fn new");
    put_parens(&mut out, parameter);
    put_text(&mut out, "-> Self");
    put_braces(&mut out, new_body);
    put_text(&mut out, "pub fn from_state");
    put_parens(&mut out, restored);
    put_text(&mut out, "-> Self");
    put_braces(&mut out, body);
    out
}

fn accessors(definition: &MachineDef) -> (out: Vec<Code>)
    ensures
        codes(out@) == accessors_code(*definition),
{
    let mut out = start(READERS);
    put_with_context(
        &mut out,
        definition,
        "pub fn context(&self) -> &",
        "{ &self.context }",
    );
    put_with_context(
        &mut out,
        definition,
        "pub fn context_mut(&mut self) -> &mut",
        "{ &mut self.context }",
    );
    out
}

fn outcome_type(plan: &'static str, definition: &MachineDef) -> (out: Vec<Code>)
    ensures
        codes(out@) == outcome_type_code(plan, *definition),
{
    let mut out = start(plan);
    put_effect(&mut out, definition);
    put_text(&mut out, ">, ::rfsm::ProcessError<StateId, Event, Rejection>, >");
    out
}

fn evaluate_item(
    definition: &MachineDef,
    is_async: bool,
    levels: Vec<Code>,
    wildcards: Vec<Code>,
) -> (out: Vec<Code>)
    ensures
        codes(out@) == evaluate_code(*definition, is_async, codes(levels@), codes(wildcards@)),
{
    let has_context = definition.context.is_some();
    let mut parameters = start("state: &State, event: &Event,");
    put_with_context(&mut parameters, definition, "context: &", ",");
    let mut level = start("match at");
    put_braces(&mut level, levels);
    put_text(&mut level, "level = Self::__parent(at);");
    let mut body: Vec<Code> = Vec::new();
    put_text_if(&mut body, has_context, "let _ = context;");
    assert(codes(body@) =~= text_if(has_context, "let _ = context;"));
    put_text(&mut body, LEVEL_LOOP);
    put_braces(&mut body, level);
    put_all(&mut body, wildcards);
    put_text(&mut body, UNHANDLED);
    let mut out = start("#[allow(irrefutable_let_patterns, unreachable_code)] pub");
    put_text_if(&mut out, is_async, "async");
    put_text(&mut out, "fn evaluate");
    put_parens(&mut out, parameters);
    put_text(&mut out, "->");
    put_all(
        &mut out,
        outcome_type("::core::result::Result< ::rfsm::Plan<State, Transition,", definition),
    );
    put_braces(&mut out, body);
    out
}

fn process_item(definition: &MachineDef, is_async: bool) -> (out: Vec<Code>)
    ensures
        codes(out@) == process_code(*definition, is_async),
{
    let mut arguments = start("&self.state, &event,");
    put_text_if(&mut arguments, definition.context.is_some(), "&self.context,");
    let mut body = start("let plan = Self::evaluate");
    put_parens(&mut body, arguments);
    put_text_if(&mut body, is_async, ".await");
    put_text(
        &mut body,
        "?; self.state = plan.to.clone(); ::core::result::Result::Ok(plan.confirm())",
    );
    let mut out = start("pub");
    put_text_if(&mut out, is_async, "async");
    put_text(&mut out, "fn process(&mut self, event: Event,) ->");
    put_all(
        &mut out,
        outcome_type("::core::result::Result< ::rfsm::Applied<State, Transition,", definition),
    );
    put_braces(&mut out, body);
    out
}

fn lookups(states: &Vec<FlatState<'_>>) -> (out: Vec<Code>)
    ensures
        codes(out@) == lookups_code(flats(states@)),
{
    let mut by_pattern = start("match state");
    put_braces(&mut by_pattern, identities(states));
    let mut by_identity = start("match state");
    put_braces(&mut by_identity, parents(states));
    let mut out = start("fn __state_id(state: &State) -> StateId");
    put_braces(&mut out, by_pattern);
    put_text(&mut out, "fn __parent(state: StateId) -> ::core::option::Option<StateId>");
    put_braces(&mut out, by_identity);
    out
}

fn membership(definition: &MachineDef) -> (out: Vec<Code>)
    ensures
        codes(out@) == membership_code(*definition),
{
    let mut own = single_name(&definition.name);
    put_text(&mut own, "::__state_id(self)");
    let mut step = start("if state == ancestor { return true; } current =");
    put_name(&mut step, &definition.name);
    put_text(&mut step, "::__parent(state);");
    let mut body = start("let mut current = ::core::option::Option::Some");
    put_parens(&mut body, own);
    put_text(&mut body, "; while let ::core::option::Option::Some(state) = current");
    put_braces(&mut body, step);
    put_text(&mut body, "false");
    let mut method = start("pub fn is_in(&self, ancestor: StateId) -> bool");
    put_braces(&mut method, body);
    let mut out = start("#[allow(missing_docs)] impl State");
    put_braces(&mut out, method);
    out
}

/// Puts the parts of a machine together.
fn assemble(
    definition: &MachineDef,
    validated: &Validated,
    context_trait: &Ident,
    states: &Vec<FlatState<'_>>,
    initial: Vec<Code>,
    level_arms: Vec<Code>,
    wildcards: Vec<Code>,
) -> (out: Vec<Code>)
    requires
        flats(states@) == states_of(*definition),
    ensures
        codes(out@) == machine_code(
            *definition,
            validated@,
            *context_trait,
            codes(initial@),
            codes(level_arms@),
            codes(wildcards@),
        ),
{
    let mut methods = constructors(definition, initial);
    put_all(&mut methods, accessors(definition));
    put_all(
        &mut methods,
        evaluate_item(definition, validated.is_async, level_arms, wildcards),
    );
    put_all(&mut methods, process_item(definition, validated.is_async));
    put_all(&mut methods, lookups(states));
    let mut out = enums(definition, states, &validated.transitions, &validated.rejections);
    put_all(&mut out, context_trait_item(&validated.callables, definition, context_trait));
    put_all(&mut out, machine_struct(definition));
    put_text(&mut out, "#[allow(missing_docs)] impl");
    put_name(&mut out, &definition.name);
    put_braces(&mut out, methods);
    put_all(&mut out, membership(definition));
    out
}

fn try_expand(
    definition: &MachineDef,
    validated: &Validated,
    context_trait: &Ident,
) -> (result: Result<Vec<Code>, Message>)
    ensures
        code_made(result) == expansion(*definition, validated@, *context_trait),
{
    let states = flatten_states(definition.states.as_slice());
    let root = match find_initial(&definition.states, 0) {
        Some(root) => root,
        None => return Err(
            Message {
                span: definition.name.span,
                text: "missing root initial state".to_owned(),
                failure: None,
            },
        ),
    };
    let initial = match initial_expression(&definition.states[root]) {
        Ok(initial) => initial,
        Err(message) => return Err(message),
    };
    let level_arms = match levels(definition, context_trait, &states) {
        Ok(arms) => arms,
        Err(message) => return Err(message),
    };
    let wildcards = match blocks(definition, context_trait, &states, None) {
        Ok(rows) => rows,
        Err(message) => return Err(message),
    };
    assert(states_of(*definition).len() == states@.len());
    Ok(assemble(definition, validated, context_trait, &states, initial, level_arms, wildcards))
}

/// Writes the Rust code of a machine, piece by piece.
pub fn expand_code(definition: &MachineDef, validated: &Validated) -> (result: Result<
    Vec<Code>,
    Error,
>)
    ensures
        definition.name.is_extensible() ==> exists|context_trait: Ident|
            is_context_trait(*definition, context_trait) && #[trigger] makes_code(
                result,
                *definition,
                validated@,
                context_trait,
            ),
        !definition.name.is_extensible() ==> (result matches Err(error) && error@ == seq![
            no_name(definition.name),
        ]),
{
    if !definition.name.can_be_extended() {
        return Err(
            Error::new(
                Message::at(
                    definition.name.span,
                    "the name of a machine must be an identifier".to_owned(),
                ),
            ),
        );
    }
    proof {
        reveal_strlit("Context");
    }
    let context_trait = definition.name.extended("Context");
    let result = match try_expand(definition, validated, &context_trait) {
        Ok(code) => Ok(code),
        Err(message) => Err(Error::new(message)),
    };
    assert(is_context_trait(*definition, context_trait));
    assert(makes_code(result, *definition, validated@, context_trait));
    result
}

/// Writes the Rust code of a machine.
pub fn expand(definition: &MachineDef, validated: &Validated) -> (result: Result<
    proc_macro2::TokenStream,
    Error,
>)
    ensures
        definition.name.is_extensible() ==> exists|context_trait: Ident|
            is_context_trait(*definition, context_trait) && #[trigger] expands(
                result,
                *definition,
                validated@,
                context_trait,
            ),
        !definition.name.is_extensible() ==> (result matches Err(error) && error@ == seq![
            no_name(definition.name),
        ]),
{
    let made = expand_code(definition, validated);
    let ghost context_trait = choose|context_trait: Ident|
        is_context_trait(*definition, context_trait) && #[trigger] makes_code(
            made,
            *definition,
            validated@,
            context_trait,
        );
    let result = match made {
        Ok(code) => Ok(code_stream(&code)),
        Err(error) => Err(error),
    };
    assert(definition.name.is_extensible() ==> expands(
        result,
        *definition,
        validated@,
        context_trait,
    ));
    result
}

} // verus!
