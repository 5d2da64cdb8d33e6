//! The `machine!` macro, from the tokens of its invocation to those of its expansion.
use crate::code::{piece_written, written, CodeView};
use crate::error::{
    is_refusal, refusal_at, refusals_are_compile_errors, refuses, Error, MessageView,
};
use crate::expand::{expand, expands, expansion, is_context_trait, no_name, table_view};
use crate::laws::{names_can_be_extended, valid_definitions_expand};
use crate::model::MachineDef;
use crate::parse::{parse_stream, reads};
use crate::template::run;
use crate::token::{
    are_resolved, shapes, spliced, stream_placed, stream_trees, tokens_view, tree_shape, Ident,
    PlacedView, Shape, Token, TreeView,
};
use crate::types::type_refusals_are_compile_errors;
use crate::valid::valid;
use crate::validate::{validate, validation_errors};
use vstd::prelude::*;

verus! {

/// Whether token trees are the code that a definition expands to.
pub open spec fn is_code_of(
    definition: MachineDef,
    context_trait: Ident,
    trees: Seq<PlacedView>,
) -> bool {
    &&& is_context_trait(definition, context_trait)
    &&& expansion(definition, table_view(definition), context_trait) matches Ok(code) && written(
        code,
        trees,
    )
}

/// Everything that is wrong with what was read.
pub open spec fn everything_wrong(parsed: Result<MachineDef, Error>) -> Seq<MessageView> {
    match parsed {
        Err(error) => error@,
        Ok(definition) => if definition.name.is_extensible() || !valid(definition) {
            validation_errors(definition)
        } else {
            seq![no_name(definition.name)]
        },
    }
}

/// Whether token trees answer what was read: the code that it expands to where nothing is wrong
/// with it, else everything that is wrong, as code that the compiler refuses.
pub open spec fn is_answer(parsed: Result<MachineDef, Error>, trees: Seq<PlacedView>) -> bool {
    if everything_wrong(parsed).len() == 0 && parsed is Ok {
        exists|context_trait: Ident| is_code_of(parsed->Ok_0, context_trait, trees)
    } else {
        refuses(everything_wrong(parsed), trees)
    }
}

/// Whether a result is what reading a macro invocation gives.
pub open spec fn is_reading(parsed: Result<MachineDef, Error>, input: Seq<TreeView>) -> bool {
    exists|tokens: Seq<Token>, end: proc_macro2::Span|
        tokens_view(tokens) == spliced(input) && are_resolved(tokens) && #[trigger] reads(
            parsed,
            tokens,
            input,
            end,
        )
}

proof fn lemma_first_written(pieces: Seq<CodeView>, trees: Seq<PlacedView>)
    requires
        written(pieces, trees),
        pieces.len() > 0,
    ensures
        exists|n: int|
            0 <= n <= trees.len() && piece_written(pieces[0], #[trigger] trees.take(n)),
    decreases pieces.len(),
{
    let n = choose|n: int|
        0 <= n <= trees.len() && written(pieces.drop_last(), #[trigger] trees.take(n))
            && piece_written(pieces.last(), trees.skip(n));
    if pieces.len() == 1 {
        assert(trees.skip(n) =~= trees);
        assert(trees.take(trees.len() as int) =~= trees);
    } else {
        lemma_first_written(pieces.drop_last(), trees.take(n));
        let m = choose|m: int|
            0 <= m <= n && piece_written(pieces[0], #[trigger] trees.take(n).take(m));
        assert(trees.take(n).take(m) =~= trees.take(m));
    }
}

proof fn lemma_first_refused(messages: Seq<MessageView>, trees: Seq<PlacedView>)
    requires
        refuses(messages, trees),
        messages.len() > 0,
    ensures
        exists|n: int|
            0 <= n <= trees.len() && is_refusal(messages[0], #[trigger] trees.take(n)),
    decreases messages.len(),
{
    let n = choose|n: int|
        0 <= n <= trees.len() && refuses(messages.drop_last(), #[trigger] trees.take(n))
            && is_refusal(messages.last(), trees.skip(n));
    if messages.len() == 1 {
        assert(trees.skip(n) =~= trees);
        assert(trees.take(trees.len() as int) =~= trees);
    } else {
        lemma_first_refused(messages.drop_last(), trees.take(n));
        let m = choose|m: int|
            0 <= m <= n && is_refusal(messages[0], #[trigger] trees.take(n).take(m));
        assert(trees.take(n).take(m) =~= trees.take(m));
    }
}

/// The code of a machine is no refusal.
pub proof fn code_is_no_refusal(
    definition: MachineDef,
    context_trait: Ident,
    trees: Seq<PlacedView>,
    messages: Seq<MessageView>,
)
    requires
        is_code_of(definition, context_trait, trees),
        messages.len() > 0,
    ensures
        !refuses(messages, trees),
{
    let code = expansion(definition, table_view(definition), context_trait)->Ok_0;
    let header = "#[allow(missing_docs)] #[derive(Clone, Debug, PartialEq)]";
    assert(code[0] == CodeView::Text(header@));
    lemma_first_written(code, trees);
    let n = choose|n: int|
        0 <= n <= trees.len() && piece_written(code[0], #[trigger] trees.take(n));
    reveal_strlit("#[allow(missing_docs)] #[derive(Clone, Debug, PartialEq)]");
    assert(run(header@, 0).0[0] == Shape::Punct('#', false));
    lemma_first_shape(trees.take(n));
    if refuses(messages, trees) {
        lemma_first_refused(messages, trees);
        let m = choose|m: int|
            0 <= m <= trees.len() && is_refusal(messages[0], #[trigger] trees.take(m));
        lemma_first_shape(trees.take(m));
        match messages[0].failed {
            Some((read, end)) => {
                type_refusals_are_compile_errors(read, end, trees.take(m));
            },
            None => {
                let span = messages[0].span;
                refusals_are_compile_errors(span, messages[0].text, trees.take(m));
                let literal = choose|literal: Seq<char>|
                    trees.take(m) == #[trigger] refusal_at(span, literal);
                assert(refusal_at(span, literal).len() > 0);
                assert(refusal_at(span, literal)[0] == PlacedView::Punct(':', true));
            },
        }
        assert(trees.take(m)[0] == trees[0]);
        assert(trees.take(n)[0] == trees[0]);
    }
}

proof fn lemma_first_shape(trees: Seq<PlacedView>)
    ensures
        shapes(trees).len() == trees.len(),
        trees.len() > 0 ==> shapes(trees)[0] == tree_shape(trees[0]),
    decreases trees.len(),
{
    if trees.len() > 0 {
        lemma_first_shape(trees.drop_last());
    }
}

/// An input is answered by what is wrong with it, all of it and nothing else, exactly where it
/// cannot be read or what was read is not valid. Every other input is answered by the code that it
/// expands to, which is no refusal.
pub proof fn inputs_are_refused_or_expanded(
    parsed: Result<MachineDef, Error>,
    input: Seq<TreeView>,
    trees: Seq<PlacedView>,
)
    requires
        is_reading(parsed, input),
        is_answer(parsed, trees),
    ensures
        match parsed {
            Err(error) => error@.len() == 1 && refuses(error@, trees),
            Ok(definition) => if valid(definition) {
                &&& exists|context_trait: Ident| is_code_of(definition, context_trait, trees)
                &&& forall|messages: Seq<MessageView>|
                    messages.len() > 0 ==> !#[trigger] refuses(
                        messages,
                        trees,
                    )
            } else {
                refuses(validation_errors(definition), trees)
            },
        },
{
    let (tokens, end) = choose|tokens: Seq<Token>, end: proc_macro2::Span|
        tokens_view(tokens) == spliced(input) && are_resolved(tokens) && #[trigger] reads(
            parsed,
            tokens,
            input,
            end,
        );
    if let Ok(definition) = parsed {
        names_can_be_extended(definition, tokens, input, end);
        if valid(definition) {
            let context_trait = choose|context_trait: Ident|
                is_code_of(definition, context_trait, trees);
            assert forall|messages: Seq<MessageView>|
                messages.len() > 0 implies !#[trigger] refuses(
                messages,
                trees,
            ) by {
                code_is_no_refusal(definition, context_trait, trees, messages);
            }
        }
    }
}

/// Writes the answer to a definition that was read.
fn answer(parsed: &Result<MachineDef, Error>) -> (output: proc_macro2::TokenStream)
    ensures
        is_answer(*parsed, stream_placed(output)),
{
    let definition = match parsed {
        Ok(definition) => definition,
        Err(error) => return error.to_compile_error(),
    };
    let validated = match validate(definition) {
        Ok(validated) => validated,
        Err(error) => return error.to_compile_error(),
    };
    let expanded = expand(definition, &validated);
    let ghost context_trait = choose|context_trait: Ident|
        is_context_trait(*definition, context_trait) && #[trigger] expands(
            expanded,
            *definition,
            validated@,
            context_trait,
        );
    proof {
        assert(validated@ == table_view(*definition));
        valid_definitions_expand(*definition, validated@, context_trait);
    }
    match expanded {
        Ok(stream) => {
            assert(is_code_of(*definition, context_trait, stream_placed(stream)));
            stream
        },
        Err(error) => error.to_compile_error(),
    }
}

/// Defines a finite state machine from one state tree and transition table.
///
/// `*` marks the initial state at the root and inside each compound state. Accepted rows have a
/// stable transition label. Rejection rows stop propagation without changing state. Transition
/// labels must be unique.
///
/// ```text
/// machine! {
///     name: Door,
///     states: { *Closed, Open },
///     events: { Open, Close },
///     transitions: {
///         Opened: Closed + Open => Open,
///         Open + Open => reject AlreadyOpen,
///     }
/// }
/// ```
///
/// `context` is required only for machines with callbacks. `effect` is required only when an
/// effect factory is used. Rejection reasons are collected into a generated `Rejection` enum.
pub fn machine(input: proc_macro2::TokenStream) -> (output: proc_macro2::TokenStream)
    ensures
        exists|parsed: Result<MachineDef, Error>|
            is_reading(parsed, stream_trees(input)) && #[trigger] is_answer(
                parsed,
                stream_placed(output),
            ),
{
    let ghost trees = stream_trees(input);
    let parsed = parse_stream(input);
    assert(is_reading(parsed, trees));
    answer(&parsed)
}

} // verus!
