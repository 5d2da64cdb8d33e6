//! What a refused definition is answered with.
use crate::token::{append_stream, stream_placed, Delimiter, PlacedView};
use crate::types::{is_type_refusal, TypeFailure};
use vstd::prelude::*;

verus! {

/// One thing that is wrong with a definition, and where. Where a type cannot be read, `failure`
/// tells the place more exactly.
pub struct Message {
    pub span: proc_macro2::Span,
    pub text: String,
    pub failure: Option<TypeFailure>,
}

/// The mathematical value of a [`Message`]. Where a type cannot be read, `failed` holds the token
/// trees that were looked at, and the place where they end.
pub struct MessageView {
    pub span: proc_macro2::Span,
    pub text: Seq<char>,
    pub failed: Option<(Seq<PlacedView>, proc_macro2::Span)>,
}

impl View for Message {
    type V = MessageView;

    open spec fn view(&self) -> MessageView {
        MessageView {
            span: self.span,
            text: self.text@,
            failed: match self.failure {
                Some(failure) => Some((failure.read(), failure.end())),
                None => None,
            },
        }
    }
}

/// The mathematical values of several messages, in order.
pub open spec fn messages_view(messages: Seq<Message>) -> Seq<MessageView> {
    messages.map_values(|message: Message| message@)
}

/// A message with the given text at a place.
pub open spec fn message_at(span: proc_macro2::Span, text: Seq<char>) -> MessageView {
    MessageView { span, text, failed: None }
}

impl Message {
    /// A message at a place.
    pub fn at(span: proc_macro2::Span, text: String) -> (message: Message)
        ensures
            message@ == message_at(span, text@),
    {
        Message { span, text, failure: None }
    }

    /// Writes the message as code that the compiler refuses with it.
    pub fn to_refusal(&self) -> (stream: proc_macro2::TokenStream)
        ensures
            is_refusal(self@, stream_placed(stream)),
    {
        match &self.failure {
            Some(failure) => failure.to_refusal(),
            None => {
                let text = self.text.as_str();
                let stream = refusal_stream(self.span, text);
                assert(call_ensures(refusal_stream, (self.span, text), stream));
                stream
            },
        }
    }
}

/// Adds a message to those found so far.
pub(crate) fn report(errors: &mut Vec<Message>, span: proc_macro2::Span, text: String)
    ensures
        messages_view(final(errors)@) == messages_view(old(errors)@).push(
            message_at(span, text@),
        ),
{
    errors.push(Message::at(span, text));
    assert(messages_view(errors@) =~= messages_view(old(errors)@).push(message_at(span, text@)));
}

/// The invocation of `compile_error!` with a string literal, `::core::compile_error! { "text" }`,
/// at a place.
pub open spec fn refusal_at(span: proc_macro2::Span, literal: Seq<char>) -> Seq<PlacedView> {
    seq![
        PlacedView::Punct(':', true),
        PlacedView::Punct(':', false),
        PlacedView::Ident("core"@, span),
        PlacedView::Punct(':', true),
        PlacedView::Punct(':', false),
        PlacedView::Ident("compile_error"@, span),
        PlacedView::Punct('!', false),
        PlacedView::Group(Delimiter::Brace, seq![PlacedView::Literal(literal, span)]),
    ]
}

/// `Error::to_compile_error` of `syn`, for a `syn::Error` of one message.
/// Claimed: the tokens are an invocation of `compile_error!` with a string literal, at the place
/// of the message. How the text is escaped in the literal, and which places punctuation and
/// brackets have, is not stated.
#[verifier::external_body]
fn refusal_stream(span: proc_macro2::Span, text: &str) -> (stream: proc_macro2::TokenStream)
    ensures
        exists|literal: Seq<char>| stream_placed(stream) == #[trigger] refusal_at(span, literal),
{
    syn::Error::new(span, text).to_compile_error()
}

/// Whether token trees are a refusal that may be written for a text at a place.
pub closed spec fn is_text_refusal(
    span: proc_macro2::Span,
    text: Seq<char>,
    trees: Seq<PlacedView>,
) -> bool {
    exists|t: &str, stream: proc_macro2::TokenStream|
        t@ == text && #[trigger] call_ensures(refusal_stream, (span, t), stream) && stream_placed(
            stream,
        ) == trees
}

/// The refusal of a text at a place is an invocation of `compile_error!` there.
pub proof fn refusals_are_compile_errors(
    span: proc_macro2::Span,
    text: Seq<char>,
    trees: Seq<PlacedView>,
)
    requires
        is_text_refusal(span, text, trees),
    ensures
        exists|literal: Seq<char>| trees == #[trigger] refusal_at(span, literal),
{
}

/// Whether token trees make the compiler refuse the code around them with a message.
pub open spec fn is_refusal(message: MessageView, trees: Seq<PlacedView>) -> bool {
    match message.failed {
        Some((read, end)) => is_type_refusal(read, end, trees),
        None => is_text_refusal(message.span, message.text, trees),
    }
}

/// Whether token trees make the compiler refuse the code around them with the messages, in their
/// order, and with nothing else.
pub open spec fn refuses(messages: Seq<MessageView>, trees: Seq<PlacedView>) -> bool
    decreases messages.len(),
{
    if messages.len() == 0 {
        trees.len() == 0
    } else {
        exists|n: int|
            0 <= n <= trees.len() && refuses(messages.drop_last(), #[trigger] trees.take(n))
                && is_refusal(messages.last(), trees.skip(n))
    }
}

/// Everything that is wrong with a definition: one message or more.
pub struct Error {
    first: Message,
    rest: Vec<Message>,
}

impl View for Error {
    type V = Seq<MessageView>;

    closed spec fn view(&self) -> Seq<MessageView> {
        seq![self.first@] + messages_view(self.rest@)
    }
}

impl Error {
    /// The messages can be counted.
    #[verifier::type_invariant]
    spec fn is_counted(self) -> bool {
        self.rest@.len() < usize::MAX
    }

    /// An error of one message.
    pub fn new(message: Message) -> (error: Error)
        ensures
            error@ == seq![message@],
    {
        Error { first: message, rest: Vec::new() }
    }

    /// The text of the first message.
    pub fn message(&self) -> (text: &str)
        ensures
            text@ == self@[0].text,
    {
        self.first.text.as_str()
    }

    /// Writes the error as code that the compiler refuses with the messages.
    pub fn to_compile_error(&self) -> (stream: proc_macro2::TokenStream)
        ensures
            refuses(self@, stream_placed(stream)),
    {
        let mut stream = self.first.to_refusal();
        let ghost all = self@;
        proof {
            let trees = stream_placed(stream);
            assert(all.take(1).drop_last() =~= Seq::<MessageView>::empty());
            assert(refuses(all.take(1).drop_last(), trees.take(0)));
            assert(trees.skip(0) =~= trees);
            assert(refuses(all.take(1), trees));
        }
        let mut i: usize = 0;
        while i < self.rest.len()
            invariant
                i <= self.rest@.len(),
                all == self@,
                all.len() == self.rest@.len() + 1,
                refuses(all.take(i + 1), stream_placed(stream)),
            decreases self.rest@.len() - i,
        {
            let ghost before = stream_placed(stream);
            let more = self.rest[i].to_refusal();
            append_stream(&mut stream, more);
            proof {
                let trees = stream_placed(stream);
                assert(all.take(i + 2).drop_last() =~= all.take(i + 1));
                assert(all.take(i + 2).last() == self.rest@[i as int]@);
                assert(trees.take(before.len() as int) =~= before);
                assert(trees.skip(before.len() as int) =~= stream_placed(more));
                assert(refuses(all.take(i + 2), trees));
            }
            i = i + 1;
        }
        assert(all.take(all.len() as int) =~= all);
        stream
    }

    /// The number of messages.
    pub fn len(&self) -> (count: usize)
        ensures
            count == self@.len(),
    {
        proof {
            use_type_invariant(self);
        }
        self.rest.len() + 1
    }

    /// One of the messages, in the order in which they were found.
    pub fn get(&self, index: usize) -> (message: Option<&Message>)
        ensures
            index < self@.len() <==> message is Some,
            message matches Some(m) ==> m@ == self@[index as int],
    {
        if index == 0 {
            Some(&self.first)
        } else if index - 1 < self.rest.len() {
            Some(&self.rest[index - 1])
        } else {
            None
        }
    }
}

/// Joins the messages found so far into one error that keeps their order.
pub fn combine(errors: Vec<Message>) -> (error: Error)
    requires
        errors@.len() > 0,
    ensures
        error@ == messages_view(errors@),
{
    let ghost all = errors@;
    assert(errors.len() == all.len());
    let mut rest = errors;
    let first = rest.remove(0);
    assert(seq![first@] + messages_view(rest@) =~= messages_view(all));
    Error { first, rest }
}

} // verus!
