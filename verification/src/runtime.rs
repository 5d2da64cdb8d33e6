//! What handling an event gives.
use crate::text::{join2, join5};
use vstd::prelude::*;

verus! {

/// A transition committed to a machine instance.
///
/// This value does not prove that caller-owned storage was updated. A database-backed
/// application should publish it only after its transaction commits.
#[derive(Clone, Debug, Eq, PartialEq)]
#[must_use]
pub struct Applied<S, T, F> {
    /// Stable identity of the selected transition.
    pub transition: T,
    /// Active leaf before the transition.
    pub from: S,
    /// Active leaf after the transition.
    pub to: S,
    /// Caller-owned external work selected by the transition.
    pub effect: Option<F>,
}

/// A transition that was selected and is not committed yet.
#[derive(Clone, Debug, Eq, PartialEq)]
#[must_use]
pub struct Plan<S, T, F> {
    /// Stable identity of the selected transition.
    pub transition: T,
    /// Active leaf before the transition.
    pub from: S,
    /// Active leaf after the transition.
    pub to: S,
    /// Caller-owned external work selected by the transition.
    pub effect: Option<F>,
}

impl<S, T, F> Plan<S, T, F> {
    /// Reports the plan as applied, once its outcome is stored.
    pub fn confirm(self) -> (applied: Applied<S, T, F>)
        ensures
            applied == (Applied {
                transition: self.transition,
                from: self.from,
                to: self.to,
                effect: self.effect,
            }),
    {
        Applied {
            transition: self.transition,
            from: self.from,
            to: self.to,
            effect: self.effect,
        }
    }
}

/// The reason no transition was selected.
#[derive(Clone, Debug, Eq, PartialEq)]
pub enum ProcessError<S, E, R> {
    /// No row handled the event at the active leaf or any ancestor.
    Unhandled {
        /// Active leaf identity at selection time.
        state: S,
        /// Event that no row handled.
        event: E,
    },
    /// A matching row understood and explicitly refused the event.
    Rejected(R),
}

/// `Debug` of a value, as `format!` writes it with `{:?}`. Nothing is claimed of the text: what
/// it is depends on the type's own impl of `Debug`.
#[verifier::external_body]
fn debug_text<T: core::fmt::Debug>(value: &T) -> (text: String) {
    format!("{:?}", value)
}

/// Whether a text is one that `Debug` of a value may write.
pub closed spec fn is_debug_text<T: core::fmt::Debug>(value: T, text: Seq<char>) -> bool {
    exists|written: String|
        #[trigger] call_ensures(debug_text::<T>, (&value,), written) && written@ == text
}

/// The message of an error on an event that no row handled.
pub open spec fn unhandled_text(state: Seq<char>, event: Seq<char>) -> Seq<char> {
    "event "@ + event + " was not handled in state "@ + state
}

/// The message of an error on an event that was refused.
pub open spec fn rejected_text(reason: Seq<char>) -> Seq<char> {
    "event was rejected: "@ + reason
}

/// Writes the message on an event that no row handled.
pub fn write_unhandled(state: &str, event: &str) -> (text: String)
    ensures
        text@ == unhandled_text(state@, event@),
{
    let text = join5("event ", event, " was not handled in state ", state, "");
    proof {
        reveal_strlit("");
        assert(text@ =~= unhandled_text(state@, event@));
    }
    text
}

/// Writes the message on an event that was refused.
pub fn write_rejected(reason: &str) -> (text: String)
    ensures
        text@ == rejected_text(reason@),
{
    join2("event was rejected: ", reason)
}

impl<S: core::fmt::Debug, E: core::fmt::Debug, R: core::fmt::Debug> ProcessError<S, E, R> {
    /// The message of the error. It holds the `Debug` texts of the state and the event, or of
    /// the reason.
    pub fn to_string(&self) -> (text: String)
        ensures
            match *self {
                ProcessError::Unhandled { state, event } => exists|s: Seq<char>, e: Seq<char>|
                    #[trigger] is_debug_text(state, s) && #[trigger] is_debug_text(event, e)
                        && text@ == unhandled_text(s, e),
                ProcessError::Rejected(reason) => exists|r: Seq<char>| #[trigger]
                    is_debug_text(reason, r) && text@ == rejected_text(r),
            },
    {
        match self {
            ProcessError::Unhandled { state, event } => {
                let s = debug_text(state);
                let e = debug_text(event);
                assert(call_ensures(debug_text::<S>, (state,), s));
                assert(call_ensures(debug_text::<E>, (event,), e));
                assert(is_debug_text(*state, s@) && is_debug_text(*event, e@));
                write_unhandled(s.as_str(), e.as_str())
            },
            ProcessError::Rejected(reason) => {
                let r = debug_text(reason);
                assert(call_ensures(debug_text::<R>, (reason,), r));
                assert(is_debug_text(*reason, r@));
                write_rejected(r.as_str())
            },
        }
    }
}

} // verus!
