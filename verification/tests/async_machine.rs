use std::cell::Cell;
use std::future::{self, Future};
use std::pin::Pin;
use std::task::{Poll, Waker};

use rfsm::{parse_str, Applied, Machine, MachineDef, ProcessError, Step, Table};

const ASYNC_GATE: &str = r#"
    name: AsyncGate,
    context: Facts,
    effect: Effect,
    states: { *Closed, Open },
    events: { Enter },
    transitions: {
        Entered: Closed + Enter [async allowed] / async effect => Open,
        Closed + Enter => reject Denied,
        Open + Enter => reject Denied,
    }
"#;

#[derive(Clone, Copy, Debug, Eq, PartialEq)]
enum Effect {
    Entered,
}

enum Decision {
    Allow,
    Deny,
    PendingGuard,
    PendingEffect,
}

struct Facts {
    decision: Decision,
    callback_steps: Cell<u32>,
}

impl Facts {
    fn new(decision: Decision) -> Self {
        Self {
            decision,
            callback_steps: Cell::new(0),
        }
    }

    async fn allowed(&self) -> bool {
        self.callback_steps.set(self.callback_steps.get() + 1);
        match self.decision {
            Decision::Allow => true,
            Decision::Deny => false,
            Decision::PendingGuard => future::pending().await,
            Decision::PendingEffect => true,
        }
    }

    async fn effect(&self) -> Effect {
        self.callback_steps.set(self.callback_steps.get() + 1);
        match self.decision {
            Decision::PendingEffect => future::pending().await,
            _ => Effect::Entered,
        }
    }
}

#[derive(Clone, Copy, Debug, PartialEq)]
enum State {
    Closed,
    Open,
}

#[derive(Clone, Copy, Debug, PartialEq)]
enum Event {
    Enter,
}

#[derive(Clone, Copy, Debug, PartialEq)]
enum Transition {
    Entered,
}

#[derive(Clone, Copy, Debug, PartialEq)]
enum Rejection {
    Denied,
}

#[derive(Debug, PartialEq)]
struct Outcome {
    transition: Transition,
    effect: Option<Effect>,
}

type Failure = ProcessError<State, Event, Rejection>;

const STATES: [State; 2] = [State::Closed, State::Open];

struct AsyncGate {
    table: &'static Table<'static>,
    machine: Machine<'static, 'static, u8, Facts>,
}

fn table() -> &'static Table<'static> {
    let definition: MachineDef = parse_str(ASYNC_GATE)
        .unwrap_or_else(|error| panic!("unexpected parse failure: {}", error.message()));
    let definition: &'static MachineDef = Box::leak(Box::new(definition));
    let table = Table::new(definition)
        .unwrap_or_else(|error| panic!("unexpected validation failure: {}", error.message()));
    Box::leak(Box::new(table))
}

impl AsyncGate {
    fn new(context: Facts) -> Self {
        let table = table();
        AsyncGate { table, machine: Machine::new(table, context) }
    }

    fn state(&self) -> &State {
        &STATES[self.machine.state().id]
    }

    fn context(&self) -> &Facts {
        self.machine.context()
    }

    async fn select(&self, event: &rfsm::Event<u8>) -> Option<usize> {
        let leaf = self.machine.state_id();
        let mut step = self.table.first(leaf, event.id);
        loop {
            match step {
                Step::Unhandled => return None,
                Step::Take(row) => return Some(row),
                Step::Ask(row) => {
                    let call = self.table.guard_call(row, self.machine.state(), event);
                    assert_eq!(call.map(|(name, _)| name), Some("allowed"));
                    if self.context().allowed().await {
                        return Some(row);
                    }
                    step = self.table.refused(leaf, event.id, row);
                }
            }
        }
    }

    async fn process(&mut self, _event: Event) -> Result<Outcome, Failure> {
        let event = rfsm::Event { id: 0, payload: Vec::new() };
        let row = match self.select(&event).await {
            Some(row) => row,
            None => {
                return Err(ProcessError::Unhandled { state: *self.state(), event: Event::Enter })
            }
        };
        let mut effect = None;
        if self.table.accepting(row) {
            if let Some((name, _)) = self.table.effect_call(row, self.machine.state(), &event) {
                assert_eq!(name, "effect");
                effect = Some(self.context().effect().await);
            }
        }
        match self.table.conclude(row, self.machine.state(), &event, effect) {
            Ok(plan) => {
                let applied: Applied<rfsm::State<u8>, usize, Effect> = self.machine.commit(plan);
                Ok(Outcome {
                    transition: [Transition::Entered][applied.transition],
                    effect: applied.effect,
                })
            }
            Err(ProcessError::Rejected(reason)) => {
                Err(ProcessError::Rejected([Rejection::Denied][reason]))
            }
            Err(ProcessError::Unhandled { .. }) => {
                Err(ProcessError::Unhandled { state: *self.state(), event: Event::Enter })
            }
        }
    }
}

fn run_ready<F: Future>(future: F) -> F::Output {
    let mut future = Box::pin(future);
    let mut context = std::task::Context::from_waker(Waker::noop());
    match future.as_mut().poll(&mut context) {
        Poll::Ready(output) => output,
        Poll::Pending => panic!("future unexpectedly suspended"),
    }
}

#[test]
fn async_guard_selects_transition_or_fallback_rejection() {
    let mut allowed = AsyncGate::new(Facts::new(Decision::Allow));
    let applied = run_ready(allowed.process(Event::Enter))
        .unwrap_or_else(|failure| panic!("unexpected failure: {}", failure.to_string()));
    assert_eq!(applied.transition, Transition::Entered);
    assert_eq!(applied.effect, Some(Effect::Entered));
    assert_eq!(allowed.state(), &State::Open);

    let mut denied = AsyncGate::new(Facts::new(Decision::Deny));
    assert_eq!(
        run_ready(denied.process(Event::Enter)),
        Err(ProcessError::Rejected(Rejection::Denied))
    );
    assert_eq!(denied.state(), &State::Closed);
}

#[test]
fn cancellation_while_async_guard_is_pending_preserves_only_machine_state() {
    let mut gate = AsyncGate::new(Facts::new(Decision::PendingGuard));
    let mut processing = Box::pin(gate.process(Event::Enter));
    let mut context = std::task::Context::from_waker(Waker::noop());

    assert!(matches!(
        Pin::as_mut(&mut processing).poll(&mut context),
        Poll::Pending
    ));
    drop(processing);

    assert_eq!(gate.state(), &State::Closed);
    assert_eq!(gate.context().callback_steps.get(), 1);
}

#[test]
fn cancellation_while_async_effect_is_pending_preserves_only_machine_state() {
    let mut gate = AsyncGate::new(Facts::new(Decision::PendingEffect));
    let mut processing = Box::pin(gate.process(Event::Enter));
    let mut context = std::task::Context::from_waker(Waker::noop());

    assert!(matches!(
        Pin::as_mut(&mut processing).poll(&mut context),
        Poll::Pending
    ));
    drop(processing);

    assert_eq!(gate.state(), &State::Closed);
    assert_eq!(gate.context().callback_steps.get(), 2);
}
