use rfsm::{parse_str, Context, Machine, MachineDef, ProcessError, Table};

const WORKFLOW: &str = r#"
    name: Workflow,
    context: Facts,
    effect: Effect,
    states: {
        *Idle,
        r#Flow {
            *Waiting,
            r#Ready { r#token: Token },
            Review,
        },
        Failed,
        Done,
    },
    events: {
        Begin,
        r#Accept { token: Token },
        Cancel,
        Finish,
    },
    transitions: {
        ParentAccepted: Flow + Accept { .. } => Failed,
        Flow + Cancel => reject CancellationBlocked,
        Began: Idle + Begin => Flow,
        r#Accepted: Waiting + Accept { r#token } / record(token) => Ready { token },
        Ready { .. } + Accept { .. } => reject Duplicate,
        CancelledReady: Ready { token } + Cancel [r#may_cancel]
            / release(token) => Failed,
        CancelledWaiting: Waiting + Cancel [may_cancel] => Failed,
        Finished: Ready { .. } + Finish => Done,
        _ + _ => reject InvalidEvent,
    }
"#;

#[derive(Clone, Copy, Debug, Eq, PartialEq)]
struct Token(u64);

#[derive(Clone, Copy, Debug, Eq, PartialEq)]
enum Effect {
    Record(Token),
    Release(Token),
}

struct Facts {
    may_cancel: bool,
}

impl Context<Token, Effect> for Facts {
    fn guard(&self, name: &str, arguments: &Vec<&Token>) -> bool {
        assert_eq!(name, "may_cancel");
        assert!(arguments.is_empty());
        self.may_cancel
    }

    fn effect(&self, name: &str, arguments: &Vec<&Token>) -> Effect {
        match name {
            "record" => Effect::Record(*arguments[0]),
            _ => {
                assert_eq!(name, "release");
                Effect::Release(*arguments[0])
            }
        }
    }
}

#[derive(Clone, Copy, Debug, PartialEq)]
enum State {
    Idle,
    Waiting,
    Ready { token: Token },
    Review,
    Failed,
    Done,
}

#[derive(Clone, Copy, Debug, PartialEq)]
enum StateId {
    Idle,
    Flow,
    Waiting,
    Ready,
    Review,
    Failed,
    Done,
}

#[derive(Clone, Copy, Debug, PartialEq)]
enum Event {
    Begin,
    Accept { token: Token },
    Cancel,
    Finish,
}

#[derive(Clone, Copy, Debug, PartialEq)]
enum Transition {
    ParentAccepted,
    Began,
    Accepted,
    CancelledReady,
    CancelledWaiting,
    Finished,
}

#[derive(Clone, Copy, Debug, PartialEq)]
enum Rejection {
    CancellationBlocked,
    Duplicate,
    InvalidEvent,
}

const STATE_IDS: [StateId; 7] = [
    StateId::Idle,
    StateId::Flow,
    StateId::Waiting,
    StateId::Ready,
    StateId::Review,
    StateId::Failed,
    StateId::Done,
];

const TRANSITIONS: [Transition; 6] = [
    Transition::ParentAccepted,
    Transition::Began,
    Transition::Accepted,
    Transition::CancelledReady,
    Transition::CancelledWaiting,
    Transition::Finished,
];

const REJECTIONS: [Rejection; 3] =
    [Rejection::CancellationBlocked, Rejection::Duplicate, Rejection::InvalidEvent];

type Failure = ProcessError<StateId, Event, Rejection>;

#[derive(Debug, PartialEq)]
struct Outcome {
    transition: Transition,
    from: State,
    to: State,
    effect: Option<Effect>,
}

fn restored(state: &rfsm::State<Token>) -> State {
    match STATE_IDS[state.id] {
        StateId::Idle => State::Idle,
        StateId::Waiting => State::Waiting,
        StateId::Ready => State::Ready { token: state.payload[0] },
        StateId::Review => State::Review,
        StateId::Failed => State::Failed,
        StateId::Done => State::Done,
        StateId::Flow => panic!("a compound state is active"),
    }
}

fn plain(state: State) -> rfsm::State<Token> {
    let (id, payload) = match state {
        State::Idle => (StateId::Idle, Vec::new()),
        State::Waiting => (StateId::Waiting, Vec::new()),
        State::Ready { token } => (StateId::Ready, vec![token]),
        State::Review => (StateId::Review, Vec::new()),
        State::Failed => (StateId::Failed, Vec::new()),
        State::Done => (StateId::Done, Vec::new()),
    };
    let id = STATE_IDS.iter().position(|known| *known == id).unwrap_or(0);
    rfsm::State { id, payload }
}

fn occurred(event: Event) -> rfsm::Event<Token> {
    match event {
        Event::Begin => rfsm::Event { id: 0, payload: Vec::new() },
        Event::Accept { token } => rfsm::Event { id: 1, payload: vec![token] },
        Event::Cancel => rfsm::Event { id: 2, payload: Vec::new() },
        Event::Finish => rfsm::Event { id: 3, payload: Vec::new() },
    }
}

struct Workflow {
    machine: Machine<'static, 'static, Token, Facts>,
}

fn table() -> &'static Table<'static> {
    let definition: MachineDef = parse_str(WORKFLOW)
        .unwrap_or_else(|error| panic!("unexpected parse failure: {}", error.message()));
    let definition: &'static MachineDef = Box::leak(Box::new(definition));
    let table = Table::new(definition)
        .unwrap_or_else(|error| panic!("unexpected validation failure: {}", error.message()));
    Box::leak(Box::new(table))
}

impl Workflow {
    fn new(context: Facts) -> Self {
        Workflow { machine: Machine::new(table(), context) }
    }

    fn from_state(state: State, context: Facts) -> Self {
        let table = table();
        assert!(table.admits(&plain(state)));
        Workflow { machine: Machine::from_state(table, plain(state), context) }
    }

    fn state(&self) -> State {
        restored(self.machine.state())
    }

    fn context_mut(&mut self) -> &mut Facts {
        self.machine.context_mut()
    }

    fn is_in(&self, state: StateId) -> bool {
        let id = STATE_IDS.iter().position(|known| *known == state).unwrap_or(0);
        self.machine.is_in(id)
    }

    fn process(&mut self, event: Event) -> Result<Outcome, Failure> {
        match self.machine.process(occurred(event)) {
            Ok(applied) => Ok(Outcome {
                transition: TRANSITIONS[applied.transition],
                from: restored(&applied.from),
                to: restored(&applied.to),
                effect: applied.effect,
            }),
            Err(ProcessError::Unhandled { state, .. }) => {
                Err(ProcessError::Unhandled { state: STATE_IDS[state], event })
            }
            Err(ProcessError::Rejected(reason)) => {
                Err(ProcessError::Rejected(REJECTIONS[reason]))
            }
        }
    }
}

#[test]
fn compound_target_enters_initial_leaf_and_reports_membership() {
    let mut workflow = Workflow::new(Facts { may_cancel: true });

    let applied = workflow
        .process(Event::Begin)
        .unwrap_or_else(|failure| panic!("unexpected failure: {}", failure.to_string()));

    assert_eq!(applied.to, State::Waiting);
    assert_eq!(workflow.state(), State::Waiting);
    assert!(workflow.is_in(StateId::Flow));
    assert!(workflow.is_in(StateId::Waiting));
    assert!(!workflow.is_in(StateId::Idle));
}

#[test]
fn payload_binding_builds_target_and_effect() {
    let token = Token(7);
    let mut workflow = Workflow::from_state(State::Waiting, Facts { may_cancel: true });

    let applied = workflow
        .process(Event::Accept { token })
        .unwrap_or_else(|failure| panic!("unexpected failure: {}", failure.to_string()));

    assert_eq!(workflow.state(), State::Ready { token });
    assert_eq!(applied.transition, Transition::Accepted);
    assert_eq!(applied.effect, Some(Effect::Record(token)));
}

#[test]
fn child_rejection_precedes_parent_transition() {
    let token = Token(7);
    let mut workflow = Workflow::from_state(State::Ready { token }, Facts { may_cancel: true });

    let rejected = workflow.process(Event::Accept { token: Token(8) });

    assert_eq!(rejected, Err(ProcessError::Rejected(Rejection::Duplicate)));
    assert_eq!(workflow.state(), State::Ready { token });
}

#[test]
fn parent_transition_handles_event_unmatched_by_child() {
    let mut workflow = Workflow::from_state(State::Review, Facts { may_cancel: true });

    let applied = workflow
        .process(Event::Accept { token: Token(9) })
        .unwrap_or_else(|failure| panic!("unexpected failure: {}", failure.to_string()));

    assert_eq!(applied.transition, Transition::ParentAccepted);
    assert_eq!(workflow.state(), State::Failed);
}

#[test]
fn failed_child_guard_falls_through_then_context_update_selects_the_leaf_row() {
    let token = Token(7);
    let mut workflow = Workflow::from_state(State::Ready { token }, Facts { may_cancel: false });

    let rejected = workflow.process(Event::Cancel);

    assert_eq!(
        rejected,
        Err(ProcessError::Rejected(Rejection::CancellationBlocked))
    );
    assert_eq!(workflow.state(), State::Ready { token });

    workflow.context_mut().may_cancel = true;
    let applied = workflow
        .process(Event::Cancel)
        .unwrap_or_else(|failure| panic!("unexpected failure: {}", failure.to_string()));

    assert_eq!(applied.transition, Transition::CancelledReady);
    assert_eq!(applied.effect, Some(Effect::Release(token)));
    assert_eq!(workflow.state(), State::Failed);
}

#[test]
fn leaf_transition_can_leave_compound_state() {
    let token = Token(7);
    let mut workflow = Workflow::from_state(State::Ready { token }, Facts { may_cancel: true });

    let applied = workflow
        .process(Event::Finish)
        .unwrap_or_else(|failure| panic!("unexpected failure: {}", failure.to_string()));

    assert_eq!(applied.transition, Transition::Finished);
    assert_eq!(workflow.state(), State::Done);
    assert!(!workflow.is_in(StateId::Flow));
}

#[test]
fn only_leaves_with_their_payload_are_admitted() {
    let table = table();
    assert!(table.admits(&plain(State::Ready { token: Token(1) })));
    assert!(!table.admits(&rfsm::State { id: 3, payload: Vec::<Token>::new() }));
    assert!(!table.admits(&rfsm::State { id: 1, payload: Vec::<Token>::new() }));
    assert!(!table.admits(&rfsm::State { id: 7, payload: Vec::<Token>::new() }));
    assert!(table.accepts(&occurred(Event::Accept { token: Token(1) })));
    assert!(!table.accepts(&rfsm::Event { id: 1, payload: Vec::<Token>::new() }));
    assert!(!table.accepts(&rfsm::Event { id: 4, payload: Vec::<Token>::new() }));
}
