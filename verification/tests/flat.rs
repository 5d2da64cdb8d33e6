use rfsm::{parse_str, Machine, MachineDef, NoContext, ProcessError, Table};

const DOOR: &str = r#"
    name: Door,
    states: { *Closed, Open },
    events: { Open, Close, Knock },
    transitions: {
        _ + _ => reject InvalidEvent,
        Knocked: Closed + Knock => _,
        Opened: Closed + Open => Open,
        ClosedAgain: Open + Close => Closed,
        Open + Open => reject AlreadyOpen,
        Closed + Close => reject AlreadyClosed,
    }
"#;

#[derive(Clone, Copy, Debug, PartialEq)]
enum State {
    Closed,
    Open,
}

#[derive(Clone, Copy, Debug, PartialEq)]
enum StateId {
    Closed,
    Open,
}

#[derive(Clone, Copy, Debug, PartialEq)]
enum Event {
    Open,
    Close,
    Knock,
}

#[derive(Clone, Copy, Debug, PartialEq)]
enum Transition {
    Knocked,
    Opened,
    ClosedAgain,
}

#[derive(Clone, Copy, Debug, PartialEq)]
enum Rejection {
    InvalidEvent,
    AlreadyOpen,
    AlreadyClosed,
}

const STATES: [State; 2] = [State::Closed, State::Open];
const STATE_IDS: [StateId; 2] = [StateId::Closed, StateId::Open];
const EVENTS: [Event; 3] = [Event::Open, Event::Close, Event::Knock];
const TRANSITIONS: [Transition; 3] =
    [Transition::Knocked, Transition::Opened, Transition::ClosedAgain];
const REJECTIONS: [Rejection; 3] =
    [Rejection::InvalidEvent, Rejection::AlreadyOpen, Rejection::AlreadyClosed];

type Failure = ProcessError<StateId, Event, Rejection>;

#[derive(Debug, PartialEq)]
struct Outcome {
    transition: Transition,
    from: State,
    to: State,
    effect: Option<()>,
}

struct Door {
    machine: Machine<'static, 'static, u8, NoContext>,
}

fn table() -> &'static Table<'static> {
    let definition: MachineDef = parse_str(DOOR)
        .unwrap_or_else(|error| panic!("unexpected parse failure: {}", error.message()));
    let definition: &'static MachineDef = Box::leak(Box::new(definition));
    let table = Table::new(definition)
        .unwrap_or_else(|error| panic!("unexpected validation failure: {}", error.message()));
    Box::leak(Box::new(table))
}

fn plain(state: State) -> rfsm::State<u8> {
    let id = STATES.iter().position(|known| *known == state).unwrap_or(0);
    rfsm::State { id, payload: Vec::new() }
}

fn occurred(event: Event) -> rfsm::Event<u8> {
    let id = EVENTS.iter().position(|known| *known == event).unwrap_or(0);
    rfsm::Event { id, payload: Vec::new() }
}

fn failure(error: ProcessError<usize, rfsm::Event<u8>, usize>) -> Failure {
    match error {
        ProcessError::Unhandled { state, event } => {
            ProcessError::Unhandled { state: STATE_IDS[state], event: EVENTS[event.id] }
        }
        ProcessError::Rejected(reason) => ProcessError::Rejected(REJECTIONS[reason]),
    }
}

impl Door {
    fn new() -> Self {
        Door { machine: Machine::new(table(), NoContext) }
    }

    fn from_state(state: State) -> Self {
        let table = table();
        assert!(table.admits(&plain(state)));
        Door { machine: Machine::from_state(table, plain(state), NoContext) }
    }

    fn state(&self) -> &State {
        &STATES[self.machine.state().id]
    }

    fn state_id(&self) -> StateId {
        STATE_IDS[self.machine.state_id()]
    }

    fn process(&mut self, event: Event) -> Result<Outcome, Failure> {
        match self.machine.process(occurred(event)) {
            Ok(applied) => Ok(Outcome {
                transition: TRANSITIONS[applied.transition],
                from: STATES[applied.from.id],
                to: STATES[applied.to.id],
                effect: applied.effect,
            }),
            Err(error) => Err(failure(error)),
        }
    }

    fn evaluate(state: &State, event: &Event) -> Result<Outcome, Failure> {
        match table().evaluate(&plain(*state), &occurred(*event), &NoContext) {
            Ok(plan) => Ok(Outcome {
                transition: TRANSITIONS[plan.transition],
                from: STATES[plan.from.id],
                to: STATES[plan.to.id],
                effect: plan.effect,
            }),
            Err(error) => Err(failure(error)),
        }
    }
}

#[test]
fn accepted_transition_commits_and_reports_business_identity() {
    let mut door = Door::new();

    let knocked = door
        .process(Event::Knock)
        .unwrap_or_else(|failure| panic!("unexpected failure: {}", failure.to_string()));
    assert_eq!(knocked.transition, Transition::Knocked);
    assert_eq!(knocked.from, State::Closed);
    assert_eq!(knocked.to, State::Closed);
    assert_eq!(door.state(), &State::Closed);

    let applied = door
        .process(Event::Open)
        .unwrap_or_else(|failure| panic!("unexpected failure: {}", failure.to_string()));

    assert_eq!(door.state(), &State::Open);
    assert_eq!(door.state_id(), StateId::Open);
    assert_eq!(applied.transition, Transition::Opened);
    assert_eq!(applied.from, State::Closed);
    assert_eq!(applied.to, State::Open);
    assert_eq!(applied.effect, None);

    let closed = door
        .process(Event::Close)
        .unwrap_or_else(|failure| panic!("unexpected failure: {}", failure.to_string()));
    assert_eq!(closed.transition, Transition::ClosedAgain);
    assert_eq!(door.state(), &State::Closed);

    let plan = Door::evaluate(&State::Closed, &Event::Open)
        .unwrap_or_else(|failure| panic!("unexpected failure: {}", failure.to_string()));
    assert_eq!(plan.transition, Transition::Opened);
    assert_eq!(plan.to, State::Open);
}

#[test]
fn explicit_rejection_preserves_current_state() {
    let mut door = Door::from_state(State::Open);

    let rejected = door.process(Event::Open);

    assert_eq!(
        rejected,
        Err(ProcessError::Rejected(Rejection::AlreadyOpen))
    );
    assert_eq!(door.state(), &State::Open);
    assert_eq!(
        rejected.unwrap_err().to_string(),
        "event was rejected: AlreadyOpen"
    );
}

#[test]
fn a_row_for_any_source_is_tried_last_wherever_it_stands() {
    let mut door = Door::from_state(State::Open);

    assert_eq!(
        door.process(Event::Knock),
        Err(ProcessError::Rejected(Rejection::InvalidEvent))
    );
    assert_eq!(door.process(Event::Close).map(|applied| applied.to), Ok(State::Closed));
    assert_eq!(
        door.process(Event::Close),
        Err(ProcessError::Rejected(Rejection::AlreadyClosed))
    );
}
