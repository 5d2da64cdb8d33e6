use rfsm::{parse_str, Context, Machine, MachineDef, ProcessError, Step, Table};

const DEEP: &str = r#"
    name: Deep,
    context: Facts,
    states: {
        *Outside,
        Outer {
            *Inner {
                *A,
                B,
            },
            C,
        },
        Done,
    },
    events: { Enter, Go, Stop, Leave },
    transitions: {
        Entered: Outside + Enter => Outer,
        InnerMoved: Inner + Go [allow_inner] => B,
        OuterMoved: Outer + Go => C,
        A + Stop => reject ChildStopped,
        InnerStopped: Inner + Stop => C,
        Left: A + Leave => Done,
        _ + _ => reject Fallback,
    }
"#;

struct Facts {
    allow_inner: bool,
}

impl Context<u8, ()> for Facts {
    fn guard(&self, name: &str, _arguments: &Vec<&u8>) -> bool {
        assert_eq!(name, "allow_inner");
        self.allow_inner
    }

    fn effect(&self, _name: &str, _arguments: &Vec<&u8>) {}
}

#[derive(Clone, Copy, Debug, PartialEq)]
enum State {
    Outside,
    A,
    B,
    C,
    Done,
}

#[derive(Clone, Copy, Debug, PartialEq)]
enum StateId {
    Outside,
    Outer,
    Inner,
    A,
    B,
    C,
    Done,
}

#[derive(Clone, Copy, Debug, PartialEq)]
enum Event {
    Enter,
    Go,
    Stop,
    Leave,
}

#[derive(Clone, Copy, Debug, PartialEq)]
enum Transition {
    Entered,
    InnerMoved,
    OuterMoved,
    InnerStopped,
    Left,
}

#[derive(Clone, Copy, Debug, PartialEq)]
enum Rejection {
    ChildStopped,
    Fallback,
}

const STATE_IDS: [StateId; 7] = [
    StateId::Outside,
    StateId::Outer,
    StateId::Inner,
    StateId::A,
    StateId::B,
    StateId::C,
    StateId::Done,
];

const STATES: [State; 7] = [
    State::Outside,
    State::Outside,
    State::Outside,
    State::A,
    State::B,
    State::C,
    State::Done,
];

const EVENTS: [Event; 4] = [Event::Enter, Event::Go, Event::Stop, Event::Leave];

const TRANSITIONS: [Transition; 5] = [
    Transition::Entered,
    Transition::InnerMoved,
    Transition::OuterMoved,
    Transition::InnerStopped,
    Transition::Left,
];

const REJECTIONS: [Rejection; 2] = [Rejection::ChildStopped, Rejection::Fallback];

type Failure = ProcessError<StateId, Event, Rejection>;

#[derive(Debug, PartialEq)]
struct Outcome {
    transition: Transition,
    to: State,
}

struct Deep {
    machine: Machine<'static, 'static, u8, Facts>,
}

fn table() -> &'static Table<'static> {
    let definition: MachineDef = parse_str(DEEP)
        .unwrap_or_else(|error| panic!("unexpected parse failure: {}", error.message()));
    let definition: &'static MachineDef = Box::leak(Box::new(definition));
    let table = Table::new(definition)
        .unwrap_or_else(|error| panic!("unexpected validation failure: {}", error.message()));
    Box::leak(Box::new(table))
}

fn state_position(state: StateId) -> usize {
    STATE_IDS.iter().position(|known| *known == state).unwrap_or(0)
}

impl Deep {
    fn new(context: Facts) -> Self {
        Deep { machine: Machine::new(table(), context) }
    }

    fn from_state(state: StateId, context: Facts) -> Self {
        let table = table();
        let state = rfsm::State { id: state_position(state), payload: Vec::new() };
        assert!(table.admits(&state));
        Deep { machine: Machine::from_state(table, state, context) }
    }

    fn state(&self) -> &State {
        &STATES[self.machine.state().id]
    }

    fn is_in(&self, state: StateId) -> bool {
        self.machine.is_in(state_position(state))
    }

    fn process(&mut self, event: Event) -> Result<Outcome, Failure> {
        let id = EVENTS.iter().position(|known| *known == event).unwrap_or(0);
        match self.machine.process(rfsm::Event { id, payload: Vec::new() }) {
            Ok(applied) => Ok(Outcome {
                transition: TRANSITIONS[applied.transition],
                to: STATES[applied.to.id],
            }),
            Err(ProcessError::Unhandled { state, .. }) => {
                Err(ProcessError::Unhandled { state: STATE_IDS[state], event })
            }
            Err(ProcessError::Rejected(reason)) => {
                Err(ProcessError::Rejected(REJECTIONS[reason]))
            }
        }
    }
}

#[test]
fn recursive_entry_and_three_level_precedence_are_explicit() {
    let mut entered = Deep::new(Facts { allow_inner: false });
    let applied = entered
        .process(Event::Enter)
        .unwrap_or_else(|failure| panic!("unexpected failure: {}", failure.to_string()));
    assert_eq!(applied.to, State::A);
    assert!(entered.is_in(StateId::Outer));
    assert!(entered.is_in(StateId::Inner));
    assert!(entered.is_in(StateId::A));

    let moved = entered
        .process(Event::Go)
        .unwrap_or_else(|failure| panic!("unexpected failure: {}", failure.to_string()));
    assert_eq!(moved.transition, Transition::OuterMoved);
    assert_eq!(entered.state(), &State::C);

    let mut stopped = Deep::from_state(StateId::A, Facts { allow_inner: true });
    assert_eq!(
        stopped.process(Event::Stop),
        Err(ProcessError::Rejected(Rejection::ChildStopped))
    );
    assert_eq!(stopped.state(), &State::A);

    let mut middle = Deep::from_state(StateId::B, Facts { allow_inner: true });
    let applied = middle
        .process(Event::Stop)
        .unwrap_or_else(|failure| panic!("unexpected failure: {}", failure.to_string()));
    assert_eq!(applied.transition, Transition::InnerStopped);
    assert_eq!(middle.state(), &State::C);

    let mut left = Deep::from_state(StateId::A, Facts { allow_inner: true });
    let applied = left
        .process(Event::Leave)
        .unwrap_or_else(|failure| panic!("unexpected failure: {}", failure.to_string()));
    assert_eq!(applied.transition, Transition::Left);
    assert_eq!(left.state(), &State::Done);
    assert!(!left.is_in(StateId::Outer));
    assert!(!left.is_in(StateId::Inner));
}

#[test]
fn rows_are_asked_from_the_leaf_up_and_those_for_any_source_last() {
    let table = table();
    let leaf = state_position(StateId::A);
    let go: usize = 1;

    assert_eq!(table.first(leaf, go), Step::Ask(1));
    assert_eq!(table.refused(leaf, go, 1), Step::Take(2));
    assert_eq!(table.refused(leaf, go, 2), Step::Take(6));
    assert_eq!(table.refused(leaf, go, 6), Step::Unhandled);
    assert_eq!(table.first(state_position(StateId::Done), go), Step::Take(6));
}

#[test]
fn the_answers_of_the_guards_decide_which_row_is_selected() {
    let table = table();
    let leaf = state_position(StateId::A);
    let mut verdicts = vec![false; 7];

    assert_eq!(table.select(leaf, 1, &verdicts), Some(2));
    verdicts[1] = true;
    assert_eq!(table.select(leaf, 1, &verdicts), Some(1));
    assert_eq!(table.select(leaf, 2, &verdicts), Some(3));
}

#[test]
fn only_the_first_rejection_of_a_chain_is_given() {
    let mut deep = Deep::from_state(StateId::C, Facts { allow_inner: true });
    assert_eq!(
        deep.process(Event::Stop),
        Err(ProcessError::Rejected(Rejection::Fallback))
    );
    assert_eq!(deep.state(), &State::C);
}
