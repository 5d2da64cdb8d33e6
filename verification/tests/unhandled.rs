use rfsm::{parse_str, Context, Machine, MachineDef, ProcessError, Table};

const GUARDED: &str = r#"
    name: Guarded,
    context: Facts,
    states: { *Waiting },
    events: { Try },
    transitions: {
        Accepted: Waiting + Try [allowed] => Waiting,
    }
"#;

#[derive(Clone, Copy, Debug, PartialEq)]
enum State {
    Waiting,
}

#[derive(Clone, Copy, Debug, PartialEq)]
enum StateId {
    Waiting,
}

#[derive(Clone, Copy, Debug, PartialEq)]
enum Event {
    Try,
}

struct Facts;

impl Context<u8, ()> for Facts {
    fn guard(&self, name: &str, arguments: &Vec<&u8>) -> bool {
        assert_eq!(name, "allowed");
        assert!(arguments.is_empty());
        false
    }

    fn effect(&self, _name: &str, _arguments: &Vec<&u8>) {}
}

#[test]
fn failed_guard_without_fallback_is_unhandled_and_preserves_state() {
    let definition: MachineDef = parse_str(GUARDED)
        .unwrap_or_else(|error| panic!("unexpected parse failure: {}", error.message()));
    let table = Table::new(&definition)
        .unwrap_or_else(|error| panic!("unexpected validation failure: {}", error.message()));
    let mut machine: Machine<'_, '_, u8, Facts> = Machine::new(&table, Facts);

    let unhandled = match machine.process(rfsm::Event { id: 0, payload: Vec::new() }) {
        Ok(_) => None,
        Err(ProcessError::Unhandled { state, event }) => Some(ProcessError::Unhandled {
            state: [StateId::Waiting][state],
            event: [Event::Try][event.id],
        }),
        Err(ProcessError::Rejected(reason)) => Some(ProcessError::Rejected(reason)),
    };

    assert_eq!(
        unhandled,
        Some(ProcessError::Unhandled {
            state: StateId::Waiting,
            event: Event::Try,
        })
    );
    assert_eq!([State::Waiting][machine.state().id], State::Waiting);
    assert_eq!(
        unhandled.map(|failure| failure.to_string()),
        Some("event Try was not handled in state Waiting".to_owned())
    );
}
