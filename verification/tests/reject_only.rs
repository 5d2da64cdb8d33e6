use rfsm::{parse_str, Applied, Machine, MachineDef, NoContext, ProcessError, Table};

const REFUSAL_ONLY: &str = r#"
    name: RefusalOnly,
    states: { *Locked },
    events: { Try },
    transitions: {
        Locked + Try => reject Denied,
    }
"#;

enum Transition {}

#[derive(Clone, Copy, Debug, PartialEq)]
enum State {
    Locked,
}

#[derive(Clone, Copy, Debug, PartialEq)]
enum Rejection {
    Denied,
}

#[test]
fn rejection_only_machine_has_no_committable_transition() {
    let _uninhabited: fn(Transition) -> u8 = |transition| match transition {};
    let definition: MachineDef = parse_str(REFUSAL_ONLY)
        .unwrap_or_else(|error| panic!("unexpected parse failure: {}", error.message()));
    let table = Table::new(&definition)
        .unwrap_or_else(|error| panic!("unexpected validation failure: {}", error.message()));
    assert!(table.transitions().is_empty());
    let mut machine: Machine<'_, '_, u8, NoContext> = Machine::new(&table, NoContext);
    let rejections = [Rejection::Denied];
    let states = [State::Locked];

    let result: Result<Applied<rfsm::State<u8>, usize, ()>, _> =
        machine.process(rfsm::Event { id: 0, payload: Vec::new() });
    let rejected = match result {
        Err(ProcessError::Rejected(reason)) => Some(rejections[reason]),
        _ => None,
    };
    assert_eq!(rejected, Some(Rejection::Denied));
    assert_eq!(table.rejections()[0].unraw(), "Denied");
    assert_eq!(states[machine.state().id], State::Locked);
}
