use rfsm::{parse_str, Applied, Context, MachineDef, Plan, Table};

const APPROVAL: &str = r#"
    name: Approval,
    context: Facts,
    effect: Effect,
    states: { *Pending, Approved { reference: String } },
    events: { Approve { reference: String } },
    transitions: {
        Approved: Pending + Approve { reference } / audit(reference)
            => Approved { reference },
        Approved { .. } + Approve { .. } => reject Invalid,
    }
"#;

#[derive(Clone, Debug, PartialEq)]
enum State {
    Pending,
    Approved { reference: String },
}

#[derive(Clone, Debug, Eq, PartialEq)]
enum Effect {
    Audit(String),
}

#[derive(Clone, Copy, Debug, PartialEq)]
enum Transition {
    Approved,
}

struct Facts;

impl Context<String, Effect> for Facts {
    fn guard(&self, _name: &str, _arguments: &Vec<&String>) -> bool {
        false
    }

    fn effect(&self, name: &str, arguments: &Vec<&String>) -> Effect {
        assert_eq!(name, "audit");
        Effect::Audit(arguments[0].clone())
    }
}

fn restored(state: &rfsm::State<String>) -> State {
    match state.id {
        0 => State::Pending,
        _ => State::Approved { reference: state.payload[0].clone() },
    }
}

#[test]
fn evaluation_leaves_durable_state_unchanged_until_caller_confirmation() {
    let definition: MachineDef = parse_str(APPROVAL)
        .unwrap_or_else(|error| panic!("unexpected parse failure: {}", error.message()));
    let table = Table::new(&definition)
        .unwrap_or_else(|error| panic!("unexpected validation failure: {}", error.message()));
    let row_state: rfsm::State<String> = rfsm::State { id: 0, payload: Vec::new() };
    let event = rfsm::Event { id: 0, payload: vec!["approval-42".to_owned()] };
    assert!(table.admits(&row_state) && table.accepts(&event));

    let plan: Plan<rfsm::State<String>, usize, Effect> = table
        .evaluate(&row_state, &event, &Facts)
        .unwrap_or_else(|failure| panic!("unexpected failure: {}", failure.to_string()));

    assert_eq!(restored(&row_state), State::Pending);
    assert_eq!(
        restored(&plan.to),
        State::Approved {
            reference: "approval-42".to_owned()
        }
    );
    assert_eq!(plan.effect, Some(Effect::Audit("approval-42".to_owned())));

    let applied: Applied<rfsm::State<String>, usize, Effect> = plan.confirm();
    assert_eq!([Transition::Approved][applied.transition], Transition::Approved);
    assert_eq!(table.transitions()[applied.transition].unraw(), "Approved");
}
