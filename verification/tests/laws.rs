use std::cell::RefCell;
use std::rc::Rc;

use rfsm::{
    code_stream, expand, expand_code, flatten_states, parse_str, validate, Applied, Context, Machine,
    MachineDef, ProcessError, RowOutcome, Step, Table,
};

const ORDERS: &str = r#"
    name: Orders,
    context: Facts,
    effect: Effect,
    states: {
        *Draft { *Empty, Filled { items: Items } },
        Payment { *Entry { *Authorizing }, Authorized { charge: Charge, items: Items } },
        Cancelled,
    },
    events: { Fill { items: Items }, Pay, Authorize { charge: Charge }, Cancel, Touch },
    transitions: {
        _ + Touch [quiet] => reject Quiet,
        Touched: _ + Touch => _,
        Filled: Draft + Fill { items } => Filled { items },
        Payed: Draft + Pay [ready] / note => Payment,
        Empty + Pay => reject Nothing,
        Authorized: Authorizing + Authorize { charge } [known(charge)]
            / record(charge) => Authorized { items: charge, charge },
        Restarted: Payment + Authorize { .. } => Payment,
        Cancelled: Authorized { items, .. } + Cancel [allowed(items)] / release(items) => Cancelled,
        Payment + Cancel => reject Blocked,
        _ + _ => reject Nothing,
    }
"#;

struct Facts {
    yes: Vec<&'static str>,
}

impl Context<u64, (String, Vec<u64>)> for Facts {
    fn guard(&self, name: &str, arguments: &Vec<&u64>) -> bool {
        assert_eq!(arguments.len(), usize::from(name == "known" || name == "allowed"));
        self.yes.iter().any(|known| *known == name)
    }

    fn effect(&self, name: &str, arguments: &Vec<&u64>) -> (String, Vec<u64>) {
        (name.to_owned(), arguments.iter().map(|value| **value).collect())
    }
}

type Result<T> = core::result::Result<T, ProcessError<usize, rfsm::Event<u64>, usize>>;

type Outcome = Result<Applied<rfsm::State<u64>, usize, (String, Vec<u64>)>>;

fn definition() -> MachineDef {
    parse_str(ORDERS)
        .unwrap_or_else(|error| panic!("unexpected parse failure: {}", error.message()))
}

fn state_id(table: &Table<'_>, name: &str) -> usize {
    table
        .states()
        .iter()
        .position(|state| state.node.variant.name.unraw() == name)
        .unwrap_or_else(|| panic!("there is no state {name}"))
}

fn event(table: &Table<'_>, name: &str, payload: Vec<u64>) -> rfsm::Event<u64> {
    let id = table
        .definition()
        .events
        .iter()
        .position(|event| event.name.unraw() == name)
        .unwrap_or_else(|| panic!("there is no event {name}"));
    rfsm::Event { id, payload }
}

fn leaves(table: &Table<'_>) -> Vec<usize> {
    (0..table.states().len()).filter(|id| !table.states()[*id].node.is_compound()).collect()
}

fn names(idents: &[rfsm::Ident]) -> Vec<&str> {
    idents.iter().map(|ident| ident.unraw()).collect()
}

#[test]
fn every_event_is_handled_in_every_leaf() {
    let definition = definition();
    let table = Table::new(&definition).unwrap_or_else(|_| panic!("the definition is valid"));
    let all = vec![true; definition.rows.len()];
    for leaf in leaves(&table) {
        for event in 0..definition.events.len() {
            assert!(table.select(leaf, event, &all).is_some());
            assert_ne!(table.first(leaf, event), Step::Unhandled);
        }
    }
}

#[test]
fn every_row_can_be_selected() {
    let definition = definition();
    let table = Table::new(&definition).unwrap_or_else(|_| panic!("the definition is valid"));
    for row in 0..definition.rows.len() {
        let mut only = vec![false; definition.rows.len()];
        only[row] = true;
        let found = leaves(&table).into_iter().any(|leaf| {
            (0..definition.events.len()).any(|event| table.select(leaf, event, &only) == Some(row))
        });
        assert!(found, "row {row} is selected nowhere");
    }
}

#[test]
fn rows_are_tried_from_the_leaf_up() {
    let definition = definition();
    let table = Table::new(&definition).unwrap_or_else(|_| panic!("the definition is valid"));
    let authorizing = state_id(&table, "Authorizing");
    let authorize = event(&table, "Authorize", vec![1]).id;

    assert_eq!(table.first(authorizing, authorize), Step::Ask(5));
    assert_eq!(table.refused(authorizing, authorize, 5), Step::Take(6));
    assert_eq!(table.refused(authorizing, authorize, 6), Step::Take(9));

    let touch = event(&table, "Touch", vec![]).id;
    for leaf in leaves(&table) {
        assert_eq!(table.first(leaf, touch), Step::Ask(0));
        assert_eq!(table.refused(leaf, touch, 0), Step::Take(1));
    }
}

#[test]
fn a_state_is_inside_itself_and_its_ancestors_only() {
    let definition = definition();
    let table = Table::new(&definition).unwrap_or_else(|_| panic!("the definition is valid"));
    let inside = |state: &str, container: &str| {
        table.is_in(state_id(&table, state), state_id(&table, container))
    };
    assert!(inside("Authorizing", "Authorizing"));
    assert!(inside("Authorizing", "Entry"));
    assert!(inside("Authorizing", "Payment"));
    assert!(!inside("Authorizing", "Draft"));
    assert!(!inside("Authorized", "Entry"));
    assert!(!inside("Payment", "Entry"));
    assert!(inside("Cancelled", "Cancelled"));
}

#[test]
fn parents_are_listed_before_their_children() {
    let definition = definition();
    let states = flatten_states(&definition.states);
    let listed: Vec<(&str, Option<&str>)> = states
        .iter()
        .map(|state| (state.node.variant.name.unraw(), state.parent.map(|parent| parent.unraw())))
        .collect();
    assert_eq!(
        listed,
        vec![
            ("Draft", None),
            ("Empty", Some("Draft")),
            ("Filled", Some("Draft")),
            ("Payment", None),
            ("Entry", Some("Payment")),
            ("Authorizing", Some("Entry")),
            ("Authorized", Some("Payment")),
            ("Cancelled", None),
        ]
    );
}

#[test]
fn a_machine_starts_in_the_initial_leaf_of_its_root() {
    let definition = definition();
    let table = Table::new(&definition).unwrap_or_else(|_| panic!("the definition is valid"));
    let machine: Machine<'_, '_, u64, Facts> = Machine::new(&table, Facts { yes: vec![] });
    assert_eq!(table.initial(), state_id(&table, "Empty"));
    assert_eq!(machine.state(), &rfsm::State { id: state_id(&table, "Empty"), payload: vec![] });
}

#[test]
fn targets_are_filled_from_the_bindings_of_the_row() {
    let definition = definition();
    let table = Table::new(&definition).unwrap_or_else(|_| panic!("the definition is valid"));
    let start = rfsm::State { id: state_id(&table, "Authorizing"), payload: vec![] };
    let mut machine = Machine::from_state(&table, start.clone(), Facts { yes: vec!["known"] });

    let outcome: Outcome = machine.process(event(&table, "Authorize", vec![7]));

    let applied = outcome.unwrap_or_else(|failure| panic!("{}", failure.to_string()));
    assert_eq!(names(table.transitions())[applied.transition], "Authorized");
    assert_eq!(applied.from, start);
    assert_eq!(
        applied.to,
        rfsm::State { id: state_id(&table, "Authorized"), payload: vec![7, 7] }
    );
    assert_eq!(applied.effect, Some(("record".to_owned(), vec![7])));
    assert_eq!(machine.state(), &applied.to);

    machine.context_mut().yes.push("allowed");
    let outcome: Outcome = machine.process(event(&table, "Cancel", vec![]));
    let applied = outcome.unwrap_or_else(|failure| panic!("{}", failure.to_string()));
    assert_eq!(applied.effect, Some(("release".to_owned(), vec![7])));
    assert_eq!(machine.state().id, state_id(&table, "Cancelled"));
}

#[test]
fn entering_a_compound_state_ends_in_its_initial_leaf() {
    let definition = definition();
    let table = Table::new(&definition).unwrap_or_else(|_| panic!("the definition is valid"));
    let filled = rfsm::State { id: state_id(&table, "Filled"), payload: vec![3] };
    let mut machine = Machine::from_state(&table, filled, Facts { yes: vec!["ready"] });

    let outcome: Outcome = machine.process(event(&table, "Pay", vec![]));

    let applied = outcome.unwrap_or_else(|failure| panic!("{}", failure.to_string()));
    assert_eq!(applied.to, rfsm::State { id: state_id(&table, "Authorizing"), payload: vec![] });
    assert!(machine.is_in(state_id(&table, "Payment")));
}

#[test]
fn staying_keeps_the_state_with_its_payload() {
    let definition = definition();
    let table = Table::new(&definition).unwrap_or_else(|_| panic!("the definition is valid"));
    let filled = rfsm::State { id: state_id(&table, "Filled"), payload: vec![3] };
    let mut machine = Machine::from_state(&table, filled.clone(), Facts { yes: vec![] });

    let outcome: Outcome = machine.process(event(&table, "Touch", vec![]));

    let applied = outcome.unwrap_or_else(|failure| panic!("{}", failure.to_string()));
    assert_eq!(names(table.transitions())[applied.transition], "Touched");
    assert_eq!(applied.to, filled);
    assert_eq!(applied.effect, None);
    assert_eq!(machine.state(), &filled);
}

#[test]
fn rejections_leave_the_state_as_it_is() {
    let definition = definition();
    let table = Table::new(&definition).unwrap_or_else(|_| panic!("the definition is valid"));
    let state = rfsm::State { id: state_id(&table, "Authorized"), payload: vec![1, 2] };
    let mut machine = Machine::from_state(&table, state.clone(), Facts { yes: vec![] });

    let outcome: Outcome = machine.process(event(&table, "Cancel", vec![]));

    match outcome {
        Err(ProcessError::Rejected(reason)) => {
            assert_eq!(names(table.rejections())[reason], "Blocked");
        }
        _ => panic!("the event is rejected"),
    }
    assert_eq!(machine.state(), &state);
    assert_eq!(machine.state_id(), state.id);
}

#[test]
fn labels_are_those_of_the_accepting_rows_and_reasons_are_collected_once() {
    let definition = definition();
    let table = Table::new(&definition).unwrap_or_else(|_| panic!("the definition is valid"));
    assert_eq!(
        names(table.transitions()),
        vec!["Touched", "Filled", "Payed", "Authorized", "Restarted", "Cancelled"]
    );
    assert_eq!(names(table.rejections()), vec!["Quiet", "Nothing", "Blocked"]);
}

#[test]
fn rows_are_cloned_whole() {
    let definition = definition();
    let row = definition.rows[7].clone();
    let guard = row.guard.unwrap_or_else(|| panic!("there is a guard"));
    assert_eq!(names(&guard.arguments), vec!["items"]);
    match row.outcome {
        RowOutcome::Transition { transition, target: Some(target) } => {
            assert_eq!(transition.unraw(), "Cancelled");
            assert_eq!(target.name.unraw(), "Cancelled");
        }
        _ => panic!("the row has a target"),
    }
    let tree = definition.states[1].clone();
    assert_eq!(tree.children[0].children[0].variant.name.unraw(), "Authorizing");
    assert_eq!(tree.children[1].variant.fields.len(), 2);
}

#[test]
fn every_valid_definition_expands() {
    let definition = definition();
    let validated = validate(&definition).unwrap_or_else(|_| panic!("the definition is valid"));
    assert!(!validated.is_async);
    let stream = expand(&definition, &validated)
        .unwrap_or_else(|error| panic!("unexpected failure: {}", error.message()));
    assert!(stream.to_string().contains("OrdersContext"));
    let code = expand_code(&definition, &validated)
        .unwrap_or_else(|error| panic!("unexpected failure: {}", error.message()));
    assert_eq!(code_stream(&code).to_string(), stream.to_string());
}

#[test]
fn what_was_validated_for_another_definition_can_lack_names() {
    let definition = definition();
    let validated = validate(&definition).unwrap_or_else(|_| panic!("the definition is valid"));
    let failure = |text: &str| {
        let other = parse_str(text)
            .unwrap_or_else(|error| panic!("unexpected parse failure: {}", error.message()));
        match expand(&other, &validated) {
            Ok(_) => panic!("expected failure"),
            Err(error) => error.message().to_owned(),
        }
    };
    let whole = |states: &str, rows: &str| {
        failure(&format!(
            "name: M, states: {{ {states} }}, events: {{ Go }}, transitions: {{ {rows} }}"
        ))
    };
    assert_eq!(whole("A", ""), "missing root initial state");
    assert_eq!(whole("*A { B }", ""), "validated compound initial state disappeared");
    assert_eq!(whole("*A", "T: A + Stop => A"), "validated event disappeared");
    assert_eq!(whole("*A", "T: A + Go => B"), "validated target state disappeared");
    assert_eq!(
        whole("*A, B { x: u8 }", "T: A + Go => B { y }"),
        "validated target field disappeared"
    );
}

#[test]
fn each_row_is_asked_about_once_and_in_order() {
    let source = definition();
    let table = Table::new(&source)
        .unwrap_or_else(|error| panic!("unexpected refusal: {}", error.message()));
    for leaf in leaves(&table) {
        for event in 0..source.events.len() {
            let mut gone_through: Vec<usize> = Vec::new();
            let mut step = table.first(leaf, event);
            while let Step::Ask(row) | Step::Take(row) = step {
                assert!(!gone_through.contains(&row));
                gone_through.push(row);
                step = table.refused(leaf, event, row);
            }
            assert_eq!(gone_through.last(), Some(&9));
        }
    }
}

struct Asked {
    names: Rc<RefCell<Vec<String>>>,
}

impl Context<u64, ()> for Asked {
    fn guard(&self, name: &str, _arguments: &Vec<&u64>) -> bool {
        self.names.borrow_mut().push(name.to_owned());
        false
    }

    fn effect(&self, _name: &str, _arguments: &Vec<&u64>) {
        panic!("no accepted row has an effect")
    }
}

#[test]
fn guards_are_asked_once_in_order() {
    let source = parse_str(
        "name: M, context: C, states: { *Outer { *Inner } }, events: { Go }, transitions: { \
             _ + Go [any] => reject Any, \
             Outer + _ [outer] => reject Outer, \
             Inner + Go [first] => reject First, \
             Inner + Go [second] => reject Second, \
             _ + _ => reject Last \
         }",
    )
    .unwrap_or_else(|error| panic!("unexpected parse failure: {}", error.message()));
    let table = Table::new(&source)
        .unwrap_or_else(|error| panic!("unexpected refusal: {}", error.message()));
    let names = Rc::new(RefCell::new(Vec::new()));
    let mut machine = Machine::new(&table, Asked { names: names.clone() });
    let result = machine.process(event(&table, "Go", Vec::new()));
    assert!(matches!(result, Err(ProcessError::Rejected(_))));
    assert_eq!(*names.borrow(), ["first", "second", "outer", "any"]);
}

#[test]
fn inputs_are_refused_or_expanded() {
    let refusals = |text: &str| {
        let input: proc_macro2::TokenStream =
            text.parse().unwrap_or_else(|_| panic!("the text is made of tokens"));
        rfsm::machine(input).to_string().matches("compile_error").count()
    };
    assert_eq!(refusals("name: M, states: { *A }, events: { Go }"), 1);
    assert_eq!(refusals("name: M, states: { A, B }, events: { Go }, transitions: { }"), 2);
    assert_eq!(refusals(ORDERS), 0);
}
