use rfsm::{parse_str, validate, Error, MachineDef};

fn texts(error: &Error) -> Vec<String> {
    let mut found = Vec::new();
    while let Some(message) = error.get(found.len()) {
        found.push(message.text.clone());
    }
    assert_eq!(found.len(), error.len());
    assert_eq!(found[0], error.message());
    found
}

fn unreadable(text: &str) -> String {
    match parse_str(text) {
        Ok(_) => panic!("expected failure"),
        Err(error) => {
            let found = texts(&error);
            assert_eq!(found.len(), 1);
            found[0].clone()
        }
    }
}

fn definition(text: &str) -> MachineDef {
    parse_str(text)
        .unwrap_or_else(|error| panic!("unexpected parse failure: {}", error.message()))
}

fn refused(text: &str) -> Vec<String> {
    match validate(&definition(text)) {
        Ok(_) => panic!("expected failure"),
        Err(error) => texts(&error),
    }
}

fn table(rows: &str) -> String {
    format!(
        "name: M, context: (), effect: (), states: {{ *A, B {{ x: u8, y: u16 }}, \
         C {{ *D, E {{ x: u8 }} }} }}, events: {{ Go, Put {{ x: u8, y: u16 }} }}, \
         transitions: {{ {rows} _ + _ => reject No }}"
    )
}

#[test]
fn text_that_is_not_made_of_tokens_cannot_be_read() {
    assert_eq!(unreadable("name: \""), "cannot parse string into token stream");
}

#[test]
fn keys_are_known_given_once_and_complete() {
    assert_eq!(
        unreadable("color: Red"),
        "unknown key `color`; expected name, serde, context, effect, states, events, or transitions"
    );
    assert_eq!(unreadable("name: A, name: B"), "duplicate key `name`");
    assert_eq!(unreadable("serde: true, serde: true"), "duplicate key `serde`");
    assert_eq!(unreadable("context: u8, context: u8"), "duplicate key `context`");
    assert_eq!(unreadable("effect: u8, effect: u8"), "duplicate key `effect`");
    assert_eq!(unreadable("states: { A } states: { A }"), "duplicate key `states`");
    assert_eq!(unreadable("events: {} events: {}"), "duplicate key `events`");
    assert_eq!(unreadable("transitions: {} transitions: {}"), "duplicate key `transitions`");
    assert_eq!(unreadable(""), "unexpected end of input, missing required key `name`");
    assert_eq!(
        unreadable("name: M"),
        "unexpected end of input, missing required key `states`"
    );
    assert_eq!(
        unreadable("name: M, states: { A }"),
        "unexpected end of input, missing required key `events`"
    );
    assert_eq!(
        unreadable("name: M, states: { A }, events: { Go }"),
        "unexpected end of input, missing required key `transitions`"
    );
}

#[test]
fn values_have_the_form_of_their_keys() {
    assert_eq!(unreadable("name M"), "expected `:`");
    assert_eq!(unreadable("name"), "expected `:`");
    assert_eq!(unreadable("name: 3"), "expected identifier");
    assert_eq!(unreadable("name: struct"), "expected identifier, found keyword `struct`");
    assert_eq!(unreadable("name:"), "unexpected end of input, expected identifier");
    assert_eq!(unreadable("serde: maybe"), "expected boolean literal");
    assert_eq!(unreadable("serde:"), "unexpected end of input, expected boolean literal");
    assert_eq!(unreadable("states: ()"), "expected curly braces");
    assert_eq!(unreadable("events:"), "unexpected end of input, expected curly braces");
    assert_eq!(unreadable("transitions: []"), "expected curly braces");
}

#[test]
fn types_are_those_that_syn_reads() {
    let expected = |text: &str| match syn::parse_str::<syn::Type>(text) {
        Ok(_) => panic!("expected failure"),
        Err(error) => error.to_string(),
    };
    assert_eq!(unreadable("context: ,"), expected(","));
    assert_eq!(unreadable("context:"), expected(""));
    assert_eq!(unreadable("states: { A { x: = } }"), expected("="));
    assert_eq!(unreadable("states: { A { x: } }, events: { }"), expected(""));
    assert_eq!(unreadable("events: { Go { x: Vec< } }"), expected("Vec<"));

    let read = definition(
        "name: M, context: std::collections::HashMap<String, Vec<&'static [u8; 4]>>, \
         states: { A { x: (u8, fn(u8) -> bool), y: u16 } }, events: { }, transitions: { }",
    );
    let context = read.context.as_ref().map(|ty| ty.tokens.to_string());
    assert_eq!(
        context.map(|text| text.replace(' ', "")),
        Some("std::collections::HashMap<String,Vec<&'static[u8;4]>>".to_owned())
    );
    let fields = &read.states[0].variant.fields;
    assert_eq!(fields.len(), 2);
    assert_eq!(fields[0].ty.tokens.to_string().replace(' ', ""), "(u8,fn(u8)->bool)");
    assert_eq!(fields[1].name.unraw(), "y");
    assert_eq!(fields[1].ty.tokens.to_string(), "u16");
}

#[test]
fn lists_are_separated_by_commas() {
    assert_eq!(unreadable("states: { A B }"), "expected `,` after state");
    assert_eq!(unreadable("states: { A { x: u8 y: u8 } }"), "expected `,` after field");
    assert_eq!(unreadable("states: { A { x u8 } }"), "expected `,` after state");
    assert_eq!(unreadable("events: { Go Stop }"), "expected `,` after variant");
    assert_eq!(unreadable("events: { Go { x } }"), "expected `:`");
    assert_eq!(unreadable("transitions: { A + Go => reject No A }"), "expected `,` after transition");
    assert_eq!(
        unreadable("transitions: { A { x y } + Go => reject No }"),
        "expected `,` after pattern field"
    );
    assert_eq!(
        unreadable("transitions: { A + Go [f(x y)] => reject No }"),
        "expected `,` after callback argument"
    );
    assert_eq!(
        unreadable("transitions: { T: A + Go => B { x y } }"),
        "expected `,` after target field"
    );
}

#[test]
fn rows_have_a_source_an_event_and_an_outcome() {
    assert_eq!(unreadable("transitions: { A => B }"), "expected `+`");
    assert_eq!(unreadable("transitions: { A + Go }"), "expected `=>`");
    assert_eq!(unreadable("transitions: { A + Go = B }"), "expected `=>`");
    assert_eq!(
        unreadable("transitions: { T: A + Go => 3 }"),
        "expected a target state, `_`, or `reject Reason`"
    );
    assert_eq!(
        unreadable("transitions: { T: A + Go => }"),
        "unexpected end of input, expected a target state, `_`, or `reject Reason`"
    );
    assert_eq!(
        unreadable("transitions: { A + Go => B }"),
        "accepted transition rows require a `Name:` label"
    );
    assert_eq!(
        unreadable("transitions: { A + Go => _, }"),
        "accepted stay rows require a `Name:` label"
    );
    assert_eq!(
        unreadable("transitions: { T: A + Go => reject No }"),
        "rejection rows do not have transition labels"
    );
    assert_eq!(
        unreadable("transitions: { A + Go / emit => reject No, }"),
        "rejection rows cannot emit an effect"
    );
    assert_eq!(
        unreadable("transitions: { A + Go [f g] => reject No }"),
        "unexpected tokens after guard"
    );
    assert_eq!(
        unreadable("transitions: { A { .., x } + Go => reject No }"),
        "`..` must be the final pattern item"
    );
    assert_eq!(
        unreadable("transitions: { A + Go [] => reject No }"),
        "unexpected end of input, expected identifier"
    );
}

#[test]
fn rows_are_read_whole() {
    let read = definition(
        "name: M, serde: false, states: { *A }, events: { Go }, transitions: { \
         T: A { x, .. } + Go { y, } [async ok(x, y)] / async make(y) => B { z: x, y } }",
    );
    let row = &read.rows[0];
    assert!(!read.serde);
    match &row.source {
        rfsm::RowSource::State(pattern) => {
            assert_eq!(pattern.name.unraw(), "A");
            assert_eq!(pattern.fields.len(), 1);
            assert!(pattern.rest && pattern.explicit_fields);
        }
        rfsm::RowSource::Any => panic!("the source is named"),
    }
    match &row.event {
        rfsm::RowEvent::Event(pattern) => {
            assert_eq!(pattern.fields[0].unraw(), "y");
            assert!(!pattern.rest && pattern.explicit_fields);
        }
        rfsm::RowEvent::Any => panic!("the event is named"),
    }
    let guard = row.guard.as_ref().unwrap_or_else(|| panic!("there is a guard"));
    assert!(guard.is_async && guard.name.unraw() == "ok" && guard.arguments.len() == 2);
    let effect = row.effect.as_ref().unwrap_or_else(|| panic!("there is an effect"));
    assert!(effect.is_async && effect.name.unraw() == "make" && effect.arguments.len() == 1);
    match &row.outcome {
        rfsm::RowOutcome::Transition { transition, target: Some(target) } => {
            assert_eq!(transition.unraw(), "T");
            assert_eq!(target.name.unraw(), "B");
            assert_eq!(target.fields[0].name.unraw(), "z");
            assert_eq!(target.fields[0].binding.unraw(), "x");
            assert_eq!(target.fields[1].binding.unraw(), "y");
        }
        _ => panic!("the row has a target"),
    }
}

#[test]
fn declarations_are_checked() {
    assert_eq!(
        refused("name: M, states: { }, events: { }, transitions: { }"),
        vec![
            "at least one state is required",
            "at least one event is required",
            "machine root requires exactly one `*` initial state",
        ]
    );
    assert_eq!(
        refused(
            "name: M, states: { *A, *B, *C { *D { x: u8 } } }, events: { Go { x: u8, x: u8 } }, \
             transitions: { T: _ + Go => A }"
        ),
        vec![
            "duplicate field `x` in event `Go`",
            "machine root has more than one `*` initial state",
            "machine root has more than one `*` initial state",
            "an initial leaf cannot require payload fields",
        ]
    );
    assert_eq!(
        refused(
            "name: M, states: { *A, B { r#x: u8, x: u8 } }, events: { Go }, \
             transitions: { T: _ + Go => A }"
        ),
        vec!["duplicate field `x` in state `B`"]
    );
}

#[test]
fn patterns_are_checked() {
    let rows = "B { x, x, .. } + Go => reject No, B { z, .. } + Put => reject No, \
                C { x } + Put => reject No, B { x } + Put { x, .. } => reject No,";
    assert_eq!(
        refused(&table(rows)),
        vec![
            "duplicate pattern field `x`",
            "unknown field `z` on state `B`",
            "compound source states cannot bind payload fields",
            "pattern for state `B` must bind every field or end with `..`",
            "binding `x` is ambiguous between `x` and `x`",
            "unreachable transition row: an earlier unguarded row handles every matching leaf/event pair",
        ]
    );
}

#[test]
fn targets_are_checked() {
    assert_eq!(
        refused(&table("T: A + Go => D { x }, U: A + Put => B, V: D + Go => C { },")),
        vec![
            "target state `D` has no payload fields",
            "target state `B` requires payload fields",
            "compound target states cannot carry payload fields",
        ]
    );
    assert_eq!(
        refused(&table(
            "T: A + Put { x, .. } => B { x, x, y: q }, U: D + Put { x, y } => B { x, z: y },"
        )),
        vec![
            "duplicate target field `x`",
            "target field `y` references unknown binding `q`",
            "unknown field `z` on target state `B`",
        ]
    );
    assert_eq!(
        refused(&table("T: A + Put { x, .. } => B { x },")),
        vec!["target state `B` requires every payload field"]
    );
}

#[test]
fn callbacks_are_checked() {
    assert_eq!(
        refused(&table("T: A + Put { x, .. } [f(x, x)] => _, U: D + Put [f(y)] => _,")),
        vec![
            "duplicate callback argument `x`",
            "callback argument `y` is not bound by this row",
            "callback `f` is used with incompatible roles, async modes, or argument types",
        ]
    );
    assert_eq!(
        refused(&table("T: A + Go [f] / f => _,")),
        vec!["callback `f` is used with incompatible roles, async modes, or argument types"]
    );
    assert_eq!(
        refused(&table("T: A + Go [f] / async g => _, U: D + Go [async f] / g => _,")),
        vec![
            "callback `f` is used with incompatible roles, async modes, or argument types",
            "callback `g` is used with incompatible roles, async modes, or argument types",
        ]
    );
}

#[test]
fn only_the_first_missing_pairs_are_shown() {
    assert_eq!(
        refused(
            "name: r#M, states: { *A, B, C, D }, events: { e, f, g }, \
             transitions: { T: A + e => _, U: D + _ => _ }"
        ),
        vec![
            "unhandled leaf/event pairs in `r#M`: (A, f), (A, g), (B, e), (B, f), (B, g), (C, e), (C, f), (C, g)"
        ]
    );
    assert_eq!(
        refused(
            "name: M, states: { *A, B, C, D, E, F }, events: { e, f }, transitions: { T: A + e => _ }"
        ),
        vec![
            "unhandled leaf/event pairs in `M`: (A, f), (B, e), (B, f), (C, e), (C, f), (D, e), (D, f), (E, e) and 3 more"
        ]
    );
    assert_eq!(
        refused(
            "name: M, states: { *A, B, C, D, E, F, G, H, I, J }, events: { e, f }, \
             transitions: { T: A + e => _, U: A + f [g] => _ }"
        ),
        vec![
            "unhandled leaf/event pairs in `M`: (B, e), (B, f), (C, e), (C, f), (D, e), (D, f), (E, e), (E, f) and 10 more",
            "`context` is required when transition callbacks are used",
        ]
    );
}
