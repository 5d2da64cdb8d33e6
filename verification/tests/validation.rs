use rfsm::{parse_str, validate, MachineDef};

#[test]
fn nested_tree_covers_descendant_events_from_parent_rows() {
    let definition: MachineDef = parse_str(
        r#"
            name: M,
            states: { *Root { *A, B } },
            events: { Go },
            transitions: {
                Handled: Root + Go => Root,
            }
        "#,
    )
    .unwrap_or_else(|error| panic!("unexpected parse failure: {}", error.message()));

    validate(&definition)
        .unwrap_or_else(|error| panic!("unexpected validation failure: {}", error.message()));
}

#[test]
fn missing_leaf_event_pair_is_reported() {
    let definition: MachineDef = parse_str(
        r#"
            name: M,
            states: { *A, B },
            events: { Go },
            transitions: {
                Handled: A + Go => B,
            }
        "#,
    )
    .unwrap_or_else(|error| panic!("unexpected parse failure: {}", error.message()));

    let error = validate(&definition)
        .err()
        .unwrap_or_else(|| panic!("expected failure"));
    assert!(error.message().contains("(B, Go)"));
}

#[test]
fn every_compound_requires_one_initial_child() {
    let definition: MachineDef = parse_str(
        r#"
            name: M,
            states: { *Root { A, B } },
            events: { Go },
            transitions: { Handled: Root + Go => Root }
        "#,
    )
    .unwrap_or_else(|error| panic!("unexpected parse failure: {}", error.message()));

    let error = validate(&definition)
        .err()
        .unwrap_or_else(|| panic!("expected failure"));
    assert!(
        error.message()
            .contains("compound state `Root` requires exactly one `*` initial state")
    );
}

#[test]
fn target_payload_must_come_from_row_bindings() {
    let definition: MachineDef = parse_str(
        r#"
            name: M,
            states: { *A, B { value: u8 } },
            events: { Go },
            transitions: {
                Moved: A + Go => B { value: missing },
                Stayed: B { value } + Go => B { value },
            }
        "#,
    )
    .unwrap_or_else(|error| panic!("unexpected parse failure: {}", error.message()));

    let error = validate(&definition)
        .err()
        .unwrap_or_else(|| panic!("expected failure"));
    assert!(error.message().contains("unknown binding `missing`"));
}

#[test]
fn incompatible_callback_argument_types_are_rejected() {
    let definition: MachineDef = parse_str(
        r#"
            name: M,
            context: (),
            states: { *A },
            events: { Byte { value: u8 }, Word { value: u16 } },
            transitions: {
                Byte: A + Byte { value } [check(value)] => A,
                A + Byte { .. } => reject No,
                Word: A + Word { value } [check(value)] => A,
                A + Word { .. } => reject No,
            }
        "#,
    )
    .unwrap_or_else(|error| panic!("unexpected parse failure: {}", error.message()));

    let error = validate(&definition)
        .err()
        .unwrap_or_else(|| panic!("expected failure"));
    assert!(
        error.message()
            .contains("incompatible roles, async modes, or argument types")
    );
}

#[test]
fn row_shadowed_for_every_leaf_event_pair_is_rejected() {
    let definition: MachineDef = parse_str(
        r#"
            name: M,
            states: { *A },
            events: { Go },
            transitions: {
                First: A + Go => A,
                A + Go => reject No,
            }
        "#,
    )
    .unwrap_or_else(|error| panic!("unexpected parse failure: {}", error.message()));

    let error = validate(&definition)
        .err()
        .unwrap_or_else(|| panic!("expected failure"));
    assert!(error.message().contains("unreachable transition row"));
}

#[test]
fn async_callback_selects_async_generated_api() {
    let definition: MachineDef = parse_str(
        r#"
            name: M,
            context: (),
            states: { *A },
            events: { Go },
            transitions: {
                Moved: A + Go [async allowed] => A,
                A + Go => reject No,
            }
        "#,
    )
    .unwrap_or_else(|error| panic!("unexpected parse failure: {}", error.message()));

    let validated = validate(&definition)
        .unwrap_or_else(|error| panic!("unexpected validation failure: {}", error.message()));
    assert!(validated.is_async);
}

#[test]
fn duplicate_state_and_event_names_are_reported() {
    let definition: MachineDef = parse_str(
        r#"
            name: M,
            states: { *A, A },
            events: { Go, Go },
            transitions: { Stayed: A + Go => A }
        "#,
    )
    .unwrap_or_else(|error| panic!("unexpected parse failure: {}", error.message()));

    let error = validate(&definition)
        .err()
        .unwrap_or_else(|| panic!("expected failure"));
    let message = error.to_compile_error().to_string();
    assert!(message.contains("duplicate state `A`"));
    assert!(message.contains("duplicate event `Go`"));
}

#[test]
fn duplicate_transition_labels_are_reported() {
    let definition: MachineDef = parse_str(
        r#"
            name: M,
            states: { *A, B },
            events: { Go },
            transitions: {
                Same: A + Go => B,
                Same: B + Go => A,
            }
        "#,
    )
    .unwrap_or_else(|error| panic!("unexpected parse failure: {}", error.message()));

    let error = validate(&definition)
        .err()
        .unwrap_or_else(|| panic!("expected failure"));
    assert!(
        error.message()
            .contains("duplicate transition label `Same`")
    );
}

#[test]
fn unknown_source_event_and_target_are_reported() {
    let definition: MachineDef = parse_str(
        r#"
            name: M,
            states: { *A },
            events: { Go },
            transitions: {
                MissingSource: B + Go => A,
                MissingEvent: A + Stop => A,
                MissingTarget: A + Go => C,
            }
        "#,
    )
    .unwrap_or_else(|error| panic!("unexpected parse failure: {}", error.message()));

    let error = validate(&definition)
        .err()
        .unwrap_or_else(|| panic!("expected failure"));
    let message = error.to_compile_error().to_string();
    assert!(message.contains("unknown source state `B`"));
    assert!(message.contains("unknown event `Stop`"));
    assert!(message.contains("unknown target state `C`"));
}

#[test]
fn callback_requires_explicit_context() {
    let definition: MachineDef = parse_str(
        r#"
            name: M,
            states: { *A },
            events: { Go },
            transitions: {
                Moved: A + Go [allowed] => A,
                A + Go => reject Denied,
            }
        "#,
    )
    .unwrap_or_else(|error| panic!("unexpected parse failure: {}", error.message()));

    let error = validate(&definition)
        .err()
        .unwrap_or_else(|| panic!("expected failure"));
    assert!(
        error.message()
            .contains("`context` is required when transition callbacks are used")
    );
}

#[test]
fn effect_callback_requires_explicit_effect_type() {
    let definition: MachineDef = parse_str(
        r#"
            name: M,
            context: (),
            states: { *A },
            events: { Go },
            transitions: {
                Moved: A + Go / emit => A,
            }
        "#,
    )
    .unwrap_or_else(|error| panic!("unexpected parse failure: {}", error.message()));

    let error = validate(&definition)
        .err()
        .unwrap_or_else(|| panic!("expected failure"));
    assert!(
        error.message()
            .contains("`effect` is required because effect callback `emit` is used")
    );
}

#[test]
fn raw_and_plain_spellings_share_one_rejection_variant() {
    let definition: MachineDef = parse_str(
        r#"
            name: M,
            states: { *A, B },
            events: { Go },
            transitions: {
                A + Go => reject Denied,
                B + Go => reject r#Denied,
            }
        "#,
    )
    .unwrap_or_else(|error| panic!("unexpected parse failure: {}", error.message()));

    let validated = validate(&definition)
        .unwrap_or_else(|error| panic!("unexpected validation failure: {}", error.message()));
    assert_eq!(validated.rejections.len(), 1);
    assert_eq!(validated.rejections[0].unraw(), "Denied");
}
