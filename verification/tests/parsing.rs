use std::str::FromStr;

use proc_macro2::{Delimiter, Group, Span, TokenStream, TokenTree};
use rfsm::parse::cursor::found_type;
use rfsm::template::text_stream;
use rfsm::token::{count_tokens, same_tokens, stream_behind};
use rfsm::types::find_type;
use rfsm::{code_stream, parse_str, parse_stream, read_tokens, Code, RowSource, Token};

#[test]
fn empty_state_braces_are_rejected() {
    let result = parse_str(
        r#"
            name: M,
            states: { *Payment {} },
            events: { Go },
            transitions: { Stayed: Payment + Go => Payment }
        "#,
    );

    let error = result.err().unwrap_or_else(|| panic!("expected failure"));
    assert!(
        error.message()
            .contains("state `Payment` uses empty braces")
    );
}

#[test]
fn explicit_rejection_type_has_a_migration_error() {
    let result = parse_str(
        r#"
            name: M,
            rejection: Refusal,
            states: { *A },
            events: { Go },
            transitions: { A + Go => reject Denied }
        "#,
    );

    let error = result.err().unwrap_or_else(|| panic!("expected failure"));
    assert!(error.message().contains(
        "`rejection` is generated from `reject Reason` rows and must not be declared"
    ));
}

fn lexed(text: &str) -> TokenStream {
    TokenStream::from_str(text).unwrap_or_else(|_| panic!("the text is made of tokens"))
}

#[test]
fn invisible_groups_are_opened() {
    let mut input = lexed("name: M, context:");
    let inner = Group::new(Delimiter::None, lexed("Vec < u8 >"));
    input.extend([TokenTree::from(Group::new(
        Delimiter::None,
        TokenStream::from(TokenTree::from(inner)),
    ))]);
    input.extend(lexed(", states: { *A }, events: { Go }"));
    let rows = Group::new(
        Delimiter::Brace,
        TokenStream::from(TokenTree::from(Group::new(
            Delimiter::None,
            lexed("A + Go => reject No"),
        ))),
    );
    input.extend(lexed(", transitions:"));
    input.extend([TokenTree::from(rows)]);

    let tokens = read_tokens(input.clone());
    assert!(tokens.iter().all(|token| !matches!(token, Token::Group(rfsm::Delimiter::Invisible, ..))));
    let definition = parse_stream(input)
        .unwrap_or_else(|error| panic!("unexpected parse failure: {}", error.message()));
    assert_eq!(definition.context.map(|ty| ty.tokens.to_string().replace(' ', "")), Some("Vec<u8>".to_owned()));
    assert_eq!(definition.rows.len(), 1);
    assert!(definition.rows[0].guard.is_none());
}

#[test]
fn raw_and_plain_spellings_are_one_name() {
    let definition = parse_str(
        "name: r#M, states: { *r#A }, events: { r#type }, transitions: { A + r#type => reject No }",
    )
    .unwrap_or_else(|error| panic!("unexpected parse failure: {}", error.message()));
    assert_eq!(definition.name.unraw(), "M");
    assert_eq!(definition.name.spelling(), "r#M");
    assert!(definition.name.raw);
    assert!(rfsm::validate(&definition).is_ok());
    match &definition.rows[0].source {
        RowSource::State(pattern) => {
            assert!(pattern.name.same(&definition.states[0].variant.name));
            assert_eq!(pattern.name.spelling(), "A");
        }
        RowSource::Any => panic!("the source is named"),
    }
}

fn invisible(text: &str) -> TokenStream {
    TokenStream::from(TokenTree::from(Group::new(Delimiter::None, lexed(text))))
}

fn joined(parts: Vec<TokenStream>) -> TokenStream {
    let mut all = TokenStream::new();
    for part in parts {
        all.extend(part);
    }
    all
}

#[test]
fn an_invisible_group_is_one_type() {
    let input = joined(vec![
        lexed("name: M, effect: &"),
        invisible("dyn Send + Sync"),
        lexed(", states: { *A }, events: { Go }, transitions: { A + Go => reject No }"),
    ]);
    let definition = parse_stream(input)
        .unwrap_or_else(|error| panic!("unexpected parse failure: {}", error.message()));
    let effect = definition.effect.unwrap_or_else(|| panic!("the effect is declared"));
    assert_eq!(effect.tokens.to_string().replace(' ', ""), "&dynSend+Sync");
    let trees: Vec<TokenTree> = (*effect.tokens).clone().into_iter().collect();
    assert_eq!(trees.len(), 2);
    match &trees[1] {
        TokenTree::Group(group) => assert_eq!(group.delimiter(), Delimiter::None),
        _ => panic!("the group is kept"),
    }

    let spelled = parse_stream(lexed("name: M, effect: & dyn Send + Sync, states: { *A }"));
    assert!(spelled.is_err());
}

#[test]
fn an_invisible_group_may_end_inside_a_field_list() {
    let fields = joined(vec![invisible("x: u8, y"), lexed(": u16, z:"), invisible("u32")]);
    let event = TokenTree::from(Group::new(Delimiter::Brace, fields));
    let events = TokenTree::from(Group::new(
        Delimiter::Brace,
        joined(vec![lexed("Put"), TokenStream::from(event)]),
    ));
    let input = joined(vec![
        lexed("name: M, states: { *A }, transitions: { }, events:"),
        TokenStream::from(events),
    ]);
    let definition = parse_stream(input)
        .unwrap_or_else(|error| panic!("unexpected parse failure: {}", error.message()));
    let read: Vec<(String, String)> = definition.events[0]
        .fields
        .iter()
        .map(|field| (field.name.spelling(), field.ty.tokens.to_string()))
        .collect();
    let expected = [("x", "u8"), ("y", "u16"), ("z", "u32")];
    assert_eq!(read, expected.map(|(name, ty)| (name.to_owned(), ty.to_owned())));
}

#[test]
fn tokens_behind_a_position_keep_whole_groups() {
    let spelled = |stream: TokenStream, count: usize| {
        let mut found = Vec::new();
        for tree in stream_behind(stream, count) {
            found.push(match &tree {
                TokenTree::Group(group) if group.delimiter() == Delimiter::None => {
                    format!("<{}>", group.stream())
                }
                other => other.to_string(),
            });
        }
        found
    };
    let input = joined(vec![lexed("a"), invisible("b c"), lexed("d")]);
    assert_eq!(count_tokens(input.clone()), 4);
    assert_eq!(spelled(input.clone(), 0), ["a", "<b c>", "d"]);
    assert_eq!(spelled(input.clone(), 1), ["<b c>", "d"]);
    assert_eq!(spelled(input.clone(), 2), ["c", "d"]);
    assert_eq!(spelled(input.clone(), 3), ["d"]);
    assert!(spelled(input.clone(), 4).is_empty());
    assert!(spelled(input, 9).is_empty());
}

#[test]
fn a_type_ends_where_the_tokens_left_begin() {
    let tokens = read_tokens(lexed("x : u8 , y"));
    let place = Span::call_site();
    match found_type(&tokens, 2, place, Ok((lexed("u8"), lexed(", y")))) {
        Ok((ty, next)) => {
            assert_eq!(ty.tokens.to_string(), "u8");
            assert_eq!(next, 3);
        }
        Err(message) => panic!("unexpected failure: {}", message.text),
    }
    match found_type(&tokens, 2, place, Ok((lexed(""), lexed("u8 , y")))) {
        Ok(_) => panic!("a type takes a token"),
        Err(message) => assert_eq!(message.text, "expected a type"),
    }
    match found_type(&tokens, 2, place, find_type(lexed("= u8"), place)) {
        Ok(_) => panic!("there is no type"),
        Err(message) => {
            let error = match syn::parse_str::<syn::Type>("= u8") {
                Ok(_) => panic!("there is no type"),
                Err(error) => error,
            };
            assert_eq!(message.text, error.to_string());
            assert_eq!(message.to_refusal().to_string(), error.to_compile_error().to_string());
        }
    }
}

#[test]
fn types_are_one_whatever_follows_them() {
    let definition = parse_str(
        "name: M, context: C, states: { *S, A { x: Vec<Vec<u8>>, y: u8 } }, \
         events: { Put { x: Vec<Vec<u8>> }, Take { x: Vec<Vec<u16>> } }, \
         transitions: { \
             A { x, .. } + Put { .. } [ready(x)] => reject No, \
             A { .. } + Put { x } [ready(x)] => reject No, \
             _ + _ => reject No \
         }",
    )
    .unwrap_or_else(|error| panic!("unexpected parse failure: {}", error.message()));
    let state = &definition.states[1].variant.fields[0].ty;
    let same = |other: &rfsm::Type| {
        let own = read_tokens((*state.tokens).clone());
        same_tokens(&own, &read_tokens((*other.tokens).clone()))
    };
    assert!(same(&definition.events[0].fields[0].ty));
    assert!(!same(&definition.events[1].fields[0].ty));
    if let Err(error) = rfsm::validate(&definition) {
        panic!("unexpected refusal: {}", error.message());
    }
}

#[test]
fn a_type_is_written_as_it_was_read() {
    let definition = parse_str(
        "name: M, context: C, states: { *A { x: <T as Iterator>::Item } }, events: { Go }, \
         transitions: { _ + _ => reject No }",
    )
    .unwrap_or_else(|error| panic!("unexpected parse failure: {}", error.message()));
    let ty = &definition.states[0].variant.fields[0].ty;
    let written = code_stream(&vec![Code::Type(ty.clone())]);
    assert_eq!(written.to_string(), ty.tokens.to_string());
    assert_eq!(written.to_string().replace(' ', ""), "<TasIterator>::Item");
}

#[test]
fn a_type_that_ends_early_is_refused_as_syn_refuses_it() {
    let error = match syn::parse_str::<syn::Type>("dyn 'a") {
        Ok(_) => panic!("a trait is missing"),
        Err(error) => error,
    };
    let output = rfsm::machine(lexed("name: M, context: dyn 'a"));
    assert_eq!(output.to_string(), error.to_compile_error().to_string());
}

#[test]
fn fixed_texts_spell_their_tokens() {
    for text in [
        "#[allow(missing_docs)] pub fn is_in(&self, ancestor: StateId) -> bool",
        "::core::result::Result< ::rfsm::Plan<State, Transition,",
        "if state == ancestor { return true; } let _ = (a, [b, { c }]); x >>= y.await?",
        "&'a mut __state_2",
    ] {
        let own = read_tokens(text_stream(text));
        assert!(same_tokens(&own, &read_tokens(lexed(text))), "{text}");
    }
    assert!(text_stream("").is_empty());
    assert_eq!(text_stream("a 7 b").to_string(), "a b");
    assert_eq!(text_stream("a) b").to_string(), "a");
    assert_eq!(text_stream("(a").to_string(), lexed("(a)").to_string());
}

#[test]
fn string_literals_and_groups_are_written() {
    let pieces = vec![
        Code::Text("doc ="),
        Code::Quote("a \"b\""),
        Code::Group(rfsm::Delimiter::Bracket, vec![Code::Text("x")]),
    ];
    assert_eq!(code_stream(&pieces).to_string(), lexed("doc = \"a \\\"b\\\"\" [x]").to_string());
}

#[test]
fn the_name_of_a_machine_is_an_identifier() {
    let mut definition = parse_str(
        "name: M, states: { *A }, events: { Go }, transitions: { _ + _ => reject No }",
    )
    .unwrap_or_else(|error| panic!("unexpected parse failure: {}", error.message()));
    let validated = rfsm::validate(&definition)
        .unwrap_or_else(|error| panic!("unexpected refusal: {}", error.message()));
    assert!(definition.name.can_be_extended());
    assert_eq!(definition.name.extended("Context").spelling(), "MContext");
    definition.name.token = std::rc::Rc::new(lexed("N"));
    match rfsm::expand(&definition, &validated) {
        Ok(_) => panic!("the token is that of another name"),
        Err(error) => {
            assert_eq!(error.message(), "the name of a machine must be an identifier");
        }
    }
}
