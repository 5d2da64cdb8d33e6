use std::str::FromStr;

use proc_macro2::TokenStream;

fn expand_text(definition: &str) -> String {
    let input = TokenStream::from_str(definition)
        .unwrap_or_else(|_| panic!("the definition is not made of tokens"));
    without_spaces(&rfsm::machine(input).to_string())
}

fn without_spaces(text: &str) -> String {
    text.chars().filter(|ch| !ch.is_whitespace()).collect()
}

fn lexed(code: &str) -> String {
    let tokens =
        TokenStream::from_str(code).unwrap_or_else(|_| panic!("the code is not made of tokens"));
    without_spaces(&tokens.to_string())
}

#[test]
fn a_machine_without_callbacks_needs_no_context() {
    let found = expand_text(
        r#"
            name: Door,
            states: { *Closed, Open },
            events: { Open, Close },
            transitions: {
                _ + _ => reject InvalidEvent,
                Opened: Closed + Open => Open,
                Stayed: Open + _ => _,
            }
        "#,
    );
    let expected = lexed(
        r#"
            #[allow(missing_docs)]
            #[derive(Clone, Debug, PartialEq)]
            pub enum State { Closed, Open }

            #[allow(missing_docs)]
            #[derive(Clone, Copy, Debug, Eq, Hash, PartialEq)]
            pub enum StateId { Closed, Open }

            #[allow(missing_docs)]
            #[derive(Clone, Debug, PartialEq)]
            pub enum Event { Open, Close }

            #[allow(missing_docs)]
            #[derive(Clone, Copy, Debug, Eq, Hash, PartialEq)]
            pub enum Transition { Opened, Stayed }

            #[allow(missing_docs)]
            #[derive(Clone, Copy, Debug, Eq, Hash, PartialEq)]
            pub enum Rejection { InvalidEvent }

            #[allow(missing_docs)]
            pub struct Door { state: State, }

            #[allow(missing_docs)]
            impl Door {
                pub fn new() -> Self { Self { state: State::Closed, } }

                pub fn from_state(state: State,) -> Self { Self { state, } }

                pub fn state(&self) -> &State { &self.state }

                pub fn state_id(&self) -> StateId { Self::__state_id(&self.state) }

                pub fn is_in(&self, ancestor: StateId) -> bool { self.state.is_in(ancestor) }

                #[allow(irrefutable_let_patterns, unreachable_code)]
                pub fn evaluate(state: &State, event: &Event,) -> ::core::result::Result<
                    ::rfsm::Plan<State, Transition, ::core::convert::Infallible>,
                    ::rfsm::ProcessError<StateId, Event, Rejection>,
                > {
                    let from_id = Self::__state_id(state);
                    let mut level = ::core::option::Option::Some(from_id);
                    while let ::core::option::Option::Some(at) = level {
                        match at {
                            StateId::Closed => {
                                if let (State::Closed, Event::Open) = (state, event) {
                                    let to = State::Open;
                                    let effect: ::core::option::Option<
                                        ::core::convert::Infallible
                                    > = ::core::option::Option::None;
                                    return ::core::result::Result::Ok(::rfsm::Plan {
                                        transition: Transition::Opened,
                                        from: state.clone(),
                                        to,
                                        effect,
                                    });
                                }
                            },
                            StateId::Open => {
                                if let State::Open = state {
                                    let to = state.clone();
                                    let effect: ::core::option::Option<
                                        ::core::convert::Infallible
                                    > = ::core::option::Option::None;
                                    return ::core::result::Result::Ok(::rfsm::Plan {
                                        transition: Transition::Stayed,
                                        from: state.clone(),
                                        to,
                                        effect,
                                    });
                                }
                            }
                        }
                        level = Self::__parent(at);
                    }
                    return ::core::result::Result::Err(::rfsm::ProcessError::Rejected(
                        Rejection::InvalidEvent
                    ));
                    ::core::result::Result::Err(::rfsm::ProcessError::Unhandled {
                        state: from_id,
                        event: event.clone(),
                    })
                }

                pub fn process(&mut self, event: Event,) -> ::core::result::Result<
                    ::rfsm::Applied<State, Transition, ::core::convert::Infallible>,
                    ::rfsm::ProcessError<StateId, Event, Rejection>,
                > {
                    let plan = Self::evaluate(&self.state, &event,)?;
                    self.state = plan.to.clone();
                    ::core::result::Result::Ok(plan.confirm())
                }

                fn __state_id(state: &State) -> StateId {
                    match state {
                        State::Closed => StateId::Closed,
                        State::Open => StateId::Open,
                    }
                }

                fn __parent(state: StateId) -> ::core::option::Option<StateId> {
                    match state {
                        StateId::Closed => ::core::option::Option::None,
                        StateId::Open => ::core::option::Option::None,
                    }
                }
            }

            #[allow(missing_docs)]
            impl State {
                pub fn is_in(&self, ancestor: StateId) -> bool {
                    let mut current = ::core::option::Option::Some(Door::__state_id(self));
                    while let ::core::option::Option::Some(state) = current {
                        if state == ancestor { return true; }
                        current = Door::__parent(state);
                    }
                    false
                }
            }
        "#,
    );
    assert_eq!(found, expected);
}

#[test]
fn callbacks_payloads_and_nesting_are_expanded() {
    let found = expand_text(
        r#"
            name: r#Gate,
            serde: true,
            context: Facts,
            effect: Effect,
            states: { *Flow { *Waiting, Ready { token: Token, count: Vec<u8> } } },
            events: { Accept { token: Token, count: Vec<u8> }, Cancel },
            transitions: {
                Restarted: Flow + Cancel => Flow,
                Accepted: Waiting + Accept { token, count } [async allowed(token)]
                    / async record(count, token) => Ready { count, token },
                Waiting + Accept { token, .. } [known(token)] => reject Known,
                Ready { .. } + Accept { .. } => reject Duplicate,
                Flow + Accept => reject Duplicate,
            }
        "#,
    );
    let expected = lexed(
        r#"
            #[allow(missing_docs)]
            #[derive(Clone, Debug, PartialEq)]
            #[derive(::rfsm::serde::Serialize, ::rfsm::serde::Deserialize)]
            #[serde(crate = "::rfsm::serde", deny_unknown_fields)]
            pub enum State { Waiting, Ready { token: Token, count: Vec<u8> } }

            #[allow(missing_docs)]
            #[derive(Clone, Copy, Debug, Eq, Hash, PartialEq)]
            pub enum StateId { Flow, Waiting, Ready }

            #[allow(missing_docs)]
            #[derive(Clone, Debug, PartialEq)]
            pub enum Event { Accept { token: Token, count: Vec<u8> }, Cancel }

            #[allow(missing_docs)]
            #[derive(Clone, Copy, Debug, Eq, Hash, PartialEq)]
            pub enum Transition { Restarted, Accepted }

            #[allow(missing_docs)]
            #[derive(Clone, Copy, Debug, Eq, Hash, PartialEq)]
            pub enum Rejection { Known, Duplicate }

            #[doc = "Logically read-only guards and effect factories used by the transition table."]
            #[doc = "Interior or external side effects are not rolled back on rejection or cancellation."]
            #[doc = "Externally visible writes belong in the returned effect boundary."]
            #[allow(async_fn_in_trait, clippy::ptr_arg, missing_docs)]
            pub trait GateContext {
                async fn allowed(&self, token: &Token) -> bool;
                async fn record(&self, count: &Vec<u8>, token: &Token) -> Effect;
                fn known(&self, token: &Token) -> bool;
            }

            #[allow(missing_docs)]
            pub struct r#Gate { state: State, context: Facts, }

            #[allow(missing_docs)]
            impl r#Gate {
                pub fn new(context: Facts,) -> Self { Self { state: State::Waiting, context, } }

                pub fn from_state(state: State, context: Facts,) -> Self {
                    Self { state, context, }
                }

                pub fn state(&self) -> &State { &self.state }

                pub fn state_id(&self) -> StateId { Self::__state_id(&self.state) }

                pub fn is_in(&self, ancestor: StateId) -> bool { self.state.is_in(ancestor) }

                pub fn context(&self) -> &Facts { &self.context }

                pub fn context_mut(&mut self) -> &mut Facts { &mut self.context }

                #[allow(irrefutable_let_patterns, unreachable_code)]
                pub async fn evaluate(
                    state: &State, event: &Event, context: &Facts,
                ) -> ::core::result::Result<
                    ::rfsm::Plan<State, Transition, Effect>,
                    ::rfsm::ProcessError<StateId, Event, Rejection>,
                > {
                    let _ = context;
                    let from_id = Self::__state_id(state);
                    let mut level = ::core::option::Option::Some(from_id);
                    while let ::core::option::Option::Some(at) = level {
                        match at {
                            StateId::Flow => {
                                if let Event::Cancel = event {
                                    let to = State::Waiting;
                                    let effect: ::core::option::Option<Effect> =
                                        ::core::option::Option::None;
                                    return ::core::result::Result::Ok(::rfsm::Plan {
                                        transition: Transition::Restarted,
                                        from: state.clone(),
                                        to,
                                        effect,
                                    });
                                }
                                if let Event::Accept { .. } = event {
                                    return ::core::result::Result::Err(
                                        ::rfsm::ProcessError::Rejected(Rejection::Duplicate)
                                    );
                                }
                            },
                            StateId::Waiting => {
                                if let (State::Waiting, Event::Accept { token, count }) =
                                    (state, event)
                                {
                                    if <Facts as GateContext>::allowed(context, token).await {
                                        let to = State::Ready {
                                            count: <Vec<u8> as ::core::clone::Clone>::clone(count),
                                            token: <Token as ::core::clone::Clone>::clone(token)
                                        };
                                        let effect: ::core::option::Option<Effect> =
                                            ::core::option::Option::Some(
                                                <Facts as GateContext>::record(
                                                    context, count, token
                                                ).await
                                            );
                                        return ::core::result::Result::Ok(::rfsm::Plan {
                                            transition: Transition::Accepted,
                                            from: state.clone(),
                                            to,
                                            effect,
                                        });
                                    }
                                }
                                if let (State::Waiting, Event::Accept { token, .. }) =
                                    (state, event)
                                {
                                    if <Facts as GateContext>::known(context, token) {
                                        return ::core::result::Result::Err(
                                            ::rfsm::ProcessError::Rejected(Rejection::Known)
                                        );
                                    }
                                }
                            },
                            StateId::Ready => {
                                if let (State::Ready { .. }, Event::Accept { .. }) =
                                    (state, event)
                                {
                                    return ::core::result::Result::Err(
                                        ::rfsm::ProcessError::Rejected(Rejection::Duplicate)
                                    );
                                }
                            }
                        }
                        level = Self::__parent(at);
                    }
                    ::core::result::Result::Err(::rfsm::ProcessError::Unhandled {
                        state: from_id,
                        event: event.clone(),
                    })
                }

                pub async fn process(&mut self, event: Event,) -> ::core::result::Result<
                    ::rfsm::Applied<State, Transition, Effect>,
                    ::rfsm::ProcessError<StateId, Event, Rejection>,
                > {
                    let plan = Self::evaluate(&self.state, &event, &self.context,).await?;
                    self.state = plan.to.clone();
                    ::core::result::Result::Ok(plan.confirm())
                }

                fn __state_id(state: &State) -> StateId {
                    match state {
                        State::Waiting => StateId::Waiting,
                        State::Ready { .. } => StateId::Ready,
                    }
                }

                fn __parent(state: StateId) -> ::core::option::Option<StateId> {
                    match state {
                        StateId::Flow => ::core::option::Option::None,
                        StateId::Waiting => ::core::option::Option::Some(StateId::Flow),
                        StateId::Ready => ::core::option::Option::Some(StateId::Flow),
                    }
                }
            }

            #[allow(missing_docs)]
            impl State {
                pub fn is_in(&self, ancestor: StateId) -> bool {
                    let mut current = ::core::option::Option::Some(r#Gate::__state_id(self));
                    while let ::core::option::Option::Some(state) = current {
                        if state == ancestor { return true; }
                        current = r#Gate::__parent(state);
                    }
                    false
                }
            }
        "#,
    );
    assert_eq!(found, expected);
}

#[test]
fn a_refused_definition_expands_to_its_messages() {
    let found = expand_text(
        r#"
            name: M,
            states: { *A, A },
            events: { Go },
            transitions: { Stayed: A + Go => A, Stayed: A + Go => A }
        "#,
    );
    let expected = lexed(
        r#"
            ::core::compile_error! { "duplicate state `A`" }
            ::core::compile_error! { "duplicate transition label `Stayed`" }
            ::core::compile_error! {
                "unreachable transition row: an earlier unguarded row handles every matching leaf/event pair"
            }
        "#,
    );
    assert_eq!(found, expected);
}

#[test]
fn a_definition_that_cannot_be_read_expands_to_one_message() {
    let found = expand_text("name: M, states: { *A }, events: { Go }");
    let expected = lexed(
        r#"::core::compile_error! { "unexpected end of input, missing required key `transitions`" }"#,
    );
    assert_eq!(found, expected);
}
