//! Finite state machines declared as one state tree and one transition table.
//!
//! [`parse_str`] and [`parse_stream`] read a definition, [`validate`] checks it, and [`expand`]
//! writes the Rust code of its machine; [`machine`] does all three. A [`Table`] is a valid
//! definition that is run as it is: a [`Machine`] handles events with it, one by one.
pub mod bindings;
pub mod code;
pub mod error;
pub mod evaluate;
pub mod expand;
pub mod invoke;
pub mod laws;
pub mod machine;
pub mod meaning;
pub mod model;
pub mod order;
pub mod outcome;
pub mod parse;
pub mod runtime;
pub mod selection;
pub mod state;
pub mod table;
pub mod template;
pub mod text;
pub mod token;
pub mod types;
pub mod valid;
pub mod validate;
pub mod views;

pub use code::{code_stream, Code};
pub use error::{combine, Error, Message};
pub use expand::{expand, expand_code};
pub use invoke::machine;
pub use machine::Machine;
pub use model::{
    flatten_states, BindingPattern, Callable, CallableRole, FieldDef, FlatState, MachineDef, Row,
    RowEvent, RowOutcome, RowSource, StateNode, TargetField, TargetState, Type, VariantDef,
};
pub use parse::{parse, parse_str, parse_stream};
pub use runtime::{Applied, Plan, ProcessError};
pub use selection::Step;
pub use serde;
pub use state::{Context, Event, NoContext, State};
pub use table::Table;
pub use token::{read_tokens, Delimiter, Ident, Token};
pub use validate::callables::CallableDef;
pub use validate::{validate, Validated};
