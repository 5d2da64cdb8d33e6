//! A valid definition with its states listed, ready to be run.
use crate::error::Error;
use crate::model::{flats, flatten_states, FlatState, MachineDef};
use crate::token::Ident;
use crate::valid::valid;
use crate::validate::{describes, states_of, table_of, validate, validation_errors, Validated};
use vstd::prelude::*;

verus! {

/// A valid definition with its states listed, ready to be run.
pub struct Table<'a> {
    definition: &'a MachineDef,
    states: Vec<FlatState<'a>>,
    validated: Validated,
}

impl<'a> Table<'a> {
    #[verifier::type_invariant]
    spec fn well_formed(self) -> bool {
        &&& valid(*self.definition)
        &&& flats(self.states@) == states_of(*self.definition)
        &&& describes(self.validated, *self.definition)
    }

    /// The definition that the table was made from.
    pub closed spec fn source(self) -> MachineDef {
        *self.definition
    }

    /// Checks a definition and lists its states.
    pub fn new(definition: &'a MachineDef) -> (result: Result<Table<'a>, Error>)
        ensures
            result is Ok <==> valid(*definition),
            result matches Ok(table) ==> table.source() == *definition,
            result matches Err(error) ==> error@ == validation_errors(*definition),
    {
        match validate(definition) {
            Ok(validated) => {
                let states = flatten_states(definition.states.as_slice());
                Ok(Table { definition, states, validated })
            },
            Err(error) => Err(error),
        }
    }

    /// The definition that the table was made from.
    pub fn definition(&self) -> (definition: &'a MachineDef)
        ensures
            *definition == self.source(),
            valid(self.source()),
    {
        proof {
            use_type_invariant(self);
        }
        self.definition
    }

    /// The states in declaration order, each parent before its children. A state is known by its
    /// position in this list.
    pub fn states(&self) -> (states: &Vec<FlatState<'a>>)
        ensures
            flats(states@) == states_of(self.source()),
            states@.len() == states_of(self.source()).len(),
            forall|i: int| 0 <= i < states@.len() ==> (#[trigger] states@[i])@ == states_of(self.source())[i],
    {
        proof {
            use_type_invariant(self);
            assert forall|i: int| 0 <= i < self.states@.len() implies (
            #[trigger] self.states@[i])@ == states_of(self.source())[i] by {
                assert(flats(self.states@)[i] == self.states@[i]@);
            }
        }
        &self.states
    }

    /// The transition labels. A transition is known by the position of its label in this list.
    pub fn transitions(&self) -> (labels: &Vec<Ident>)
        ensures
            labels@ == table_of(self.source()).transitions,
    {
        proof {
            use_type_invariant(self);
        }
        &self.validated.transitions
    }

    /// The rejection reasons. A reason is known by its position in this list.
    pub fn rejections(&self) -> (reasons: &Vec<Ident>)
        ensures
            reasons@ == table_of(self.source()).rejections,
    {
        proof {
            use_type_invariant(self);
        }
        &self.validated.rejections
    }
}

} // verus!
