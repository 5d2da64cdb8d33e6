//! Where the names that the code of a row uses come from.
use crate::bindings::{event_binds, source_binds, target_of};
use crate::code::CodeView;
use crate::expand::rows::{event_code, source_code};
use crate::meaning::blocks::{
    event_patterns_bind_the_listed_fields, is_event_named, is_state_named, listed_names,
    source_patterns_bind_the_listed_fields,
};
use crate::meaning::fitting::{declares, pattern_fits, row_binds, row_fits, target_fits};
use crate::meaning::making::{arguments_fit, used, valid_definitions_make_machines};
use crate::meaning::writing::{marks, name_marks, Mark};
use crate::model::{CallableRole, MachineDef};
use crate::token::{Delimiter, Ident};
use crate::valid::valid;
use crate::validate::lookup::named;
use crate::validate::states_of;
use vstd::prelude::*;

verus! {

/// Whether a name stands in the braces of a pattern.
pub open spec fn is_in_braces(code: Seq<CodeView>, name: Ident) -> bool {
    &&& code.len() == 3
    &&& code[2] matches CodeView::Group(Delimiter::Brace, inner)
    &&& exists|i: int|
        0 <= i < marks(inner).len() && (#[trigger] marks(inner)[i] matches Mark::Name(found)
            && found.name@ == name.name@)
}

/// Whether a row uses a name: as an argument of its guard or its effect, or to fill a field of its
/// target, where that is a leaf with a payload.
pub open spec fn uses_name(definition: MachineDef, r: int, name: Ident) -> bool {
    ||| exists|role: CallableRole, i: int| #[trigger]
        is_argument(definition, r, role, i, name)
    ||| exists|k: int, i: int| #[trigger] is_filled_from(definition, r, k, i, name)
}

/// Whether a name is an argument of a callback of a row.
pub open spec fn is_argument(
    definition: MachineDef,
    r: int,
    role: CallableRole,
    i: int,
    name: Ident,
) -> bool {
    used(definition, r, role) matches Some(callable) && 0 <= i < callable.arguments@.len()
        && callable.arguments@[i] == name
}

/// Whether a field of the target of a row is filled from a name.
pub open spec fn is_filled_from(definition: MachineDef, r: int, k: int, i: int, name: Ident) -> bool {
    &&& target_of(definition.rows@[r]) matches Some(target)
    &&& is_state_named(states_of(definition), target.name, k)
    &&& states_of(definition)[k].node.children@.len() == 0
    &&& states_of(definition)[k].node.variant.fields@.len() > 0
    &&& 0 <= i < target.fields@.len()
    &&& target.fields@[i].binding == name
}

proof fn lemma_listed(names: Seq<Ident>, inner: Seq<CodeView>, name: Ident)
    requires
        marks(inner) == name_marks(names),
        named(names, names.len() as int, name.name@),
    ensures
        exists|i: int|
            0 <= i < marks(inner).len() && (#[trigger] marks(inner)[i] matches Mark::Name(found)
                && found.name@ == name.name@),
{
    let i = choose|i: int| 0 <= i < names.len() && (#[trigger] names[i]).name@ == name.name@;
    assert(marks(inner)[i] == Mark::Name(names[i]));
}

/// Each name that the code of a row uses stands in the braces of the pattern that is matched with
/// the state, or in those of the pattern that is matched with the event: in the former exactly
/// where the source of the row lists it.
pub proof fn used_names_are_bound_by_the_patterns(definition: MachineDef, r: int, name: Ident)
    requires
        valid(definition),
        states_of(definition).len() <= usize::MAX,
        0 <= r < definition.rows@.len(),
        uses_name(definition, r, name),
    ensures
        source_binds(definition.rows@[r], name.name@) || event_binds(
            definition.rows@[r],
            name.name@,
        ),
        source_binds(definition.rows@[r], name.name@) ==> (source_code(
            definition.rows@[r],
            states_of(definition),
        ) matches Ok(Some(code)) && is_in_braces(code, name)),
        event_binds(definition.rows@[r], name.name@) ==> (event_code(
            definition.rows@[r],
            definition.events@,
        ) matches Ok(Some(code)) && is_in_braces(code, name)),
{
    let row = definition.rows@[r];
    let states = states_of(definition);
    valid_definitions_make_machines(definition);
    assert(row_fits(row, states, definition.events@));
    if exists|role: CallableRole, i: int| #[trigger] is_argument(definition, r, role, i, name) {
        let (role, i) = choose|role: CallableRole, i: int| #[trigger]
            is_argument(definition, r, role, i, name);
        let callable = used(definition, r, role)->0;
        assert(arguments_fit(definition, r, callable));
        assert(row_binds(row, callable.arguments@[i]));
    } else {
        let (k, i) = choose|k: int, i: int| #[trigger] is_filled_from(definition, r, k, i, name);
        let target = target_of(row)->0;
        let j = choose|j: int| #[trigger]
            is_state_named(states, target.name, j) && target_fits(row, target, states[j].node);
        assert(states[j].node.variant.name.name@ == states[k].node.variant.name.name@);
        assert(j == k);
        assert(row_binds(row, target.fields@[i].binding));
    }
    if source_binds(row, name.name@) {
        let pattern = row.source->State_0;
        let k = choose|k: int| #[trigger]
            is_state_named(states, pattern.name, k) && if states[k].node.children@.len() > 0 {
                !pattern.explicit_fields
            } else {
                pattern_fits(pattern, states[k].node.variant)
            };
        source_patterns_bind_the_listed_fields(row, states, k);
        let i = choose|i: int|
            0 <= i < pattern.fields@.len() && (#[trigger] pattern.fields@[i]).name@ == name.name@;
        assert(declares(states[k].node.variant, pattern.fields@[i]));
        let code = source_code(row, states)->Ok_0->0;
        lemma_listed(listed_names(pattern), code[2]->Group_1, name);
    }
    if event_binds(row, name.name@) {
        let pattern = row.event->Event_0;
        let k = choose|k: int| #[trigger]
            is_event_named(definition.events@, pattern.name, k) && pattern_fits(
                pattern,
                definition.events@[k],
            );
        event_patterns_bind_the_listed_fields(row, definition.events@, k);
        let i = choose|i: int|
            0 <= i < pattern.fields@.len() && (#[trigger] pattern.fields@[i]).name@ == name.name@;
        assert(declares(definition.events@[k], pattern.fields@[i]));
        let code = event_code(row, definition.events@)->Ok_0->0;
        lemma_listed(listed_names(pattern), code[2]->Group_1, name);
    }
}

} // verus!
