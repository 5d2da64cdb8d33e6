//! Looking names up among declarations.
use crate::model::{flats, FieldDef, Flat, FlatState, VariantDef};
use crate::token::Ident;
use vstd::prelude::*;

verus! {

/// Whether one of the first `n` identifiers is the name.
pub open spec fn named(idents: Seq<Ident>, n: int, name: Seq<char>) -> bool {
    exists|j: int| 0 <= j < n && (#[trigger] idents[j]).name@ == name
}

/// Whether one of the first `n` fields has the name.
pub open spec fn has_field(fields: Seq<FieldDef>, n: int, name: Seq<char>) -> bool {
    exists|j: int| 0 <= j < n && (#[trigger] fields[j]).name.name@ == name
}

/// Whether one of the first `n` states has the name.
pub open spec fn has_state(states: Seq<Flat>, n: int, name: Seq<char>) -> bool {
    exists|j: int| 0 <= j < n && (#[trigger] states[j]).node.variant.name.name@ == name
}

/// Whether one of the first `n` events has the name.
pub open spec fn has_event(events: Seq<VariantDef>, n: int, name: Seq<char>) -> bool {
    exists|j: int| 0 <= j < n && (#[trigger] events[j]).name.name@ == name
}

/// The last of the first `n` positions at which something holds.
pub open spec fn last_index(n: int, holds: spec_fn(int) -> bool) -> Option<int>
    decreases n,
{
    if n <= 0 {
        None
    } else if holds(n - 1) {
        Some(n - 1)
    } else {
        last_index(n - 1, holds)
    }
}

/// The positions of the fields that have the name.
pub open spec fn field_named(fields: Seq<FieldDef>, name: Seq<char>) -> spec_fn(int) -> bool {
    |k: int| fields[k].name.name@ == name
}

/// The last of the first `n` fields that has the name.
pub open spec fn last_field(fields: Seq<FieldDef>, n: int, name: Seq<char>) -> Option<int> {
    last_index(n, field_named(fields, name))
}

/// The positions of the states that have the name.
pub open spec fn state_named(states: Seq<Flat>, name: Seq<char>) -> spec_fn(int) -> bool {
    |k: int| states[k].node.variant.name.name@ == name
}

/// The last of the first `n` states that has the name.
pub open spec fn last_state(states: Seq<Flat>, n: int, name: Seq<char>) -> Option<int> {
    last_index(n, state_named(states, name))
}

/// The positions of the events that have the name.
pub open spec fn event_named(events: Seq<VariantDef>, name: Seq<char>) -> spec_fn(int) -> bool {
    |k: int| events[k].name.name@ == name
}

/// The last of the first `n` events that has the name.
pub open spec fn last_event(events: Seq<VariantDef>, n: int, name: Seq<char>) -> Option<int> {
    last_index(n, event_named(events, name))
}

proof fn lemma_last_index(n: int, holds: spec_fn(int) -> bool)
    ensures
        last_index(n, holds) matches Some(k) ==> 0 <= k < n && holds(k),
        forall|j: int| 0 <= j < n && #[trigger] holds(j) ==> last_index(n, holds) is Some,
    decreases n,
{
    if n > 0 {
        lemma_last_index(n - 1, holds);
    }
}

/// A lookup finds a field exactly where there is one, and what it finds has the name.
pub proof fn lemma_last_field(fields: Seq<FieldDef>, n: int, name: Seq<char>)
    ensures
        last_field(fields, n, name) is Some <==> has_field(fields, n, name),
        last_field(fields, n, name) matches Some(k) ==> 0 <= k < n && fields[k].name.name@ == name,
{
    let holds = field_named(fields, name);
    lemma_last_index(n, holds);
    if has_field(fields, n, name) {
        let j = choose|j: int| 0 <= j < n && (#[trigger] fields[j]).name.name@ == name;
        assert(holds(j));
    }
}

/// A lookup finds a state exactly where there is one, and what it finds has the name.
pub proof fn lemma_last_state(states: Seq<Flat>, n: int, name: Seq<char>)
    ensures
        last_state(states, n, name) is Some <==> has_state(states, n, name),
        last_state(states, n, name) matches Some(k) ==> 0 <= k < n
            && states[k].node.variant.name.name@ == name,
{
    let holds = state_named(states, name);
    lemma_last_index(n, holds);
    if has_state(states, n, name) {
        let j = choose|j: int| 0 <= j < n && (#[trigger] states[j]).node.variant.name.name@ == name;
        assert(holds(j));
    }
}

/// A lookup finds an event exactly where there is one, and what it finds has the name.
pub proof fn lemma_last_event(events: Seq<VariantDef>, n: int, name: Seq<char>)
    ensures
        last_event(events, n, name) is Some <==> has_event(events, n, name),
        last_event(events, n, name) matches Some(k) ==> 0 <= k < n && events[k].name.name@ == name,
{
    let holds = event_named(events, name);
    lemma_last_index(n, holds);
    if has_event(events, n, name) {
        let j = choose|j: int| 0 <= j < n && (#[trigger] events[j]).name.name@ == name;
        assert(holds(j));
    }
}

/// Finds the last of the first `n` fields that has the name.
pub fn find_field(fields: &Vec<FieldDef>, n: usize, name: &String) -> (found: Option<usize>)
    requires
        n <= fields@.len(),
    ensures
        found is Some <==> last_field(fields@, n as int, name@) is Some,
        found matches Some(k) ==> last_field(fields@, n as int, name@) == Some(k as int) && k < n,
        found is Some <==> has_field(fields@, n as int, name@),
{
    let mut i: usize = n;
    proof {
        lemma_last_field(fields@, n as int, name@);
    }
    while i > 0
        invariant
            i <= n <= fields@.len(),
            last_field(fields@, n as int, name@) == last_field(fields@, i as int, name@),
            last_field(fields@, n as int, name@) is Some <==> has_field(
                fields@,
                n as int,
                name@,
            ),
        decreases i,
    {
        i = i - 1;
        if fields[i].name.name == *name {
            return Some(i);
        }
    }
    None
}

/// Finds the last state that has the name.
pub fn find_state<'a>(states: &Vec<FlatState<'a>>, n: usize, name: &String) -> (found: Option<
    usize,
>)
    requires
        n <= states@.len(),
    ensures
        found is Some <==> last_state(flats(states@), n as int, name@) is Some,
        found matches Some(k) ==> last_state(flats(states@), n as int, name@) == Some(k as int)
            && k < n,
        found is Some <==> has_state(flats(states@), n as int, name@),
{
    let mut i: usize = n;
    let ghost all = flats(states@);
    proof {
        lemma_last_state(all, n as int, name@);
    }
    while i > 0
        invariant
            i <= n <= states@.len(),
            all == flats(states@),
            last_state(all, n as int, name@) == last_state(all, i as int, name@),
            last_state(all, n as int, name@) is Some <==> has_state(all, n as int, name@),
        decreases i,
    {
        i = i - 1;
        assert(all[i as int].node == states@[i as int].node);
        if states[i].node.variant.name.name == *name {
            return Some(i);
        }
    }
    None
}

/// Finds the last event that has the name.
pub fn find_event(events: &Vec<VariantDef>, n: usize, name: &String) -> (found: Option<usize>)
    requires
        n <= events@.len(),
    ensures
        found is Some <==> last_event(events@, n as int, name@) is Some,
        found matches Some(k) ==> last_event(events@, n as int, name@) == Some(k as int) && k < n,
        found is Some <==> has_event(events@, n as int, name@),
{
    let mut i: usize = n;
    proof {
        lemma_last_event(events@, n as int, name@);
    }
    while i > 0
        invariant
            i <= n <= events@.len(),
            last_event(events@, n as int, name@) == last_event(events@, i as int, name@),
            last_event(events@, n as int, name@) is Some <==> has_event(
                events@,
                n as int,
                name@,
            ),
        decreases i,
    {
        i = i - 1;
        if events[i].name.name == *name {
            return Some(i);
        }
    }
    None
}

/// Whether one of the first `n` identifiers is the name.
pub fn is_named(idents: &Vec<Ident>, n: usize, name: &String) -> (found: bool)
    requires
        n <= idents@.len(),
    ensures
        found == named(idents@, n as int, name@),
{
    let mut i: usize = 0;
    while i < n
        invariant
            i <= n <= idents@.len(),
            !named(idents@, i as int, name@),
        decreases n - i,
    {
        if idents[i].name == *name {
            assert(idents@[i as int].name@ == name@);
            return true;
        }
        i = i + 1;
    }
    false
}

} // verus!
