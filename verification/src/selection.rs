//! Which row of a table is selected for an event.
use crate::model::{flats, MachineDef};
use crate::table::Table;
use crate::validate::coverage::{applies, distance, precedes, row_covers_event, row_source_distance};
use crate::validate::states_of;
use crate::valid::{event_name, state_name};
use vstd::prelude::*;

verus! {

/// Whether row `r` is for event `e` in leaf `l`.
pub open spec fn row_applies(definition: MachineDef, l: int, e: int, r: int) -> bool {
    0 <= r < definition.rows@.len() && applies(
        definition.rows@[r],
        state_name(states_of(definition), l),
        event_name(definition, e),
        states_of(definition),
    )
}

/// Whether row `i` is tried before row `j` in leaf `l`.
pub open spec fn tried_before(definition: MachineDef, l: int, i: int, j: int) -> bool {
    precedes(definition.rows@, states_of(definition), state_name(states_of(definition), l), i, j)
}

/// Whether row `j` is for the event and is tried after row `after`, where one is given.
pub open spec fn is_candidate(
    definition: MachineDef,
    l: int,
    e: int,
    after: Option<usize>,
    j: int,
) -> bool {
    &&& row_applies(definition, l, e, j)
    &&& after matches Some(i) ==> tried_before(definition, l, i as int, j)
}

/// Whether row `j` is the one that is tried next after row `after`, or first where none is given.
pub open spec fn is_next(
    definition: MachineDef,
    l: int,
    e: int,
    after: Option<usize>,
    j: int,
) -> bool {
    &&& is_candidate(definition, l, e, after, j)
    &&& forall|k: int| #[trigger]
        is_candidate(definition, l, e, after, k) ==> k == j || tried_before(definition, l, j, k)
}

/// Whether no row is tried after row `after`, or none at all where none is given.
pub open spec fn is_last(definition: MachineDef, l: int, e: int, after: Option<usize>) -> bool {
    forall|k: int| !#[trigger] is_candidate(definition, l, e, after, k)
}

/// What selecting a row asks for.
#[derive(Clone, Copy, Debug, PartialEq, Eq, Structural)]
pub enum Step {
    /// The guard of a row has to be asked.
    Ask(usize),
    /// The row is selected: it has no guard.
    Take(usize),
    /// No row is left.
    Unhandled,
}

/// Whether a step is the right one after row `after` was refused by its guard, or at the start
/// where none is given.
pub open spec fn is_step(
    definition: MachineDef,
    l: int,
    e: int,
    after: Option<usize>,
    step: Step,
) -> bool {
    match step {
        Step::Ask(r) => is_next(definition, l, e, after, r as int) && definition.rows@[r as int].guard is Some,
        Step::Take(r) => is_next(definition, l, e, after, r as int) && definition.rows@[r as int].guard is None,
        Step::Unhandled => is_last(definition, l, e, after),
    }
}

/// Whether row `r` has no guard, or has one that said yes.
pub open spec fn passes(definition: MachineDef, verdict: spec_fn(int) -> bool, r: int) -> bool {
    definition.rows@[r].guard is None || verdict(r)
}

/// Whether row `r` is selected for event `e` in leaf `l`, where the guards answer as given: of
/// the rows for the event that pass, it is the one that is tried first.
pub open spec fn selects(
    definition: MachineDef,
    l: int,
    e: int,
    verdict: spec_fn(int) -> bool,
    r: int,
) -> bool {
    &&& row_applies(definition, l, e, r)
    &&& passes(definition, verdict, r)
    &&& forall|j: int| #[trigger]
        row_applies(definition, l, e, j) && passes(definition, verdict, j) ==> j == r
            || tried_before(definition, l, r, j)
}

/// Whether no row is selected: each row for the event has a guard that said no.
pub open spec fn selects_none(
    definition: MachineDef,
    l: int,
    e: int,
    verdict: spec_fn(int) -> bool,
) -> bool {
    forall|j: int| #[trigger]
        row_applies(definition, l, e, j) ==> !passes(definition, verdict, j)
}

/// How many of the first `n` rows are tried after row `after`.
pub open spec fn left(definition: MachineDef, l: int, e: int, after: Option<usize>, n: int) -> nat
    decreases n,
{
    if n <= 0 {
        0
    } else if is_candidate(definition, l, e, after, n - 1) {
        left(definition, l, e, after, n - 1) + 1
    } else {
        left(definition, l, e, after, n - 1)
    }
}

/// Each step leaves fewer rows to try.
pub proof fn lemma_fewer_left(
    definition: MachineDef,
    l: int,
    e: int,
    after: Option<usize>,
    next: usize,
    n: int,
)
    requires
        is_candidate(definition, l, e, after, next as int),
        0 <= n,
    ensures
        left(definition, l, e, Some(next), n) <= left(definition, l, e, after, n),
        next < n ==> left(definition, l, e, Some(next), n) < left(definition, l, e, after, n),
    decreases n,
{
    if n > 0 {
        lemma_fewer_left(definition, l, e, after, next, n - 1);
    }
}

/// The selection does not depend on how the rows are gone through: where the guards answer the
/// same, no two rows are selected, and some row is selected unless each row for the event has a
/// guard that said no.
pub proof fn selection_is_deterministic(
    definition: MachineDef,
    l: int,
    e: int,
    verdict: spec_fn(int) -> bool,
)
    ensures
        forall|i: int, j: int|
            #![trigger selects(definition, l, e, verdict, i), selects(definition, l, e, verdict, j)]
            selects(definition, l, e, verdict, i) && selects(definition, l, e, verdict, j) ==> i
                == j,
        selects_none(definition, l, e, verdict) <==> !exists|r: int|
            selects(definition, l, e, verdict, r),
{
    assert forall|i: int, j: int|
        #![trigger selects(definition, l, e, verdict, i), selects(definition, l, e, verdict, j)]
        selects(definition, l, e, verdict, i) && selects(definition, l, e, verdict, j) implies i
        == j by {
        assert(row_applies(definition, l, e, i));
        assert(row_applies(definition, l, e, j));
    }
    if !selects_none(definition, l, e, verdict) {
        let j = choose|j: int| #[trigger]
            row_applies(definition, l, e, j) && passes(definition, verdict, j);
        lemma_some_selected(definition, l, e, verdict, definition.rows@.len() as int, j);
        let r = choose|r: int| #[trigger]
            selects_among(definition, l, e, verdict, definition.rows@.len() as int, r);
        assert(selects(definition, l, e, verdict, r));
    } else if exists|r: int| selects(definition, l, e, verdict, r) {
        let r = choose|r: int| selects(definition, l, e, verdict, r);
        assert(row_applies(definition, l, e, r));
    }
}

/// Whether row `r` is tried first of those among the first `n` that pass.
spec fn selects_among(
    definition: MachineDef,
    l: int,
    e: int,
    verdict: spec_fn(int) -> bool,
    n: int,
    r: int,
) -> bool {
    &&& row_applies(definition, l, e, r)
    &&& passes(definition, verdict, r)
    &&& forall|j: int| #[trigger]
        row_applies(definition, l, e, j) && j < n && passes(definition, verdict, j) ==> j == r
            || tried_before(definition, l, r, j)
}

proof fn lemma_some_selected(
    definition: MachineDef,
    l: int,
    e: int,
    verdict: spec_fn(int) -> bool,
    n: int,
    some: int,
)
    requires
        row_applies(definition, l, e, some),
        passes(definition, verdict, some),
        0 <= n,
    ensures
        exists|r: int| #[trigger] selects_among(definition, l, e, verdict, n, r),
    decreases n,
{
    if n == 0 {
        assert(selects_among(definition, l, e, verdict, 0, some));
    } else {
        lemma_some_selected(definition, l, e, verdict, n - 1, some);
        let r = choose|r: int| #[trigger] selects_among(definition, l, e, verdict, n - 1, r);
        if row_applies(definition, l, e, n - 1) && passes(definition, verdict, n - 1)
            && tried_before(definition, l, n - 1, r) {
            assert(selects_among(definition, l, e, verdict, n, n - 1));
        } else {
            assert(selects_among(definition, l, e, verdict, n, r));
        }
    }
}

impl<'a> Table<'a> {
    /// Finds the row that is tried next after row `after`, or first where none is given.
    fn next_row(&self, leaf: usize, event: usize, after: Option<usize>) -> (found: Option<usize>)
        requires
            leaf < states_of(self.source()).len(),
            event < self.source().events@.len(),
            after matches Some(i) ==> row_applies(
                self.source(),
                leaf as int,
                event as int,
                i as int,
            ),
        ensures
            match found {
                Some(j) => is_next(self.source(), leaf as int, event as int, after, j as int),
                None => is_last(self.source(), leaf as int, event as int, after),
            },
    {
        let definition = self.definition();
        let states = self.states();
        let leaf_name = &states[leaf].node.variant.name.name;
        let event_text = &definition.events[event].name.name;
        let ghost def = self.source();
        let ghost l = leaf as int;
        let ghost e = event as int;
        let mut bound: usize = 0;
        let mut bound_row: usize = 0;
        if let Some(i) = after {
            bound_row = i;
            if let Some(d) = row_source_distance(&definition.rows[i], leaf_name, states) {
                bound = d;
            }
        }
        let mut best: Option<usize> = None;
        let mut best_distance: usize = 0;
        let mut j: usize = 0;
        while j < definition.rows.len()
            invariant
                j <= definition.rows@.len(),
                *definition == def,
                def == self.source(),
                flats(states@) == states_of(def),
                leaf_name@ == state_name(states_of(def), l),
                event_text@ == event_name(def, e),
                after matches Some(i) ==> bound_row == i && row_applies(def, l, e, i as int)
                    && distance(def.rows@[i as int], leaf_name@, states_of(def)) == Some(
                    bound as nat,
                ),
                best matches Some(b) ==> b < j && is_candidate(def, l, e, after, b as int)
                    && distance(def.rows@[b as int], leaf_name@, states_of(def)) == Some(
                    best_distance as nat,
                ) && forall|k: int|
                    k < j && #[trigger] is_candidate(def, l, e, after, k) ==> k == b
                        || tried_before(def, l, b as int, k),
                best is None ==> forall|k: int|
                    k < j ==> !#[trigger] is_candidate(def, l, e, after, k),
            decreases definition.rows@.len() - j,
        {
            let row = &definition.rows[j];
            if row_covers_event(row, event_text) {
                if let Some(d) = row_source_distance(row, leaf_name, states) {
                    let later = match after {
                        Some(_) => bound < d || bound == d && bound_row < j,
                        None => true,
                    };
                    assert(later == is_candidate(def, l, e, after, j as int));
                    let nearer = match best {
                        Some(_) => d < best_distance,
                        None => true,
                    };
                    if later && nearer {
                        best = Some(j);
                        best_distance = d;
                    }
                }
            }
            j = j + 1;
        }
        best
    }

    fn step_after(&self, leaf: usize, event: usize, after: Option<usize>) -> (step: Step)
        requires
            leaf < states_of(self.source()).len(),
            event < self.source().events@.len(),
            after matches Some(i) ==> row_applies(
                self.source(),
                leaf as int,
                event as int,
                i as int,
            ),
        ensures
            is_step(self.source(), leaf as int, event as int, after, step),
    {
        match self.next_row(leaf, event, after) {
            Some(r) => {
                if self.definition().rows[r].guard.is_some() {
                    Step::Ask(r)
                } else {
                    Step::Take(r)
                }
            },
            None => Step::Unhandled,
        }
    }

    /// The first step of selecting a row for an event in a leaf.
    pub fn first(&self, leaf: usize, event: usize) -> (step: Step)
        requires
            leaf < states_of(self.source()).len(),
            event < self.source().events@.len(),
        ensures
            is_step(self.source(), leaf as int, event as int, None, step),
    {
        self.step_after(leaf, event, None)
    }

    /// The step after the guard of a row said no.
    pub fn refused(&self, leaf: usize, event: usize, row: usize) -> (step: Step)
        requires
            leaf < states_of(self.source()).len(),
            event < self.source().events@.len(),
            row_applies(self.source(), leaf as int, event as int, row as int),
        ensures
            is_step(self.source(), leaf as int, event as int, Some(row), step),
    {
        self.step_after(leaf, event, Some(row))
    }

    /// Selects a row for an event in a leaf, where the guards of the rows answer as given.
    pub fn select(&self, leaf: usize, event: usize, verdicts: &Vec<bool>) -> (selected: Option<
        usize,
    >)
        requires
            leaf < states_of(self.source()).len(),
            event < self.source().events@.len(),
            verdicts@.len() == self.source().rows@.len(),
        ensures
            match selected {
                Some(r) => selects(
                    self.source(),
                    leaf as int,
                    event as int,
                    |i: int| verdicts@[i],
                    r as int,
                ),
                None => selects_none(
                    self.source(),
                    leaf as int,
                    event as int,
                    |i: int| verdicts@[i],
                ),
            },
    {
        let ghost def = self.source();
        let ghost l = leaf as int;
        let ghost e = event as int;
        let ghost verdict = |i: int| verdicts@[i];
        let ghost mut after: Option<usize> = None;
        let mut step = self.first(leaf, event);
        loop
            invariant
                def == self.source(),
                l == leaf,
                e == event,
                leaf < states_of(def).len(),
                event < def.events@.len(),
                verdicts@.len() == def.rows@.len(),
                verdict == (|i: int| verdicts@[i]),
                is_step(def, l, e, after, step),
                after matches Some(i) ==> row_applies(def, l, e, i as int),
                forall|j: int| #[trigger]
                    row_applies(def, l, e, j) && !is_candidate(def, l, e, after, j) ==> !passes(
                        def,
                        verdict,
                        j,
                    ),
            decreases left(def, l, e, after, def.rows@.len() as int),
        {
            match step {
                Step::Unhandled => {
                    return None;
                },
                Step::Take(r) => {
                    proof {
                        lemma_first_passing(def, l, e, verdict, after, r);
                    }
                    return Some(r);
                },
                Step::Ask(r) => {
                    if verdicts[r] {
                        proof {
                            lemma_first_passing(def, l, e, verdict, after, r);
                        }
                        return Some(r);
                    }
                    step = self.refused(leaf, event, r);
                    proof {
                        lemma_fewer_left(def, l, e, after, r, def.rows@.len() as int);
                        assert forall|j: int| #[trigger]
                            row_applies(def, l, e, j) && !is_candidate(
                                def,
                                l,
                                e,
                                Some(r),
                                j,
                            ) implies !passes(def, verdict, j) by {
                            if is_candidate(def, l, e, after, j) {
                                assert(j == r);
                            }
                        }
                        after = Some(r);
                    }
                },
            }
        }
    }
}

/// A row that passes and is tried next after rows that do not is the selected one.
proof fn lemma_first_passing(
    definition: MachineDef,
    l: int,
    e: int,
    verdict: spec_fn(int) -> bool,
    after: Option<usize>,
    r: usize,
)
    requires
        is_next(definition, l, e, after, r as int),
        passes(definition, verdict, r as int),
        forall|j: int| #[trigger]
            row_applies(definition, l, e, j) && !is_candidate(definition, l, e, after, j)
                ==> !passes(definition, verdict, j),
    ensures
        selects(definition, l, e, verdict, r as int),
{
    assert forall|j: int| #[trigger]
        row_applies(definition, l, e, j) && passes(definition, verdict, j) implies j == r
        || tried_before(definition, l, r as int, j) by {
        assert(is_candidate(definition, l, e, after, j));
    }
}

} // verus!
