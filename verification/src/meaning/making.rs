//! Which definitions make a machine.
use crate::meaning::blocks::{event_names_differ, field_names_differ, state_names_differ};
use crate::meaning::callbacks::{
    arguments_have_the_types_of_their_fields, is_bound, is_known, keys_of, lemma_first_callable,
    stands_for, takes_bound_names, uses_of_a_callback_must_agree,
};
use crate::meaning::declaring::{
    can_be_entered, event_names_must_differ, groups_must_be_enterable, state_names_must_differ,
};
use crate::meaning::fitting::{binds_field, names_differ, row_binds, row_fits, rows_must_fit};
use crate::meaning::levels::{goes_before, is_taken, the_table_is_read_by_the_tree};
use crate::meaning::telling::{lemma_picked, picked};
use crate::model::{flattened, Callable, CallableRole, FieldDef, MachineDef, Type};
use crate::token::Ident;
use crate::valid::{bindings_of, effect_noted, guard_noted, label_of, state_name, valid};
use crate::validate::callables::{first_callable, type_key, typed_arguments, CallableView};
use crate::validate::coverage::{
    applies, coverage_errors, handled, missing_events, missing_pairs, reachable, reached_at,
    shadows, unreachable_errors,
};
use crate::validate::declarations::{declaration_errors, event_errors, initial_errors, state_errors};
use crate::validate::lookup::{has_field, named};
use crate::validate::rows::row_check;
use crate::validate::{
    collected, context_errors, effect_errors, first_effect, labels_with, noted_use, outcome_errors,
    states_of, table_of, validation_errors,
};
use vstd::prelude::*;

verus! {

/// The callback that a row uses in a role, where it uses one.
pub open spec fn used(definition: MachineDef, r: int, role: CallableRole) -> Option<Callable> {
    match role {
        CallableRole::Guard => definition.rows@[r].guard,
        CallableRole::Effect => definition.rows@[r].effect,
    }
}

/// Whether the arguments of a callback are different names that its row binds.
pub open spec fn arguments_fit(definition: MachineDef, r: int, callable: Callable) -> bool {
    &&& names_differ(callable.arguments@)
    &&& forall|i: int|
        0 <= i < callable.arguments@.len() ==> row_binds(
            definition.rows@[r],
            #[trigger] callable.arguments@[i],
        )
}

/// Whether two uses of one callback agree: they have one role and one mode, and as many arguments,
/// which stand for fields of the same types, position by position.
pub open spec fn uses_agree(
    definition: MachineDef,
    r: int,
    role: CallableRole,
    s: int,
    other: CallableRole,
) -> bool {
    match (used(definition, r, role), used(definition, s, other)) {
        (Some(one), Some(two)) => one.name.name@ == two.name.name@ ==> {
            &&& role == other
            &&& one.is_async == two.is_async
            &&& one.arguments@.len() == two.arguments@.len()
            &&& forall|i: int, left: FieldDef, right: FieldDef|
                0 <= i < one.arguments@.len() && #[trigger] binds_field(
                    definition,
                    r,
                    one.arguments@[i],
                    left,
                ) && #[trigger] binds_field(definition, s, two.arguments@[i], right) ==> type_key(
                    left.ty,
                ) == type_key(right.ty)
        },
        _ => true,
    }
}

/// Whether two rows do not accept under one label.
pub open spec fn labels_differ(definition: MachineDef) -> bool {
    forall|r: int, s: int|
        0 <= r < s < definition.rows@.len() ==> (match (
            label_of((#[trigger] definition.rows@[r]).outcome),
            label_of((#[trigger] definition.rows@[s]).outcome),
        ) {
            (Some(one), Some(other)) => one.name@ != other.name@,
            _ => true,
        })
}

/// Whether an unguarded row takes an event in a leaf before row `r` can.
pub open spec fn is_kept_from(definition: MachineDef, l: int, e: int, r: int) -> bool {
    exists|j: int|
        0 <= j < definition.rows@.len() && definition.rows@[j].guard is None && #[trigger] is_taken(
            definition,
            l,
            e,
            j,
        ) && goes_before(definition, l, j, r)
}

/// Whether row `r` can be selected for an event in a leaf.
pub open spec fn can_be_selected(definition: MachineDef, l: int, e: int, r: int) -> bool {
    &&& is_leaf(definition, l)
    &&& 0 <= e < definition.events@.len()
    &&& is_taken(definition, l, e, r)
    &&& !is_kept_from(definition, l, e, r)
}

/// Whether a listed state is a leaf.
pub open spec fn is_leaf(definition: MachineDef, l: int) -> bool {
    0 <= l < states_of(definition).len() && states_of(definition)[l].node.children@.len() == 0
}

/// Whether some row is for an event in a leaf.
pub open spec fn is_handled(definition: MachineDef, l: int, e: int) -> bool {
    exists|r: int| 0 <= r < definition.rows@.len() && #[trigger] is_taken(definition, l, e, r)
}

/// Whether a row can be selected for some event in some leaf.
pub open spec fn is_of_use(definition: MachineDef, r: int) -> bool {
    exists|l: int, e: int| #[trigger] can_be_selected(definition, l, e, r)
}

/// Whether the declarations of a definition are sound: there are states and events, names are given
/// once, and each group of states can be entered.
pub open spec fn is_declared_well(definition: MachineDef) -> bool {
    &&& definition.states@.len() > 0
    &&& definition.events@.len() > 0
    &&& state_names_differ(states_of(definition))
    &&& event_names_differ(definition.events@)
    &&& forall|i: int|
        0 <= i < states_of(definition).len() ==> field_names_differ(
            (#[trigger] states_of(definition)[i]).node.variant,
        )
    &&& forall|i: int|
        0 <= i < definition.events@.len() ==> field_names_differ(#[trigger] definition.events@[i])
    &&& can_be_entered(definition.states@)
}

/// Whether the arguments of all callbacks fit.
pub open spec fn all_arguments_fit(definition: MachineDef) -> bool {
    forall|r: int, role: CallableRole|
        0 <= r < definition.rows@.len() ==> (#[trigger] used(definition, r, role) matches Some(
            callable,
        ) ==> arguments_fit(definition, r, callable))
}

/// Whether any two uses of one callback agree.
pub open spec fn all_uses_agree(definition: MachineDef) -> bool {
    forall|r: int, role: CallableRole, s: int, other: CallableRole|
        0 <= r < definition.rows@.len() && 0 <= s < definition.rows@.len() ==> #[trigger] uses_agree(
            definition,
            r,
            role,
            s,
            other,
        )
}

/// Whether a definition with callbacks has a context type, and one with effects an effect type.
pub open spec fn types_are_given(definition: MachineDef) -> bool {
    forall|r: int, role: CallableRole|
        0 <= r < definition.rows@.len() && #[trigger] used(definition, r, role) is Some
            ==> definition.context is Some && (role is Effect ==> definition.effect is Some)
}

/// Whether all rows fit.
pub open spec fn all_rows_fit(definition: MachineDef) -> bool {
    forall|r: int|
        0 <= r < definition.rows@.len() ==> row_fits(
            #[trigger] definition.rows@[r],
            states_of(definition),
            definition.events@,
        )
}

/// Whether the callbacks of a definition are used well: their arguments fit, two uses of one agree,
/// and the types that they need are given.
pub open spec fn callbacks_fit(definition: MachineDef) -> bool {
    all_arguments_fit(definition) && all_uses_agree(definition) && types_are_given(definition)
}

/// Whether a definition makes a machine: its declarations are sound, its rows fit them, labels are
/// given once, callbacks are used well, each event is handled in each leaf, and each row is of use.
pub open spec fn makes_a_machine(definition: MachineDef) -> bool {
    &&& is_declared_well(definition)
    &&& all_rows_fit(definition)
    &&& labels_differ(definition)
    &&& callbacks_fit(definition)
    &&& forall|l: int, e: int|
        is_leaf(definition, l) && 0 <= e < definition.events@.len() ==> #[trigger] is_handled(
            definition,
            l,
            e,
        )
    &&& forall|r: int|
        0 <= r < definition.rows@.len() ==> #[trigger] is_of_use(definition, r)
}

/// Whether row `r` gives no message.
spec fn row_is_quiet(definition: MachineDef, r: int) -> bool {
    &&& row_check(
        definition.rows@[r],
        states_of(definition),
        definition.events@,
    ).errors.len() == 0
    &&& outcome_errors(
        collected(definition, r).transitions,
        definition.rows@[r].outcome,
    ).len() == 0
    &&& guard_noted(definition, r).errors.len() == 0
    &&& effect_noted(definition, r).errors.len() == 0
}

proof fn lemma_collected(definition: MachineDef, n: int)
    requires
        0 <= n <= definition.rows@.len(),
    ensures
        collected(definition, n).errors.len() == 0 <==> (forall|r: int|
            0 <= r < n ==> #[trigger] row_is_quiet(definition, r)),
    decreases n,
{
    if n > 0 {
        lemma_collected(definition, n - 1);
        let before = collected(definition, n - 1);
        let row = definition.rows@[n - 1];
        let check = row_check(row, states_of(definition), definition.events@);
        let outcome = outcome_errors(before.transitions, row.outcome);
        let guard = guard_noted(definition, n - 1);
        let effect = effect_noted(definition, n - 1);
        assert(collected(definition, n).errors == before.errors + check.errors + outcome
            + guard.errors + effect.errors);
        assert(collected(definition, n).errors.len() == before.errors.len() + check.errors.len()
            + outcome.len() + guard.errors.len() + effect.errors.len());
        assert(row_is_quiet(definition, n - 1) <==> check.errors.len() == 0 && outcome.len() == 0
            && guard.errors.len() == 0 && effect.errors.len() == 0);
    }
}

proof fn lemma_labels_known(definition: MachineDef, n: int, name: Seq<char>)
    requires
        0 <= n <= definition.rows@.len(),
    ensures
        named(
            collected(definition, n).transitions,
            collected(definition, n).transitions.len() as int,
            name,
        ) <==> exists|r: int|
            0 <= r < n && (label_of((#[trigger] definition.rows@[r]).outcome) matches Some(label)
                && label.name@ == name),
    decreases n,
{
    if n > 0 {
        lemma_labels_known(definition, n - 1, name);
        let before = collected(definition, n - 1).transitions;
        let after = collected(definition, n).transitions;
        let outcome = definition.rows@[n - 1].outcome;
        assert(after == labels_with(before, outcome));
        if named(before, before.len() as int, name) {
            let j = choose|j: int| 0 <= j < before.len() && (#[trigger] before[j]).name@ == name;
            assert(after[j] == before[j]);
        }
        if named(after, after.len() as int, name) {
            let j = choose|j: int| 0 <= j < after.len() && (#[trigger] after[j]).name@ == name;
            if j < before.len() {
                assert(before[j] == after[j]);
            }
        }
        if let Some(label) = label_of(outcome) {
            if label.name@ == name {
                if named(before, before.len() as int, name) {
                } else {
                    assert(after[before.len() as int] == label);
                }
                assert(label_of(definition.rows@[n - 1].outcome) == Some(label));
            }
        }
    }
}

proof fn lemma_labels(definition: MachineDef)
    ensures
        labels_differ(definition) <==> (forall|r: int|
            0 <= r < definition.rows@.len() ==> outcome_errors(
                collected(definition, r).transitions,
                (#[trigger] definition.rows@[r]).outcome,
            ).len() == 0),
{
    let n = definition.rows@.len() as int;
    if labels_differ(definition) {
        assert forall|r: int| 0 <= r < n implies outcome_errors(
            collected(definition, r).transitions,
            (#[trigger] definition.rows@[r]).outcome,
        ).len() == 0 by {
            if let Some(label) = label_of(definition.rows@[r].outcome) {
                lemma_labels_known(definition, r, label.name@);
            }
        }
    }
    if forall|r: int|
        0 <= r < n ==> outcome_errors(
            collected(definition, r).transitions,
            (#[trigger] definition.rows@[r]).outcome,
        ).len() == 0 {
        assert forall|r: int, s: int| 0 <= r < s < n implies (match (
            label_of((#[trigger] definition.rows@[r]).outcome),
            label_of((#[trigger] definition.rows@[s]).outcome),
        ) {
            (Some(one), Some(other)) => one.name@ != other.name@,
            _ => true,
        }) by {
            if let Some(label) = label_of(definition.rows@[s].outcome) {
                lemma_labels_known(definition, s, label.name@);
                assert(outcome_errors(
                    collected(definition, s).transitions,
                    definition.rows@[s].outcome,
                ).len() == 0);
            }
        }
    }
}

/// The role of a use, where the uses are counted through the table: the guard and the effect of the
/// first row, those of the second, and so on.
pub open spec fn role_at(u: int) -> CallableRole {
    if u % 2 == 0 {
        CallableRole::Guard
    } else {
        CallableRole::Effect
    }
}

/// The callback of a use, where the row has one there.
pub open spec fn use_at(definition: MachineDef, u: int) -> Option<Callable> {
    used(definition, u / 2, role_at(u))
}

spec fn typed_at(definition: MachineDef, u: int) -> Seq<(Ident, Type)> {
    typed_arguments(
        use_at(definition, u)->0,
        bindings_of(definition, u / 2),
        use_at(definition, u)->0.arguments@.len() as int,
    ).typed
}

spec fn typed_well(definition: MachineDef, u: int) -> bool {
    typed_arguments(
        use_at(definition, u)->0,
        bindings_of(definition, u / 2),
        use_at(definition, u)->0.arguments@.len() as int,
    ).errors.len() == 0
}

/// The callbacks that are known before a use.
spec fn known_at(definition: MachineDef, u: int) -> Seq<CallableView> {
    if u % 2 == 0 {
        collected(definition, u / 2).callables
    } else {
        guard_noted(definition, u / 2).callables
    }
}

spec fn messages_at(definition: MachineDef, u: int) -> nat {
    noted_use(
        use_at(definition, u),
        role_at(u),
        bindings_of(definition, u / 2),
        known_at(definition, u),
    ).errors.len()
}

proof fn lemma_next_known(definition: MachineDef, u: int)
    requires
        0 <= u < 2 * definition.rows@.len(),
    ensures
        known_at(definition, u + 1) == noted_use(
            use_at(definition, u),
            role_at(u),
            bindings_of(definition, u / 2),
            known_at(definition, u),
        ).callables,
{
    if u % 2 == 0 {
        assert((u + 1) / 2 == u / 2 && (u + 1) % 2 == 1);
    } else {
        let r = u / 2;
        assert((u + 1) / 2 == r + 1 && (u + 1) % 2 == 0);
        assert(collected(definition, r + 1).callables == effect_noted(definition, r).callables);
    }
}

/// Whether what is known of a callback agrees with a use.
spec fn agrees_with(known: CallableView, definition: MachineDef, u: int) -> bool {
    &&& known.role == role_at(u)
    &&& known.is_async == use_at(definition, u)->0.is_async
    &&& keys_of(known.arguments) == keys_of(typed_at(definition, u))
}

spec fn is_record(known: CallableView, definition: MachineDef, u: int) -> bool {
    &&& use_at(definition, u) is Some
    &&& known.name == use_at(definition, u)->0.name
    &&& known.role == role_at(u)
    &&& known.is_async == use_at(definition, u)->0.is_async
    &&& known.arguments == typed_at(definition, u)
}

spec fn has_record(known: CallableView, definition: MachineDef, u: int) -> bool {
    exists|v: int| 0 <= v < u && is_record(known, definition, v)
}

/// Each known callback is that of an earlier use, under a name of its own.
proof fn lemma_records(definition: MachineDef, u: int)
    requires
        0 <= u <= 2 * definition.rows@.len(),
    ensures
        forall|k: int|
            0 <= k < known_at(definition, u).len() ==> has_record(
                #[trigger] known_at(definition, u)[k],
                definition,
                u,
            ),
        forall|i: int, j: int|
            0 <= i < j < known_at(definition, u).len() ==> (#[trigger] known_at(
                definition,
                u,
            )[i]).name.name@ != (#[trigger] known_at(definition, u)[j]).name.name@,
    decreases u,
{
    if u > 0 {
        let v = u - 1;
        lemma_records(definition, v);
        lemma_next_known(definition, v);
        let before = known_at(definition, v);
        let after = known_at(definition, u);
        if let Some(callable) = use_at(definition, v) {
            let name = callable.name.name@;
            lemma_first_callable(before, 0, name);
            let k = match first_callable(before, 0, name) {
                Some(k) => k,
                None => 0,
            };
            uses_of_a_callback_must_agree(
                callable,
                role_at(v),
                bindings_of(definition, v / 2),
                before,
                k,
            );
            if first_callable(before, 0, name) is Some {
                assert(is_known(before, name, k));
                assert(after == before);
            } else {
                assert(after.len() == before.len() + 1);
                assert(is_record(after[before.len() as int], definition, v));
            }
        }
        assert forall|k: int| 0 <= k < after.len() implies has_record(
            #[trigger] after[k],
            definition,
            u,
        ) by {
            if k < before.len() {
                assert(after[k] == before[k]);
                assert(has_record(before[k], definition, v));
                let w = choose|w: int| 0 <= w < v && is_record(before[k], definition, w);
                assert(is_record(after[k], definition, w));
            } else {
                assert(is_record(after[k], definition, v));
            }
        }
        assert forall|i: int, j: int| 0 <= i < j < after.len() implies (
        #[trigger] after[i]).name.name@ != (#[trigger] after[j]).name.name@ by {
            if j < before.len() {
                assert(after[i] == before[i] && after[j] == before[j]);
            } else {
                assert(after[i] == before[i]);
                lemma_first_callable(before, 0, use_at(definition, v)->0.name.name@);
            }
        }
    } else {
        assert(known_at(definition, 0).len() == 0);
    }
}

/// A use gives no message exactly where its arguments do not, and where it agrees with what is
/// known.
proof fn lemma_use(definition: MachineDef, u: int)
    requires
        0 <= u < 2 * definition.rows@.len(),
        use_at(definition, u) is Some,
    ensures
        ({
            let name = use_at(definition, u)->0.name.name@;
            let known = known_at(definition, u);
            let after = known_at(definition, u + 1);
            &&& messages_at(definition, u) == 0 <==> typed_well(definition, u) && (forall|k: int|
                0 <= k < known.len() && (#[trigger] known[k]).name.name@ == name ==> agrees_with(
                    known[k],
                    definition,
                    u,
                ))
            &&& forall|k: int| 0 <= k < known.len() ==> (#[trigger] after[k]) == known[k]
            &&& known.len() <= after.len()
            &&& messages_at(definition, u) == 0 ==> exists|k: int|
                0 <= k < after.len() && (#[trigger] after[k]).name.name@ == name && agrees_with(
                    after[k],
                    definition,
                    u,
                )
        }),
{
    let callable = use_at(definition, u)->0;
    let name = callable.name.name@;
    let known = known_at(definition, u);
    let after = known_at(definition, u + 1);
    lemma_records(definition, u);
    lemma_next_known(definition, u);
    lemma_first_callable(known, 0, name);
    let found = first_callable(known, 0, name);
    let k = match found {
        Some(k) => k,
        None => 0,
    };
    uses_of_a_callback_must_agree(callable, role_at(u), bindings_of(definition, u / 2), known, k);
    if found is Some {
        assert(is_known(known, name, k));
        assert forall|j: int| 0 <= j < known.len() && (#[trigger] known[j]).name.name@
            == name implies j == k by {
            if j < k {
                assert(known[j].name.name@ != known[k].name.name@);
            } else if k < j {
                assert(known[k].name.name@ != known[j].name.name@);
            }
        }
        assert(known[k].name.name@ == name);
        assert(after == known);
        if messages_at(definition, u) == 0 {
            assert(agrees_with(after[k], definition, u));
        }
    } else {
        let last = after[known.len() as int];
        assert(is_record(last, definition, u));
        assert(agrees_with(last, definition, u));
    }
}

spec fn same_callback(definition: MachineDef, u: int, v: int) -> bool {
    use_at(definition, u) is Some && use_at(definition, v) is Some && use_at(
        definition,
        u,
    )->0.name.name@ == use_at(definition, v)->0.name.name@
}

/// Whether two uses of one callback agree.
spec fn agree(definition: MachineDef, u: int, v: int) -> bool {
    same_callback(definition, u, v) ==> role_at(u) == role_at(v) && use_at(
        definition,
        u,
    )->0.is_async == use_at(definition, v)->0.is_async && keys_of(typed_at(definition, u))
        == keys_of(typed_at(definition, v))
}

spec fn is_settled(definition: MachineDef, known: Seq<CallableView>, u: int) -> bool {
    exists|k: int|
        0 <= k < known.len() && (#[trigger] known[k]).name.name@ == use_at(
            definition,
            u,
        )->0.name.name@ && agrees_with(known[k], definition, u)
}

proof fn lemma_settled(definition: MachineDef, u: int)
    requires
        0 <= u <= 2 * definition.rows@.len(),
        forall|v: int| 0 <= v < u ==> #[trigger] messages_at(definition, v) == 0,
    ensures
        forall|v: int|
            0 <= v < u && #[trigger] use_at(definition, v) is Some ==> typed_well(definition, v)
                && is_settled(definition, known_at(definition, u), v),
    decreases u,
{
    if u > 0 {
        let w = u - 1;
        lemma_settled(definition, w);
        lemma_next_known(definition, w);
        assert(messages_at(definition, w) == 0);
        if use_at(definition, w) is Some {
            lemma_use(definition, w);
        }
        let before = known_at(definition, w);
        let after = known_at(definition, u);
        assert forall|v: int| 0 <= v < u && #[trigger] use_at(definition, v) is Some implies typed_well(
            definition,
            v,
        ) && is_settled(definition, after, v) by {
            if v < w {
                assert(is_settled(definition, before, v));
                let k = choose|k: int|
                    0 <= k < before.len() && (#[trigger] before[k]).name.name@ == use_at(
                        definition,
                        v,
                    )->0.name.name@ && agrees_with(before[k], definition, v);
                assert(after[k] == before[k]);
            }
        }
    }
}

/// The uses of callbacks give no message exactly where the arguments of each fit, and where any two
/// uses of one callback agree.
proof fn lemma_uses(definition: MachineDef)
    ensures
        ({
            let n = 2 * definition.rows@.len();
            (forall|u: int| 0 <= u < n ==> #[trigger] messages_at(definition, u) == 0) <==> (forall|
                u: int,
            |
                0 <= u < n && #[trigger] use_at(definition, u) is Some ==> typed_well(definition, u))
                && (forall|u: int, v: int|
                0 <= u < n && 0 <= v < n ==> #[trigger] agree(definition, u, v))
        }),
{
    let n = 2 * definition.rows@.len() as int;
    if forall|u: int| 0 <= u < n ==> #[trigger] messages_at(definition, u) == 0 {
        lemma_settled(definition, n);
        lemma_records(definition, n);
        let known = known_at(definition, n);
        assert forall|u: int, v: int| 0 <= u < n && 0 <= v < n implies #[trigger] agree(
            definition,
            u,
            v,
        ) by {
            if same_callback(definition, u, v) {
                assert(is_settled(definition, known, u) && is_settled(definition, known, v));
                let name = use_at(definition, u)->0.name.name@;
                let i = choose|i: int|
                    0 <= i < known.len() && (#[trigger] known[i]).name.name@ == name && agrees_with(
                        known[i],
                        definition,
                        u,
                    );
                let j = choose|j: int|
                    0 <= j < known.len() && (#[trigger] known[j]).name.name@ == name && agrees_with(
                        known[j],
                        definition,
                        v,
                    );
                assert(known[i].name.name@ == known[j].name.name@);
                assert(i == j);
            }
        }
    }
    if (forall|u: int|
        0 <= u < n && #[trigger] use_at(definition, u) is Some ==> typed_well(definition, u)) && (
    forall|u: int, v: int| 0 <= u < n && 0 <= v < n ==> #[trigger] agree(definition, u, v)) {
        assert forall|u: int| 0 <= u < n implies #[trigger] messages_at(definition, u) == 0 by {
            if use_at(definition, u) is Some {
                lemma_use(definition, u);
                lemma_records(definition, u);
                let known = known_at(definition, u);
                let name = use_at(definition, u)->0.name.name@;
                assert forall|k: int| 0 <= k < known.len() && (#[trigger] known[k]).name.name@
                    == name implies agrees_with(known[k], definition, u) by {
                    assert(has_record(known[k], definition, u));
                    let w = choose|w: int| 0 <= w < u && is_record(known[k], definition, w);
                    assert(agree(definition, w, u));
                    assert(same_callback(definition, w, u));
                }
            }
        }
    }
}

proof fn lemma_use_number(r: int, role: CallableRole) -> (u: int)
    requires
        0 <= r,
    ensures
        u / 2 == r,
        role_at(u) == role,
        2 * r <= u < 2 * r + 2,
{
    match role {
        CallableRole::Guard => 2 * r,
        CallableRole::Effect => 2 * r + 1,
    }
}

/// Whether the argument of a use at a position stands for a field.
spec fn is_given(definition: MachineDef, u: int, i: int, field: FieldDef) -> bool {
    binds_field(definition, u / 2, use_at(definition, u)->0.arguments@[i], field)
}

spec fn binds_some(definition: MachineDef, r: int, name: Ident) -> bool {
    exists|field: FieldDef| binds_field(definition, r, name, field)
}

proof fn lemma_typed_well(definition: MachineDef, u: int)
    requires
        0 <= u < 2 * definition.rows@.len(),
        is_declared_well(definition),
        row_fits(definition.rows@[u / 2], states_of(definition), definition.events@),
        use_at(definition, u) is Some,
    ensures
        typed_well(definition, u) <==> arguments_fit(
            definition,
            u / 2,
            use_at(definition, u)->0,
        ),
        typed_well(definition, u) ==> {
            let callable = use_at(definition, u)->0;
            let typed = typed_at(definition, u);
            &&& typed.len() == callable.arguments@.len()
            &&& forall|i: int, field: FieldDef|
                #![trigger is_given(definition, u, i, field)]
                0 <= i < typed.len() && is_given(definition, u, i, field) ==> typed[i].1
                    == field.ty
            &&& forall|i: int|
                0 <= i < typed.len() ==> binds_some(
                    definition,
                    u / 2,
                    #[trigger] callable.arguments@[i],
                )
        },
{
    let r = u / 2;
    let callable = use_at(definition, u)->0;
    let bindings = bindings_of(definition, r);
    rows_must_fit(definition, r);
    arguments_have_the_types_of_their_fields(callable, bindings);
    assert forall|i: int| 0 <= i < callable.arguments@.len() implies (is_bound(
        bindings,
        #[trigger] callable.arguments@[i],
    ) <==> row_binds(definition.rows@[r], callable.arguments@[i])) by {
        let name = callable.arguments@[i];
        if is_bound(bindings, name) {
            let field = choose|field: FieldDef| stands_for(bindings, name, field);
            let k = choose|k: int|
                0 <= k < bindings.len() && #[trigger] bindings[k] == field && field.name.name@
                    == name.name@;
            assert(bindings[k].name.name@ == name.name@);
            assert(has_field(bindings, bindings.len() as int, name.name@));
        }
        if row_binds(definition.rows@[r], name) {
            assert(has_field(bindings, bindings.len() as int, name.name@));
            let k = choose|k: int|
                0 <= k < bindings.len() && (#[trigger] bindings[k]).name.name@ == name.name@;
            assert(stands_for(bindings, name, bindings[k]));
        }
    }
    if takes_bound_names(callable, bindings) {
        assert(arguments_fit(definition, r, callable));
    }
    if arguments_fit(definition, r, callable) {
        assert(takes_bound_names(callable, bindings));
    }
    if typed_well(definition, u) {
        let typed = typed_at(definition, u);
        assert forall|i: int, field: FieldDef|
            0 <= i < typed.len() && #[trigger] is_given(
                definition,
                u,
                i,
                field,
            ) implies typed[i].1 == field.ty by {
            assert(stands_for(bindings, callable.arguments@[i], field));
        }
        assert forall|i: int| 0 <= i < typed.len() implies binds_some(
            definition,
            r,
            #[trigger] callable.arguments@[i],
        ) by {
            assert(is_bound(bindings, callable.arguments@[i]));
            let field = choose|field: FieldDef|
                stands_for(bindings, callable.arguments@[i], field);
            assert(stands_for(bindings, callable.arguments@[i], field));
            assert(binds_field(definition, r, callable.arguments@[i], field));
        }
    }
}

proof fn lemma_agree(definition: MachineDef, u: int, v: int)
    requires
        0 <= u < 2 * definition.rows@.len(),
        0 <= v < 2 * definition.rows@.len(),
        is_declared_well(definition),
        row_fits(definition.rows@[u / 2], states_of(definition), definition.events@),
        row_fits(definition.rows@[v / 2], states_of(definition), definition.events@),
        use_at(definition, u) is Some ==> typed_well(definition, u),
        use_at(definition, v) is Some ==> typed_well(definition, v),
    ensures
        agree(definition, u, v) <==> uses_agree(definition, u / 2, role_at(u), v / 2, role_at(v)),
{
    if same_callback(definition, u, v) {
        lemma_typed_well(definition, u);
        lemma_typed_well(definition, v);
        let one = use_at(definition, u)->0;
        let two = use_at(definition, v)->0;
        let left = typed_at(definition, u);
        let right = typed_at(definition, v);
        if agree(definition, u, v) {
            assert(keys_of(left).len() == left.len() && keys_of(right).len() == right.len());
            let r = u / 2;
            let s = v / 2;
            assert forall|i: int, a: FieldDef, b: FieldDef|
                0 <= i < one.arguments@.len() && #[trigger] binds_field(
                    definition,
                    r,
                    one.arguments@[i],
                    a,
                ) && #[trigger] binds_field(
                    definition,
                    s,
                    two.arguments@[i],
                    b,
                ) implies type_key(a.ty) == type_key(b.ty) by {
                assert(is_given(definition, u, i, a) && is_given(definition, v, i, b));
                assert(left[i].1 == a.ty && right[i].1 == b.ty);
                assert(keys_of(left)[i] == type_key(a.ty));
                assert(keys_of(right)[i] == type_key(b.ty));
            }
        }
        if uses_agree(definition, u / 2, role_at(u), v / 2, role_at(v)) {
            assert forall|i: int| 0 <= i < left.len() implies keys_of(left)[i] == keys_of(
                right,
            )[i] by {
                assert(binds_some(definition, u / 2, one.arguments@[i]));
                assert(binds_some(definition, v / 2, two.arguments@[i]));
                let r = u / 2;
                let s = v / 2;
                let a = choose|a: FieldDef| binds_field(definition, r, one.arguments@[i], a);
                let b = choose|b: FieldDef| binds_field(definition, s, two.arguments@[i], b);
                assert(binds_field(definition, u / 2, one.arguments@[i], a));
                assert(binds_field(definition, v / 2, two.arguments@[i], b));
                assert(is_given(definition, u, i, a) && is_given(definition, v, i, b));
                assert(left[i].1 == a.ty && right[i].1 == b.ty);
                assert(type_key(a.ty) == type_key(b.ty));
            }
            assert(keys_of(left) =~= keys_of(right));
        }
    }
}

/// Whether no use gives a message.
spec fn uses_are_quiet(definition: MachineDef) -> bool {
    forall|u: int|
        0 <= u < 2 * definition.rows@.len() ==> #[trigger] messages_at(definition, u) == 0
}

/// The callbacks of a table whose rows fit give no message exactly where they are used well, apart
/// from the types that they need.
proof fn lemma_callbacks(definition: MachineDef)
    requires
        is_declared_well(definition),
        all_rows_fit(definition),
    ensures
        uses_are_quiet(definition) <==> all_arguments_fit(definition) && all_uses_agree(definition),
{
    let n = 2 * definition.rows@.len() as int;
    lemma_uses(definition);
    let fit = all_arguments_fit(definition);
    let well = forall|u: int|
        0 <= u < n && #[trigger] use_at(definition, u) is Some ==> typed_well(definition, u);
    if well {
        assert forall|r: int, role: CallableRole| 0 <= r < definition.rows@.len() implies (
        #[trigger] used(definition, r, role) matches Some(callable) ==> arguments_fit(
            definition,
            r,
            callable,
        )) by {
            let u = lemma_use_number(r, role);
            if used(definition, r, role) is Some {
                assert(use_at(definition, u) == used(definition, r, role));
                lemma_typed_well(definition, u);
            }
        }
    }
    if fit {
        assert forall|u: int| 0 <= u < n && #[trigger] use_at(definition, u) is Some implies typed_well(
            definition,
            u,
        ) by {
            assert(used(definition, u / 2, role_at(u)) is Some);
            lemma_typed_well(definition, u);
        }
    }
    if well {
        if forall|u: int, v: int| 0 <= u < n && 0 <= v < n ==> #[trigger] agree(definition, u, v) {
            assert forall|r: int, role: CallableRole, s: int, other: CallableRole|
                0 <= r < definition.rows@.len() && 0 <= s
                    < definition.rows@.len() implies #[trigger] uses_agree(
                definition,
                r,
                role,
                s,
                other,
            ) by {
                let u = lemma_use_number(r, role);
                let v = lemma_use_number(s, other);
                assert(agree(definition, u, v));
                assert(use_at(definition, u) is Some ==> typed_well(definition, u));
                assert(use_at(definition, v) is Some ==> typed_well(definition, v));
                lemma_agree(definition, u, v);
            }
        }
        if all_uses_agree(definition) {
            assert forall|u: int, v: int| 0 <= u < n && 0 <= v < n implies #[trigger] agree(
                definition,
                u,
                v,
            ) by {
                assert(uses_agree(definition, u / 2, role_at(u), v / 2, role_at(v)));
                assert(use_at(definition, u) is Some ==> typed_well(definition, u));
                assert(use_at(definition, v) is Some ==> typed_well(definition, v));
                lemma_agree(definition, u, v);
            }
        }
    }
}

/// Whether row `r` gives no message on its callbacks.
spec fn is_quiet(definition: MachineDef, r: int) -> bool {
    guard_noted(definition, r).errors.len() == 0 && effect_noted(definition, r).errors.len() == 0
}

spec fn rows_are_quiet(definition: MachineDef) -> bool {
    forall|r: int| 0 <= r < definition.rows@.len() ==> #[trigger] is_quiet(definition, r)
}

proof fn lemma_quiet(definition: MachineDef, r: int)
    requires
        0 <= r < definition.rows@.len(),
    ensures
        is_quiet(definition, r) <==> messages_at(definition, 2 * r) == 0 && messages_at(
            definition,
            2 * r + 1,
        ) == 0,
{
    assert((2 * r) / 2 == r && (2 * r) % 2 == 0);
    assert((2 * r + 1) / 2 == r && (2 * r + 1) % 2 == 1);
}

proof fn lemma_messages(definition: MachineDef)
    ensures
        uses_are_quiet(definition) <==> rows_are_quiet(definition),
{
    let n = definition.rows@.len() as int;
    if uses_are_quiet(definition) {
        assert forall|r: int| 0 <= r < n implies #[trigger] is_quiet(definition, r) by {
            lemma_quiet(definition, r);
        }
    }
    if rows_are_quiet(definition) {
        assert forall|u: int| 0 <= u < 2 * n implies #[trigger] messages_at(definition, u) == 0 by {
            let r = u / 2;
            assert(is_quiet(definition, r));
            lemma_quiet(definition, r);
            assert(u == 2 * r || u == 2 * r + 1);
        }
    }
}

spec fn is_used(definition: MachineDef, role: CallableRole) -> bool {
    exists|r: int|
        0 <= r < definition.rows@.len() && #[trigger] used(definition, r, role) is Some
}

proof fn lemma_needed_types(definition: MachineDef)
    requires
        all_uses_agree(definition),
    ensures
        context_errors(definition, table_of(definition).callables).len() == 0 && effect_errors(
            definition,
            table_of(definition).callables,
        ).len() == 0 <==> types_are_given(definition),
{
    let n = definition.rows@.len() as int;
    let callables = table_of(definition).callables;
    assert((2 * n) / 2 == n && (2 * n) % 2 == 0);
    assert(known_at(definition, 2 * n) == callables);
    lemma_records(definition, 2 * n);
    lemma_first_effect(callables, 0);
    assert forall|k: int| 0 <= k < callables.len() implies is_used(
        definition,
        (#[trigger] callables[k]).role,
    ) by {
        assert(has_record(known_at(definition, 2 * n)[k], definition, 2 * n));
        let v = choose|v: int| 0 <= v < 2 * n && is_record(callables[k], definition, v);
        assert(used(definition, v / 2, callables[k].role) is Some);
    }
    assert forall|r: int, role: CallableRole|
        0 <= r < n && #[trigger] used(definition, r, role) is Some implies exists|k: int|
        0 <= k < callables.len() && (#[trigger] callables[k]).role == role by {
        let u = lemma_use_number(r, role);
        assert(use_at(definition, u) == used(definition, r, role));
        lemma_entry(definition, 2 * n, u);
        let name = use_at(definition, u)->0.name.name@;
        let k = choose|k: int|
            0 <= k < callables.len() && (#[trigger] callables[k]).name.name@ == name;
        assert(has_record(known_at(definition, 2 * n)[k], definition, 2 * n));
        let v = choose|v: int| 0 <= v < 2 * n && is_record(callables[k], definition, v);
        assert(uses_agree(definition, r, role, v / 2, role_at(v)));
        assert(used(definition, v / 2, role_at(v)) == use_at(definition, v));
        assert(callables[k].role == role);
    }
    if context_errors(definition, callables).len() == 0 && effect_errors(
        definition,
        callables,
    ).len() == 0 {
        assert forall|r: int, role: CallableRole|
            0 <= r < n && #[trigger] used(definition, r, role) is Some implies definition.context
            is Some && (role is Effect ==> definition.effect is Some) by {
            let k = choose|k: int|
                0 <= k < callables.len() && (#[trigger] callables[k]).role == role;
            assert(callables.len() > 0);
        }
    }
    if types_are_given(definition) {
        if callables.len() > 0 {
            assert(is_used(definition, callables[0].role));
            assert(definition.context is Some);
        }
        if let Some(k) = first_effect(callables, 0) {
            assert(is_used(definition, callables[k].role));
            assert(definition.effect is Some);
        }
    }
}

proof fn lemma_first_effect(callables: Seq<CallableView>, i: int)
    requires
        0 <= i,
    ensures
        match first_effect(callables, i) {
            Some(k) => i <= k < callables.len() && callables[k].role is Effect,
            None => forall|k: int|
                i <= k < callables.len() ==> !((#[trigger] callables[k]).role is Effect),
        },
    decreases callables.len() - i,
{
    if i < callables.len() && callables[i].role != CallableRole::Effect {
        lemma_first_effect(callables, i + 1);
    }
}

/// A use leaves its callback known.
proof fn lemma_entry(definition: MachineDef, u: int, v: int)
    requires
        0 <= v < u <= 2 * definition.rows@.len(),
        use_at(definition, v) is Some,
    ensures
        exists|k: int|
            0 <= k < known_at(definition, u).len() && (#[trigger] known_at(
                definition,
                u,
            )[k]).name.name@ == use_at(definition, v)->0.name.name@,
    decreases u,
{
    let w = u - 1;
    let name = use_at(definition, v)->0.name.name@;
    let before = known_at(definition, w);
    let after = known_at(definition, u);
    lemma_next_known(definition, w);
    if use_at(definition, w) is Some {
        lemma_use(definition, w);
    }
    if v < w {
        lemma_entry(definition, w, v);
        let k = choose|k: int|
            0 <= k < before.len() && (#[trigger] before[k]).name.name@ == name;
        assert(after[k] == before[k]);
    } else {
        lemma_first_callable(before, 0, name);
        match first_callable(before, 0, name) {
            Some(k) => {
                assert(after[k] == before[k]);
            },
            None => {
                assert(after[before.len() as int].name.name@ == name);
            },
        }
    }
}

proof fn lemma_missing_events(definition: MachineDef, l: int, n: int)
    ensures
        missing_events(definition, states_of(definition), l, n).len() == 0 <==> (forall|e: int|
            0 <= e < n ==> handled(
                definition.rows@,
                states_of(definition),
                state_name(states_of(definition), l),
                (#[trigger] definition.events@[e]).name.name@,
            )),
    decreases n,
{
    if n > 0 {
        lemma_missing_events(definition, l, n - 1);
        let before = missing_events(definition, states_of(definition), l, n - 1);
        assert(missing_events(definition, states_of(definition), l, n).len() >= before.len());
    }
}

spec fn is_covered(definition: MachineDef, l: int) -> bool {
    forall|e: int|
        0 <= e < definition.events@.len() ==> handled(
            definition.rows@,
            states_of(definition),
            state_name(states_of(definition), l),
            (#[trigger] definition.events@[e]).name.name@,
        )
}

proof fn lemma_missing_pairs(definition: MachineDef, n: int)
    requires
        n <= states_of(definition).len(),
    ensures
        missing_pairs(definition, states_of(definition), n).len() == 0 <==> (forall|l: int|
            0 <= l < n && is_leaf(definition, l) ==> #[trigger] is_covered(definition, l)),
    decreases n,
{
    let states = states_of(definition);
    if n > 0 {
        lemma_missing_pairs(definition, n - 1);
        lemma_missing_events(definition, n - 1, definition.events@.len() as int);
        let own = missing_events(definition, states, n - 1, definition.events@.len() as int);
        let before = missing_pairs(definition, states, n - 1);
        if states[n - 1].node.compound() {
            assert(!is_leaf(definition, n - 1));
        } else {
            assert(is_leaf(definition, n - 1));
            assert(missing_pairs(definition, states, n) == before + own);
            assert((before + own).len() == before.len() + own.len());
            assert(own.len() == 0 <==> is_covered(definition, n - 1));
        }
    }
}

proof fn lemma_unreachable(definition: MachineDef, n: int)
    ensures
        unreachable_errors(definition, states_of(definition), n).len() == 0 <==> (forall|r: int|
            0 <= r < n ==> #[trigger] reachable(definition, states_of(definition), r)),
    decreases n,
{
    if n > 0 {
        lemma_unreachable(definition, n - 1);
        let before = unreachable_errors(definition, states_of(definition), n - 1);
        assert(unreachable_errors(definition, states_of(definition), n).len() >= before.len());
    }
}

proof fn lemma_covered(definition: MachineDef, l: int, e: int)
    requires
        state_names_differ(states_of(definition)),
        states_of(definition).len() <= usize::MAX,
        0 <= l < states_of(definition).len(),
        0 <= e < definition.events@.len(),
    ensures
        handled(
            definition.rows@,
            states_of(definition),
            state_name(states_of(definition), l),
            definition.events@[e].name.name@,
        ) <==> is_handled(definition, l, e),
{
    let states = states_of(definition);
    let leaf = state_name(states, l);
    let event = definition.events@[e].name.name@;
    if handled(definition.rows@, states, leaf, event) {
        let r = choose|r: int|
            0 <= r < definition.rows@.len() && #[trigger] applies(
                definition.rows@[r],
                leaf,
                event,
                states,
            );
        the_table_is_read_by_the_tree(definition, l, e, r, r);
        assert(is_taken(definition, l, e, r));
    }
    if is_handled(definition, l, e) {
        let r = choose|r: int|
            0 <= r < definition.rows@.len() && #[trigger] is_taken(definition, l, e, r);
        the_table_is_read_by_the_tree(definition, l, e, r, r);
        assert(applies(definition.rows@[r], leaf, event, states));
    }
}

proof fn lemma_reached(definition: MachineDef, l: int, e: int, r: int)
    requires
        state_names_differ(states_of(definition)),
        states_of(definition).len() <= usize::MAX,
        0 <= l < states_of(definition).len(),
        0 <= e < definition.events@.len(),
        0 <= r < definition.rows@.len(),
    ensures
        reached_at(definition, states_of(definition), r, l, e) <==> can_be_selected(
            definition,
            l,
            e,
            r,
        ),
{
    let states = states_of(definition);
    let leaf = state_name(states, l);
    let event = definition.events@[e].name.name@;
    the_table_is_read_by_the_tree(definition, l, e, r, r);
    if reached_at(definition, states, r, l, e) {
        if is_kept_from(definition, l, e, r) {
            let j = choose|j: int|
                0 <= j < definition.rows@.len() && definition.rows@[j].guard is None
                    && #[trigger] is_taken(definition, l, e, j) && goes_before(definition, l, j, r);
            the_table_is_read_by_the_tree(definition, l, e, j, r);
            assert(shadows(definition.rows@, states, leaf, event, j, r));
        }
    }
    if can_be_selected(definition, l, e, r) {
        assert forall|j: int| 0 <= j < definition.rows@.len() implies !#[trigger] shadows(
            definition.rows@,
            states,
            leaf,
            event,
            j,
            r,
        ) by {
            if shadows(definition.rows@, states, leaf, event, j, r) {
                the_table_is_read_by_the_tree(definition, l, e, j, r);
                assert(is_taken(definition, l, e, j));
            }
        }
    }
}

proof fn lemma_coverage(definition: MachineDef)
    requires
        state_names_differ(states_of(definition)),
        states_of(definition).len() <= usize::MAX,
    ensures
        coverage_errors(definition, states_of(definition)).len() == 0 <==> (forall|l: int, e: int|
            is_leaf(definition, l) && 0 <= e < definition.events@.len() ==> #[trigger] is_handled(
                definition,
                l,
                e,
            )) && (forall|r: int|
            0 <= r < definition.rows@.len() ==> #[trigger] is_of_use(definition, r)),
{
    let states = states_of(definition);
    let n = definition.rows@.len() as int;
    lemma_missing_pairs(definition, states.len() as int);
    lemma_unreachable(definition, n);
    let missing = missing_pairs(definition, states, states.len() as int);
    let unreached = unreachable_errors(definition, states, n);
    assert(coverage_errors(definition, states).len() == 0 <==> missing.len() == 0
        && unreached.len() == 0);
    if missing.len() == 0 {
        assert forall|l: int, e: int|
            is_leaf(definition, l) && 0 <= e
                < definition.events@.len() implies #[trigger] is_handled(definition, l, e) by {
            assert(is_covered(definition, l));
            assert(definition.events@[e] == definition.events@[e]);
            lemma_covered(definition, l, e);
        }
    }
    if forall|l: int, e: int|
        is_leaf(definition, l) && 0 <= e < definition.events@.len() ==> #[trigger] is_handled(
            definition,
            l,
            e,
        ) {
        assert forall|l: int| 0 <= l < states.len() && is_leaf(
            definition,
            l,
        ) implies #[trigger] is_covered(definition, l) by {
            assert forall|e: int| 0 <= e < definition.events@.len() implies handled(
                definition.rows@,
                states,
                state_name(states, l),
                (#[trigger] definition.events@[e]).name.name@,
            ) by {
                assert(is_handled(definition, l, e));
                lemma_covered(definition, l, e);
            }
        }
    }
    assert forall|r: int| 0 <= r < n implies (#[trigger] reachable(definition, states, r)
        <==> is_of_use(definition, r)) by {
        if reachable(definition, states, r) {
            let (l, e) = choose|l: int, e: int|
                0 <= l < states.len() && 0 <= e < definition.events@.len() && #[trigger] reached_at(
                    definition,
                    states,
                    r,
                    l,
                    e,
                );
            lemma_reached(definition, l, e, r);
            assert(can_be_selected(definition, l, e, r));
        }
        if is_of_use(definition, r) {
            let (l, e) = choose|l: int, e: int| #[trigger] can_be_selected(definition, l, e, r);
            lemma_reached(definition, l, e, r);
            assert(reached_at(definition, states, r, l, e));
        }
    }
    if unreached.len() == 0 {
        assert forall|r: int| 0 <= r < n implies #[trigger] is_of_use(definition, r) by {
            assert(reachable(definition, states, r));
        }
    }
    if forall|r: int| 0 <= r < n ==> #[trigger] is_of_use(definition, r) {
        assert forall|r: int| 0 <= r < n implies #[trigger] reachable(definition, states, r) by {
            assert(is_of_use(definition, r));
        }
    }
}

proof fn lemma_declared(definition: MachineDef)
    ensures
        declaration_errors(definition, states_of(definition)).len() == 0 <==> is_declared_well(
            definition,
        ),
        definition.states@.len() > 0 ==> states_of(definition).len() > 0,
{
    let states = states_of(definition);
    state_names_must_differ(states);
    event_names_must_differ(definition.events@);
    groups_must_be_enterable(definition.states@, "machine root"@, definition.call_site);
    let own = state_errors(states, states.len() as int);
    let events = event_errors(definition.events@, definition.events@.len() as int);
    let initial = initial_errors(definition.states@, "machine root"@, definition.call_site);
    let missing = (if definition.states@.len() == 0 {
        1int
    } else {
        0int
    }) + (if definition.events@.len() == 0 {
        1int
    } else {
        0int
    });
    assert(declaration_errors(definition, states).len() == missing + own.len() + events.len()
        + initial.len());
    assert(flattened(definition.states@, None).len() >= 1 || definition.states@.len() == 0);
}

proof fn lemma_rows(definition: MachineDef)
    requires
        is_declared_well(definition),
    ensures
        table_of(definition).errors.len() == 0 <==> all_rows_fit(definition) && labels_differ(
            definition,
        ) && rows_are_quiet(definition),
{
    let n = definition.rows@.len() as int;
    lemma_collected(definition, n);
    lemma_labels(definition);
    if table_of(definition).errors.len() == 0 {
        assert forall|r: int| 0 <= r < n implies row_fits(
            #[trigger] definition.rows@[r],
            states_of(definition),
            definition.events@,
        ) by {
            assert(row_is_quiet(definition, r));
            rows_must_fit(definition, r);
        }
        assert forall|r: int| 0 <= r < n implies #[trigger] is_quiet(definition, r) by {
            assert(row_is_quiet(definition, r));
        }
        assert forall|r: int| 0 <= r < n implies outcome_errors(
            collected(definition, r).transitions,
            (#[trigger] definition.rows@[r]).outcome,
        ).len() == 0 by {
            assert(row_is_quiet(definition, r));
        }
    }
    if all_rows_fit(definition) && labels_differ(definition) && rows_are_quiet(definition) {
        assert forall|r: int| 0 <= r < n implies #[trigger] row_is_quiet(definition, r) by {
            assert(is_quiet(definition, r));
            let row = definition.rows@[r];
            assert(row_fits(row, states_of(definition), definition.events@));
            rows_must_fit(definition, r);
        }
    }
}

proof fn lemma_table(definition: MachineDef)
    requires
        is_declared_well(definition),
    ensures
        table_of(definition).errors.len() == 0 && context_errors(
            definition,
            table_of(definition).callables,
        ).len() == 0 && effect_errors(definition, table_of(definition).callables).len() == 0
            <==> all_rows_fit(definition) && labels_differ(definition) && callbacks_fit(definition),
{
    lemma_rows(definition);
    lemma_messages(definition);
    if all_rows_fit(definition) {
        lemma_callbacks(definition);
    }
    if all_uses_agree(definition) {
        lemma_needed_types(definition);
    }
}

/// A definition is valid exactly where it makes a machine.
pub proof fn valid_definitions_make_machines(definition: MachineDef)
    requires
        states_of(definition).len() <= usize::MAX,
    ensures
        valid(definition) <==> makes_a_machine(definition),
{
    let states = states_of(definition);
    let table = table_of(definition);
    let declared = declaration_errors(definition, states);
    let covered = if states.len() > 0 && definition.events@.len() > 0 {
        coverage_errors(definition, states)
    } else {
        Seq::empty()
    };
    let context = context_errors(definition, table.callables);
    let effect = effect_errors(definition, table.callables);
    assert(validation_errors(definition) == declared + table.errors + covered + context + effect);
    assert(validation_errors(definition).len() == declared.len() + table.errors.len()
        + covered.len() + context.len() + effect.len());
    lemma_declared(definition);
    if is_declared_well(definition) {
        lemma_table(definition);
        lemma_coverage(definition);
    }
}

/// Whether a noted callback is the one that a row uses in a role: it has its name, its role, its
/// mode and its arguments, each with the type of the field that it stands for.
pub open spec fn is_noted_use(
    definition: MachineDef,
    known: CallableView,
    r: int,
    role: CallableRole,
) -> bool {
    &&& used(definition, r, role) matches Some(callable)
    &&& known.name == callable.name
    &&& known.role == role
    &&& known.is_async == callable.is_async
    &&& known.arguments.len() == callable.arguments@.len()
    &&& forall|i: int, field: FieldDef|
        0 <= i < callable.arguments@.len() && #[trigger] binds_field(
            definition,
            r,
            callable.arguments@[i],
            field,
        ) ==> known.arguments[i] == (callable.arguments@[i], field.ty)
}

/// Whether a use is the first of its callback.
pub open spec fn is_first_use(definition: MachineDef) -> spec_fn(int) -> bool {
    |u: int|
        use_at(definition, u) is Some && forall|w: int|
            0 <= w < u && #[trigger] use_at(definition, w) is Some ==> use_at(
                definition,
                w,
            )->0.name.name@ != use_at(definition, u)->0.name.name@
}

proof fn lemma_firsts(definition: MachineDef, u: int)
    requires
        0 <= u <= 2 * definition.rows@.len(),
    ensures
        ({
            let firsts = picked(u, is_first_use(definition));
            let known = known_at(definition, u);
            &&& known.len() == firsts.len()
            &&& forall|k: int|
                0 <= k < firsts.len() ==> is_record(
                    #[trigger] known[k],
                    definition,
                    firsts[k],
                )
        }),
    decreases u,
{
    if u > 0 {
        let v = u - 1;
        lemma_firsts(definition, v);
        lemma_next_known(definition, v);
        lemma_picked(v, is_first_use(definition));
        let holds = is_first_use(definition);
        let before = known_at(definition, v);
        let after = known_at(definition, u);
        let earlier = picked(v, holds);
        let firsts = picked(u, holds);
        if let Some(callable) = use_at(definition, v) {
            let name = callable.name.name@;
            lemma_first_callable(before, 0, name);
            let k = match first_callable(before, 0, name) {
                Some(k) => k,
                None => 0,
            };
            uses_of_a_callback_must_agree(
                callable,
                role_at(v),
                bindings_of(definition, v / 2),
                before,
                k,
            );
            if first_callable(before, 0, name) is Some {
                assert(is_known(before, name, k));
                assert(is_record(before[k], definition, earlier[k]));
                assert(use_at(definition, earlier[k]) is Some);
                assert(!holds(v));
                assert(after == before && firsts == earlier);
            } else {
                assert forall|w: int|
                    0 <= w < v && #[trigger] use_at(definition, w) is Some implies use_at(
                    definition,
                    w,
                )->0.name.name@ != name by {
                    if use_at(definition, w)->0.name.name@ == name {
                        lemma_entry(definition, v, w);
                        let j = choose|j: int|
                            0 <= j < before.len() && (#[trigger] before[j]).name.name@ == name;
                        assert(before[j].name.name@ != name);
                    }
                }
                assert(holds(v));
                assert(after.len() == before.len() + 1);
                assert(is_record(after[before.len() as int], definition, v));
                assert forall|i: int| 0 <= i < firsts.len() implies is_record(
                    #[trigger] after[i],
                    definition,
                    firsts[i],
                ) by {
                    if i < before.len() {
                        assert(after[i] == before[i]);
                        assert(is_record(before[i], definition, earlier[i]));
                    }
                }
            }
        } else {
            assert(!holds(v));
            assert(after == before && firsts == earlier);
        }
        if after == before {
            assert forall|i: int| 0 <= i < firsts.len() implies is_record(
                #[trigger] after[i],
                definition,
                firsts[i],
            ) by {
                assert(is_record(before[i], definition, earlier[i]));
            }
        }
    } else {
        assert(known_at(definition, 0).len() == 0);
        assert(picked(0, is_first_use(definition)).len() == 0);
    }
}

/// Whether a callback is noted under a name.
pub open spec fn is_noted(callables: Seq<CallableView>, name: Seq<char>, role: CallableRole) -> bool {
    exists|k: int|
        0 <= k < callables.len() && (#[trigger] callables[k]).name.name@ == name && callables[k].role
            == role
}

/// The callbacks of a machine are those that its rows use, each once, in the order of their first
/// uses: none has the name of another, each is as it is first used, and whatever a row uses is
/// among them.
pub proof fn the_callbacks_are_those_in_use(definition: MachineDef)
    requires
        valid(definition),
        states_of(definition).len() <= usize::MAX,
    ensures
        ({
            let callables = table_of(definition).callables;
            &&& forall|i: int, j: int|
                0 <= i < j < callables.len() ==> (#[trigger] callables[i]).name.name@ != (
                #[trigger] callables[j]).name.name@
            &&& callables.len() == picked(
                2 * definition.rows@.len() as int,
                is_first_use(definition),
            ).len()
            &&& forall|k: int|
                0 <= k < callables.len() ==> is_noted_use(
                    definition,
                    #[trigger] callables[k],
                    picked(2 * definition.rows@.len() as int, is_first_use(definition))[k] / 2,
                    role_at(picked(2 * definition.rows@.len() as int, is_first_use(definition))[k]),
                )
            &&& forall|r: int, role: CallableRole|
                0 <= r < definition.rows@.len() ==> (#[trigger] used(
                    definition,
                    r,
                    role,
                ) matches Some(callable) ==> is_noted(callables, callable.name.name@, role))
        }),
{
    let n = definition.rows@.len() as int;
    let callables = table_of(definition).callables;
    valid_definitions_make_machines(definition);
    assert((2 * n) / 2 == n && (2 * n) % 2 == 0);
    assert(known_at(definition, 2 * n) == callables);
    lemma_records(definition, 2 * n);
    lemma_firsts(definition, 2 * n);
    lemma_picked(2 * n, is_first_use(definition));
    let firsts = picked(2 * n, is_first_use(definition));
    assert forall|k: int| 0 <= k < callables.len() implies is_noted_use(
        definition,
        #[trigger] callables[k],
        firsts[k] / 2,
        role_at(firsts[k]),
    ) by {
        let v = firsts[k];
        assert(is_record(callables[k], definition, v));
        let r = v / 2;
        let role = role_at(v);
        assert(used(definition, r, role) == use_at(definition, v));
        let callable = use_at(definition, v)->0;
        assert(arguments_fit(definition, r, callable));
        assert(row_fits(definition.rows@[r], states_of(definition), definition.events@));
        lemma_typed_well(definition, v);
        rows_must_fit(definition, r);
        arguments_have_the_types_of_their_fields(callable, bindings_of(definition, r));
        assert forall|i: int, field: FieldDef|
            0 <= i < callable.arguments@.len() && #[trigger] binds_field(
                definition,
                r,
                callable.arguments@[i],
                field,
            ) implies callables[k].arguments[i] == (callable.arguments@[i], field.ty) by {
            assert(stands_for(bindings_of(definition, r), callable.arguments@[i], field));
        }
        assert(is_noted_use(definition, callables[k], r, role));
    }
    assert forall|r: int, role: CallableRole| 0 <= r < n implies (#[trigger] used(
        definition,
        r,
        role,
    ) matches Some(callable) ==> is_noted(callables, callable.name.name@, role)) by {
        if let Some(callable) = used(definition, r, role) {
            let u = lemma_use_number(r, role);
            assert(use_at(definition, u) == used(definition, r, role));
            lemma_entry(definition, 2 * n, u);
            let k = choose|k: int|
                0 <= k < callables.len() && (#[trigger] callables[k]).name.name@
                    == callable.name.name@;
            assert(has_record(known_at(definition, 2 * n)[k], definition, 2 * n));
            let v = choose|v: int| 0 <= v < 2 * n && is_record(callables[k], definition, v);
            assert(uses_agree(definition, r, role, v / 2, role_at(v)));
            assert(used(definition, v / 2, role_at(v)) == use_at(definition, v));
            assert(callables[k].role == role);
        }
    }
}

} // verus!
