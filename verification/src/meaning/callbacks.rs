//! When two uses of a callback agree.
use crate::model::{Callable, CallableRole, FieldDef, Type};
use crate::token::{Ident, Shape};
use crate::validate::callables::{
    first_callable, noted, same_types, type_key, typed_arguments, CallableView,
};
use crate::validate::lookup::{last_field, named};
use vstd::prelude::*;

verus! {

/// What the types of arguments are compared by, in order.
pub open spec fn keys_of(arguments: Seq<(Ident, Type)>) -> Seq<Seq<Shape>> {
    arguments.map_values(|argument: (Ident, Type)| type_key(argument.1))
}

/// Lists of arguments agree exactly where they have the same types position by position, whatever
/// the arguments are called. So a list agrees with itself, and agreement goes both ways and from
/// one list over another to a third.
pub proof fn arguments_agree_by_position(
    one: Seq<(Ident, Type)>,
    other: Seq<(Ident, Type)>,
    third: Seq<(Ident, Type)>,
)
    ensures
        same_types(one, other) <==> keys_of(one) == keys_of(other),
        same_types(one, one),
        same_types(one, other) ==> same_types(other, one),
        same_types(one, other) && same_types(other, third) ==> same_types(one, third),
        one.len() != other.len() ==> !same_types(one, other),
        forall|i: int|
            0 <= i < one.len() && i < other.len() && type_key(one[i].1) != type_key(
                (#[trigger] other[i]).1,
            ) ==> !same_types(one, other),
{
    if keys_of(one) == keys_of(other) {
        assert(keys_of(one).len() == one.len() && keys_of(other).len() == other.len());
        assert forall|i: int| 0 <= i < one.len() implies type_key((#[trigger] one[i]).1)
            == type_key(other[i].1) by {
            assert(keys_of(one)[i] == type_key(one[i].1));
            assert(keys_of(other)[i] == type_key(other[i].1));
        }
    }
    if same_types(one, other) {
        assert(keys_of(one) =~= keys_of(other));
        assert forall|i: int| 0 <= i < other.len() implies type_key((#[trigger] other[i]).1)
            == type_key(one[i].1) by {
            assert(type_key(one[i].1) == type_key(other[i].1));
        }
    }
}

/// Whether a name stands for a field among those that a row binds.
pub open spec fn stands_for(bindings: Seq<FieldDef>, name: Ident, field: FieldDef) -> bool {
    exists|k: int|
        0 <= k < bindings.len() && #[trigger] bindings[k] == field && field.name.name@ == name.name@
}

/// Whether a row binds a name.
pub open spec fn is_bound(bindings: Seq<FieldDef>, name: Ident) -> bool {
    exists|field: FieldDef| stands_for(bindings, name, field)
}

/// Whether the arguments of a callback are different names that the row binds.
pub open spec fn takes_bound_names(callable: Callable, bindings: Seq<FieldDef>) -> bool {
    &&& forall|i: int, j: int|
        0 <= i < j < callable.arguments@.len() ==> (#[trigger] callable.arguments@[i]).name@ != (
        #[trigger] callable.arguments@[j]).name@
    &&& forall|i: int|
        0 <= i < callable.arguments@.len() ==> is_bound(
            bindings,
            #[trigger] callable.arguments@[i],
        )
}

/// Whether the names of bound fields are different.
pub open spec fn are_different(bindings: Seq<FieldDef>) -> bool {
    forall|i: int, j: int|
        0 <= i < j < bindings.len() ==> (#[trigger] bindings[i]).name.name@ != (
        #[trigger] bindings[j]).name.name@
}

pub(crate) proof fn lemma_last_field(fields: Seq<FieldDef>, n: int, name: Seq<char>)
    ensures
        match last_field(fields, n, name) {
            Some(k) => 0 <= k < n && fields[k].name.name@ == name && forall|j: int|
                k < j < n ==> (#[trigger] fields[j]).name.name@ != name,
            None => forall|j: int| 0 <= j < n ==> (#[trigger] fields[j]).name.name@ != name,
        },
    decreases n,
{
    if n > 0 {
        lemma_last_field(fields, n - 1, name);
    }
}

proof fn lemma_typed(callable: Callable, bindings: Seq<FieldDef>, n: int)
    requires
        0 <= n <= callable.arguments@.len(),
    ensures
        ({
            let found = typed_arguments(callable, bindings, n);
            &&& found.errors.len() == 0 <==> (forall|i: int|
                0 <= i < n ==> !named(callable.arguments@, i, (#[trigger] callable.arguments@[i]).name@)
                    && last_field(
                    bindings,
                    bindings.len() as int,
                    callable.arguments@[i].name@,
                ) is Some)
            &&& found.errors.len() == 0 ==> found.typed.len() == n && forall|i: int|
                0 <= i < n ==> (#[trigger] found.typed[i]) == (
                    callable.arguments@[i],
                    bindings[last_field(
                        bindings,
                        bindings.len() as int,
                        callable.arguments@[i].name@,
                    )->0].ty,
                )
        }),
    decreases n,
{
    if n > 0 {
        lemma_typed(callable, bindings, n - 1);
        let before = typed_arguments(callable, bindings, n - 1);
        let argument = callable.arguments@[n - 1];
        let bad = named(callable.arguments@, n - 1, argument.name@) || last_field(
            bindings,
            bindings.len() as int,
            argument.name@,
        ) is None;
        assert(typed_arguments(callable, bindings, n).errors.len() == before.errors.len() + (if bad {
            1int
        } else {
            0int
        }));
        if bad {
            assert(typed_arguments(callable, bindings, n).errors.len() != 0);
        }
    }
}

/// The arguments of a callback give no message exactly where they are different names that the row
/// binds; then each has the type of the field that it stands for, in order.
pub proof fn arguments_have_the_types_of_their_fields(callable: Callable, bindings: Seq<FieldDef>)
    ensures
        ({
            let found = typed_arguments(callable, bindings, callable.arguments@.len() as int);
            &&& found.errors.len() == 0 <==> takes_bound_names(callable, bindings)
            &&& takes_bound_names(callable, bindings) ==> found.typed.len()
                == callable.arguments@.len()
            &&& takes_bound_names(callable, bindings) && are_different(bindings) ==> forall|
                i: int,
                field: FieldDef,
            |
                0 <= i < found.typed.len() && #[trigger] stands_for(
                    bindings,
                    callable.arguments@[i],
                    field,
                ) ==> found.typed[i] == (callable.arguments@[i], field.ty)
        }),
{
    let n = callable.arguments@.len() as int;
    lemma_typed(callable, bindings, n);
    let found = typed_arguments(callable, bindings, n);
    if found.errors.len() == 0 {
        assert forall|i: int, j: int| 0 <= i < j < n implies (#[trigger] callable.arguments@[i]).name@
            != (#[trigger] callable.arguments@[j]).name@ by {
            assert(!named(callable.arguments@, j, callable.arguments@[j].name@));
        }
        assert forall|i: int| 0 <= i < n implies is_bound(
            bindings,
            #[trigger] callable.arguments@[i],
        ) by {
            let name = callable.arguments@[i].name@;
            lemma_last_field(bindings, bindings.len() as int, name);
            let k = last_field(bindings, bindings.len() as int, name)->0;
            assert(bindings[k] == bindings[k]);
            assert(stands_for(bindings, callable.arguments@[i], bindings[k]));
        }
    }
    if takes_bound_names(callable, bindings) {
        assert forall|i: int| 0 <= i < n implies !named(
            callable.arguments@,
            i,
            (#[trigger] callable.arguments@[i]).name@,
        ) && last_field(bindings, bindings.len() as int, callable.arguments@[i].name@) is Some by {
            let name = callable.arguments@[i].name@;
            lemma_last_field(bindings, bindings.len() as int, name);
            let field = choose|field: FieldDef|
                stands_for(bindings, callable.arguments@[i], field);
            assert(stands_for(bindings, callable.arguments@[i], field));
        }
        if are_different(bindings) {
            assert forall|i: int, field: FieldDef|
                0 <= i < found.typed.len() && #[trigger] stands_for(
                    bindings,
                    callable.arguments@[i],
                    field,
                ) implies found.typed[i] == (callable.arguments@[i], field.ty) by {
                let name = callable.arguments@[i].name@;
                lemma_last_field(bindings, bindings.len() as int, name);
                let k = last_field(bindings, bindings.len() as int, name)->0;
                let j = choose|j: int|
                    0 <= j < bindings.len() && #[trigger] bindings[j] == field && field.name.name@
                        == callable.arguments@[i].name@;
                assert(bindings[j].name.name@ == bindings[k].name.name@);
                assert(j == k);
            }
        }
    }
}

/// Whether a callback is known, and under which position.
pub open spec fn is_known(callables: Seq<CallableView>, name: Seq<char>, k: int) -> bool {
    &&& 0 <= k < callables.len()
    &&& callables[k].name.name@ == name
    &&& forall|j: int| 0 <= j < k ==> (#[trigger] callables[j]).name.name@ != name
}

pub(crate) proof fn lemma_first_callable(callables: Seq<CallableView>, i: int, name: Seq<char>)
    requires
        0 <= i <= callables.len(),
    ensures
        match first_callable(callables, i, name) {
            Some(k) => i <= k < callables.len() && callables[k].name.name@ == name && forall|j: int|
                i <= j < k ==> (#[trigger] callables[j]).name.name@ != name,
            None => forall|j: int|
                i <= j < callables.len() ==> (#[trigger] callables[j]).name.name@ != name,
        },
    decreases callables.len() - i,
{
    if i < callables.len() && callables[i].name.name@ != name {
        lemma_first_callable(callables, i + 1, name);
    }
}

/// A callback that is used for the first time is noted behind those that are known, with its name,
/// its role, its mode and the types of its arguments. One that is known stays as it is; a further
/// use gives one message more exactly where its role, its mode or the types of its arguments
/// differ.
pub proof fn uses_of_a_callback_must_agree(
    callable: Callable,
    role: CallableRole,
    bindings: Seq<FieldDef>,
    callables: Seq<CallableView>,
    k: int,
)
    ensures
        ({
            let found = typed_arguments(callable, bindings, callable.arguments@.len() as int);
            let after = noted(callable, role, bindings, callables);
            &&& (forall|j: int| !is_known(callables, callable.name.name@, j)) ==> {
                &&& after.errors == found.errors
                &&& after.callables == callables + seq![
                    CallableView {
                        name: callable.name,
                        role,
                        is_async: callable.is_async,
                        arguments: found.typed,
                    },
                ]
            }
            &&& is_known(callables, callable.name.name@, k) ==> {
                let known = callables[k];
                let agree = known.role == role && known.is_async == callable.is_async && keys_of(
                    known.arguments,
                ) == keys_of(found.typed);
                &&& after.callables == callables
                &&& agree ==> after.errors == found.errors
                &&& !agree ==> after.errors.len() == found.errors.len() + 1
                    && after.errors.drop_last() == found.errors && after.errors.last().span
                    == callable.name.span
            }
        }),
{
    let name = callable.name.name@;
    lemma_first_callable(callables, 0, name);
    let found = typed_arguments(callable, bindings, callable.arguments@.len() as int);
    let after = noted(callable, role, bindings, callables);
    if let Some(j) = first_callable(callables, 0, name) {
        assert(is_known(callables, name, j));
    }
    if is_known(callables, name, k) {
        arguments_agree_by_position(callables[k].arguments, found.typed, found.typed);
        assert(first_callable(callables, 0, name) == Some(k));
        if after.errors != found.errors {
            assert(after.errors.drop_last() =~= found.errors);
        }
    } else if first_callable(callables, 0, name) is None {
        assert(after.callables =~= callables + seq![after.callables.last()]);
    }
}

/// Using a callback twice in the same way is always valid: where the second use has the name, the
/// role and the mode of the first and arguments of the same types, it gives no message of its own,
/// and nothing new is noted.
pub proof fn a_callback_can_be_used_again(
    first: Callable,
    second: Callable,
    role: CallableRole,
    bindings: Seq<FieldDef>,
    others: Seq<FieldDef>,
    callables: Seq<CallableView>,
)
    requires
        first.name.name@ == second.name.name@,
        first.is_async == second.is_async,
        forall|j: int| 0 <= j < callables.len() ==> (#[trigger] callables[j]).name.name@
            != first.name.name@,
        ({
            let one = typed_arguments(first, bindings, first.arguments@.len() as int);
            let other = typed_arguments(second, others, second.arguments@.len() as int);
            &&& one.typed.len() == other.typed.len()
            &&& forall|i: int|
                0 <= i < one.typed.len() ==> type_key((#[trigger] one.typed[i]).1) == type_key(
                    other.typed[i].1,
                )
        }),
    ensures
        ({
            let once = noted(first, role, bindings, callables);
            let twice = noted(second, role, others, once.callables);
            &&& twice.callables == once.callables
            &&& twice.errors == typed_arguments(
                second,
                others,
                second.arguments@.len() as int,
            ).errors
        }),
{
    let once = noted(first, role, bindings, callables);
    let name = first.name.name@;
    let one = typed_arguments(first, bindings, first.arguments@.len() as int);
    let other = typed_arguments(second, others, second.arguments@.len() as int);
    lemma_first_callable(callables, 0, name);
    assert(first_callable(callables, 0, name) is None);
    assert forall|j: int| 0 <= j < callables.len() implies (#[trigger] once.callables[j]).name.name@
        != name by {
        assert(once.callables[j] == callables[j]);
    }
    assert(is_known(once.callables, name, callables.len() as int));
    assert(keys_of(one.typed) =~= keys_of(other.typed));
    uses_of_a_callback_must_agree(
        second,
        role,
        others,
        once.callables,
        callables.len() as int,
    );
}

} // verus!
