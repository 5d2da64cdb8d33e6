//! Checks on the callbacks that rows use.
use crate::error::{messages_view, report, Message, MessageView};
use crate::model::{Callable, CallableRole, FieldDef, Type};
use crate::text::join3;
use crate::token::{
    copy_stream, placed, read_tokens, same_tokens, shapes, spliced, stream_trees, Ident, Shape,
};
use crate::validate::lookup::{find_field, is_named, last_field, named};
use vstd::prelude::*;

verus! {

/// A callback that the context of a machine provides.
pub struct CallableDef {
    pub name: Ident,
    pub role: CallableRole,
    pub is_async: bool,
    pub arguments: Vec<(Ident, Type)>,
}

/// The mathematical value of a [`CallableDef`].
pub struct CallableView {
    pub name: Ident,
    pub role: CallableRole,
    pub is_async: bool,
    pub arguments: Seq<(Ident, Type)>,
}

impl View for CallableDef {
    type V = CallableView;

    open spec fn view(&self) -> CallableView {
        CallableView {
            name: self.name,
            role: self.role,
            is_async: self.is_async,
            arguments: self.arguments@,
        }
    }
}

/// The mathematical values of several callbacks, in order.
pub open spec fn callables_view(callables: Seq<CallableDef>) -> Seq<CallableView> {
    callables.map_values(|callable: CallableDef| callable@)
}

/// What looking the arguments of a callback up gives.
pub struct Arguments {
    pub typed: Seq<(Ident, Type)>,
    pub errors: Seq<MessageView>,
}

/// The types of the first `n` arguments of a callback among the fields that its row binds.
pub open spec fn typed_arguments(callable: Callable, bindings: Seq<FieldDef>, n: int) -> Arguments
    decreases n,
{
    if n <= 0 {
        Arguments { typed: Seq::empty(), errors: Seq::empty() }
    } else {
        let before = typed_arguments(callable, bindings, n - 1);
        let argument = callable.arguments@[n - 1];
        if named(callable.arguments@, n - 1, argument.name@) {
            Arguments {
                errors: before.errors.push(
                    MessageView {
                        span: argument.span,
                        text: "duplicate callback argument `"@ + argument.spelled() + "`"@,
                        failed: None,
                    },
                ),
                ..before
            }
        } else {
            match last_field(bindings, bindings.len() as int, argument.name@) {
                Some(k) => Arguments {
                    typed: before.typed.push((argument, bindings[k].ty)),
                    ..before
                },
                None => Arguments {
                    errors: before.errors.push(
                        MessageView {
                            span: argument.span,
                            text: "callback argument `"@ + argument.spelled()
                                + "` is not bound by this row"@,
                            failed: None,
                        },
                    ),
                    ..before
                },
            }
        }
    }
}

/// The first callback from position `i` on that has the name.
pub open spec fn first_callable(callables: Seq<CallableView>, i: int, name: Seq<char>) -> Option<
    int,
>
    decreases callables.len() - i,
{
    if i < 0 || i >= callables.len() {
        None
    } else if callables[i].name.name@ == name {
        Some(i)
    } else {
        first_callable(callables, i + 1, name)
    }
}

/// What a type is compared by: its tokens, where an invisible group counts as the tokens inside.
pub open spec fn type_key(ty: Type) -> Seq<Shape> {
    shapes(placed(spliced(stream_trees(*ty.tokens))))
}

/// Whether two lists of arguments have the same types, written the same way.
pub open spec fn same_types(left: Seq<(Ident, Type)>, right: Seq<(Ident, Type)>) -> bool {
    &&& left.len() == right.len()
    &&& forall|i: int| 0 <= i < left.len() ==> type_key((#[trigger] left[i]).1) == type_key(
        right[i].1,
    )
}

/// What noting the use of a callback gives.
pub struct Noted {
    pub callables: Seq<CallableView>,
    pub errors: Seq<MessageView>,
}

/// The callbacks known after the use of one, and the messages on it.
pub open spec fn noted(
    callable: Callable,
    role: CallableRole,
    bindings: Seq<FieldDef>,
    callables: Seq<CallableView>,
) -> Noted {
    let arguments = typed_arguments(callable, bindings, callable.arguments@.len() as int);
    match first_callable(callables, 0, callable.name.name@) {
        Some(k) => {
            let known = callables[k];
            if known.role != role || known.is_async != callable.is_async || !same_types(
                known.arguments,
                arguments.typed,
            ) {
                Noted {
                    callables,
                    errors: arguments.errors.push(
                        MessageView {
                            span: callable.name.span,
                            text: "callback `"@ + callable.name.spelled()
                                + "` is used with incompatible roles, async modes, or argument types"@,
                            failed: None,
                        },
                    ),
                }
            } else {
                Noted { callables, errors: arguments.errors }
            }
        },
        None => Noted {
            callables: callables.push(
                CallableView {
                    name: callable.name,
                    role,
                    is_async: callable.is_async,
                    arguments: arguments.typed,
                },
            ),
            errors: arguments.errors,
        },
    }
}

/// Finds the first callback that has the name.
pub(crate) fn find_callable(callables: &Vec<CallableDef>, name: &String) -> (found: Option<usize>)
    ensures
        found is Some <==> first_callable(callables_view(callables@), 0, name@) is Some,
        found matches Some(k) ==> first_callable(callables_view(callables@), 0, name@) == Some(
            k as int,
        ) && k < callables@.len(),
{
    let ghost all = callables_view(callables@);
    let mut i: usize = 0;
    while i < callables.len()
        invariant
            i <= callables@.len(),
            all == callables_view(callables@),
            first_callable(all, 0, name@) == first_callable(all, i as int, name@),
        decreases callables@.len() - i,
    {
        assert(all[i as int] == callables@[i as int]@);
        if callables[i].name.name == *name {
            return Some(i);
        }
        i = i + 1;
    }
    None
}

fn is_same_type(left: &Type, right: &Type) -> (same: bool)
    ensures
        same == (type_key(*left) == type_key(*right)),
{
    let first = read_tokens(copy_stream(&left.tokens));
    let second = read_tokens(copy_stream(&right.tokens));
    same_tokens(&first, &second)
}

fn have_same_types(left: &Vec<(Ident, Type)>, right: &Vec<(Ident, Type)>) -> (same: bool)
    ensures
        same == same_types(left@, right@),
{
    if left.len() != right.len() {
        return false;
    }
    let mut i: usize = 0;
    while i < left.len()
        invariant
            i <= left@.len(),
            left@.len() == right@.len(),
            forall|j: int|
                0 <= j < i ==> type_key((#[trigger] left@[j]).1) == type_key(right@[j].1),
        decreases left@.len() - i,
    {
        if !is_same_type(&left[i].1, &right[i].1) {
            return false;
        }
        i = i + 1;
    }
    true
}

/// Notes the use of a callback, and reports where it does not agree with its other uses or with
/// what its row binds.
pub(crate) fn note_callable(
    callable: &Callable,
    role: CallableRole,
    bindings: &Vec<FieldDef>,
    callables: &mut Vec<CallableDef>,
    errors: &mut Vec<Message>,
)
    ensures
        callables_view(final(callables)@) == noted(
            *callable,
            role,
            bindings@,
            callables_view(old(callables)@),
        ).callables,
        messages_view(final(errors)@) == messages_view(old(errors)@) + noted(
            *callable,
            role,
            bindings@,
            callables_view(old(callables)@),
        ).errors,
{
    let ghost before = messages_view(errors@);
    let ghost known = callables_view(callables@);
    let mut arguments: Vec<(Ident, Type)> = Vec::new();
    let mut i: usize = 0;
    assert(before =~= before + typed_arguments(*callable, bindings@, 0).errors);
    assert(arguments@ =~= typed_arguments(*callable, bindings@, 0).typed);
    while i < callable.arguments.len()
        invariant
            i <= callable.arguments@.len(),
            arguments@ == typed_arguments(*callable, bindings@, i as int).typed,
            messages_view(errors@) == before + typed_arguments(
                *callable,
                bindings@,
                i as int,
            ).errors,
        decreases callable.arguments@.len() - i,
    {
        let argument = &callable.arguments[i];
        if is_named(&callable.arguments, i, &argument.name) {
            let name = argument.spelling();
            report(
                errors,
                argument.span,
                join3("duplicate callback argument `", name.as_str(), "`"),
            );
        } else {
            match find_field(bindings, bindings.len(), &argument.name) {
                Some(k) => arguments.push((argument.clone(), bindings[k].ty.clone())),
                None => {
                    let name = argument.spelling();
                    report(
                        errors,
                        argument.span,
                        join3(
                            "callback argument `",
                            name.as_str(),
                            "` is not bound by this row",
                        ),
                    );
                },
            }
        }
        assert(messages_view(errors@) =~= before + typed_arguments(
            *callable,
            bindings@,
            i + 1,
        ).errors);
        i = i + 1;
    }
    let ghost result = noted(*callable, role, bindings@, known);
    match find_callable(callables, &callable.name.name) {
        Some(k) => {
            let existing = &callables[k];
            assert(known[k as int] == existing@);
            if existing.role != role || existing.is_async != callable.is_async || !have_same_types(
                &existing.arguments,
                &arguments,
            ) {
                let name = callable.name.spelling();
                report(
                    errors,
                    callable.name.span,
                    join3(
                        "callback `",
                        name.as_str(),
                        "` is used with incompatible roles, async modes, or argument types",
                    ),
                );
            }
        },
        None => {
            callables.push(
                CallableDef {
                    name: callable.name.clone(),
                    role,
                    is_async: callable.is_async,
                    arguments,
                },
            );
        },
    }
    assert(callables_view(callables@) =~= result.callables);
    assert(messages_view(errors@) =~= before + result.errors);
}

} // verus!
