# rfsm

`rfsm` defines a finite state machine as one state tree and one transition
table. The library reads a definition, checks it, writes the Rust code of its
machine, and can run it as it is. It is written in Verus: the functions state
what they do in contracts, and the contracts are proved, but for those of the
calls into other crates, which are taken on trust (see below).

```text
name: Door,
states: { *Closed, Open },
events: { Open, Close },
transitions: {
    Opened: Closed + Open => Open,
    ClosedAgain: Open + Close => Closed,
    Open + Open => reject AlreadyOpen,
    Closed + Close => reject AlreadyClosed,
}
```

An accepted row is `Transition: State + Event => Target`. A rejection has no
label, because nothing commits. `[guard]` and `/ effect` name callbacks; either
may be `async`. `=> _` accepts the event and keeps the active state.

## Selection

1. The rows of the active leaf are tried first, then those of its ancestors
   from the nearest to the farthest.
2. Within one level, rows are tried in the order of the table.
3. Rows with the source `_` are tried last, wherever they stand.

A guard that says no hands on to the next row. A rejection stops the selection
and leaves the state as it is. An event is unhandled only where every row for
it has a guard that said no.

## Layout

- `src/token.rs`, `src/types.rs`: tokens, and what `syn` takes for a name or a type.
- `src/parse`: the syntax of a definition, as functions on tokens.
- `src/model.rs`, `src/views.rs`: a definition as plain values.
- `src/validate`: everything that can be wrong with a definition.
- `src/valid.rs`, `src/bindings.rs`: what holds of every valid definition.
- `src/expand`, `src/code.rs`, `src/template.rs`: the Rust code of a machine, and
  the notation for its fixed parts.
- `src/invoke.rs`: `machine!`, from the tokens of its invocation to its expansion.
- `src/table.rs`, `src/selection.rs`, `src/state.rs`, `src/outcome.rs`,
  `src/evaluate.rs`, `src/machine.rs`: running a definition.
- `src/runtime.rs`: what handling an event gives.
- `src/laws.rs`, `src/order.rs`: what holds of every machine, and of the order in
  which its rows are gone through.
- `app`: the macro entry point, the std error traits, and the driver of machines
  with async callbacks.

## What is taken on trust

The items marked `external_body` and `assume_specification` call `proc_macro2`,
`syn`, `quote` and `std`. Each says above it which outside function it calls and
what it claims of it. Nothing else is taken on trust.
