# styx

A verified front end for the Styx configuration language, written in Verus:
a lexer, two pull parsers, and a validator for schemas.

- `src/lexer.rs` splits a source into tokens; `src/token.rs`, `src/span.rs` and
  `src/text.rs` hold tokens, byte ranges and slices of text.
- `src/escape.rs` says what a quoted scalar says; `src/event.rs` and
  `src/emit.rs` hold the events of the parsers, and `src/nesting.rs` says how deep
  they nest.
- `src/parser2/` is a parser with a queue of events, `src/parser3/` one that
  emits one event per call and keeps no queue. In both, `machine.rs` gives the
  states and moves as a pure machine, `progress.rs` proves that every move stays
  within the source and comes closer to the end, `run.rs` says which events come
  out, `nesting.rs` states in what order they can come, and `mod.rs` is the
  parser. `parser2/modes.rs` is about documents and single values,
  `parser3/texts.rs` about where the texts of events come from, and
  `src/lines.rs` about documents on which both parsers agree.
- `src/parser.rs` and `src/parser4.rs` are parsers that are only set up so far.
- `src/schema/` holds schemas and values. `fields.rs` says which fields an object
  type has, `check.rs` what is wrong with a value as a schema has it, and
  `outcome.rs` when that can be told. `validate.rs` finds it, `guard.rs` tells
  whether every value can be validated, and `laws.rs` states what holds of every
  validation.
- `app/` is ordinary Rust around the library.

What is trusted: `String::push` and `char::from_u32`, in `src/escape.rs`.
