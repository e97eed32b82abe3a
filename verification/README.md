# dsl-kit

Building blocks for small embedded languages, verified with Verus.

- `ids`, `context`, `breakpoint`, `event`, `error`: what every interpreter of
  the kit speaks of.
- `join`, `frame`, `engine`: a stepping interpreter over a tree of frames, with
  fan-outs, suspensions that the host answers, cancellation, breakpoints that
  stop before a frame starts, and a drive loop.
- `walk`, `derived`: trees, walks over them, and trees whose classification and
  semantics come from two halves.
- `schema`, `derive`: plans for derived implementations, from declarations of
  an enum and its annotations.
- `check`: judgement rules over parsed documents, the solver that evaluates
  them, hints, and validation of the rules themselves.
- `suggest`, `fuzzy`, `lint`: suggestions and advisory lints.
- `flow`, `refdsl`: two small languages that exercise the rest.

`engine/laws.rs`, `engine/numbers.rs`, `engine/observers.rs`,
`engine/progress.rs`, `engine/starts.rs`, `engine/waiting.rs`, `check/laws.rs`,
`check/slots.rs`, `check/unifier.rs`, `derive/laws.rs` and `derive/spelling.rs`
state what holds across functions; other laws stand beside what they speak of.
`app/` is the command line around the library, `tests/` runs it.

Traits of the library carry specification methods. An implementation in
ordinary Rust spells their types with the names in `math`; they are never
called at run time.
