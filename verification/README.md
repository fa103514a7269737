# emlisp

A small Lisp with exact rational arithmetic, written in Verus. The library reads
and evaluates expressions; its behaviour is stated as contracts over a
mathematical model of the language and proved.

## Layout

- `src/limbs.rs`, `src/bigint.rs` — arbitrary-size integers in base 10^9 limbs;
  every operation is proved exact against mathematical integers.
- `src/number.rs` — rationals as an (unreduced) numerator over a positive
  denominator, their decimal reading and rendering.
- `src/text.rs` — characters, decimal digits and string building.
- `src/syntax.rs` — the tokenizer and the reader, proved against a grammar over
  token sequences.
- `src/semantics.rs` — the meaning of the language: a definitional evaluator over
  the models, with a depth bound.
- `src/eval.rs` — values, environments and the executable evaluator, proved to
  compute exactly what `semantics.rs` defines.
- `src/laws.rs`, `src/depth.rs`, `src/tail_calls.rs`, `src/accumulation.rs` —
  properties of the language proved over the model: bindings are never changed,
  `define` then lookup, redefinition is refused, pipelines are prefix calls, the
  depth bound never changes a finished result, tail calls behave as calls, and the
  accumulator rewrite of self-recursive functions keeps their result when the
  condition, base case, step and next argument neither define nor print nor make
  or call the function itself (they may use arithmetic, `<`, `if`, arithmetic
  pipelines, and call other functions in scope).
- `src/forms.rs`, `src/escape.rs`, `src/reading.rs`, `src/scope.rs` — laws of the
  special forms and of reading, the absence of escaped tail calls, and the
  canonical (name-ordered, duplicate-free) bindings that functions close over.
- `app/main.rs` — the REPL and file loader; evaluation runs on a thread with a
  large stack.
- `tests/` — tests on concrete programs.
