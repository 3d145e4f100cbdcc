# lisp0

An interpreter for a small LISP-like language with an optional
low-parenthesis syntax ("L0"), written in Verus: the reader, the heap with
its copying collector, the builtins and the evaluator are verified against
their contracts.

## Layout

- `src/reader.rs`, `src/reader_model.rs`: the reader. `read_text` turns
  source text into a syntax tree; its result is stated exactly by the
  recursive model in `reader_model.rs`.
- `src/chars.rs`: characters from bytes, by way of the `char_reader` crate.
- `src/memory.rs`: the heap. Handles name objects; the model is a map from
  object identities to objects. A collection keeps every object a handle
  reaches. Dictionary, array and aliasing laws are stated here.
- `src/scratch.rs`: the heap operations a builtin uses, with its temporary
  handles.
- `src/globals.rs`: the builtins, each with a contract over the heap model,
  and the global dictionary they are bound in.
- `src/eval.rs`: the evaluator, a stack of frames run one step at a time.
  A step that needs the outside world (printing, reading, files) stops with a
  request; `resume` takes the reply.
- `src/text.rs`, `src/show.rs`, `src/util.rs`: text utilities, how values
  print, how a syntax tree prints.
- `app/main.rs`: the command line program; it reads the source, performs
  the evaluator's requests and prints errors.
- `tests/`: tests of the reader, the heap, the text utilities and whole
  programs.
