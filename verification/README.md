# psh

psh is a shell descended from Plan 9 rc, with typed values, ksh93-style
discipline functions and namerefs.  This crate is its core library,
verified with Verus, plus a thin program around it.

Layout:

- `src/` — the verified library:
  - `ast` — the syntax tree and its mathematical model; how words are written.
  - `text` — string building, decimal numerals and integer parsing.
  - `value` — runtime values: truth, counting, indexing, rc's `^`,
    argument lists, type inference from words.
  - `types` — type annotations and value validation (widening to Str is
    allowed, narrowing from Str is refused).
  - `lex` — the tokenizer (rc quoting, operators, keywords, positions).
  - `parse` — character classes, trivia and name primitives of the grammar.
  - `env` — scopes, variables, namerefs, `let`, functions and the
    exported process environment.
  - `job` — the job table and wait-status reaping.
  - `signal` — which signals are pending, in check order.
  - `exec` — exit statuses and the shell state.
Scopes, the function table and the captures of a thunk are vectors of
(name, item) pairs in which no name occurs twice, rather than hash maps
keyed by strings: Verus proves next to nothing about a `HashMap` with
`String` keys, while a vector with that invariant lets every lookup,
update and export list be stated and proved.  A path value holds the
path's text, so two paths are equal when their texts are.

The wait-status decoding is stated as libc defines it on Linux, macOS
and the BSDs; where those targets disagree on a status, the result is
left open.

- `app/` — the program: argument handling and signal handler installation.
- `tests/` — tests of the library.

The grammar and the evaluator are not written yet; the program reports
that and exits with status 2.
