# rivus_runtime

The runtime of a columnar data-flow engine: chunks of typed columns flow from
sources through operators (filter, project, map, cast, sort, join, group,
distinct, fill, take and more) into sinks. Every function of the library
carries a contract that Verus proves; only the few wrappers around functions of
the standard library and of `regex` are taken on trust, and say so.

## Layout

- `src/` is the verified library.
  - Values and text: `value`, `float`, `text`, `strings`, `compare`, `cast`,
    `func`, `pattern`, `fxhash`, `chunk`, `host`.
  - Expressions: `expr`, `eval` (row by row), `lanes` (column by column),
    `kernel` (numeric filters over whole columns).
  - Operators: `rows`, `select`, `concat`, `shape`, `nested`, `fill`, `sort`,
    `join`, `agg`, `group`, `describe`, `stage`, `operator`.
  - Formats: `json`, `infer`, `jcolumn`, `jsonl`, `jrange`, `binary`, `sink`,
    `readback`, `source`, `records`, `net`, `gendata`.
  - Plans and runs: `plan`, `validate`, `event`, `engine`, `flow`, `sweep`,
    `flows`, `fused`, `parts`, `workers`, `filerun`, `tail`, `dispatch`.
  - Laws that span them: `renumber`, `division`, `fusion`, `cuts`, `tally`,
    `outparts`, `wholerun`.
- `app/` is ordinary Rust around it: files, sockets, threads, floating point.
- `tests/` runs the library from outside.

## Floating point and the calendar

A double is kept as its bit pattern. Arithmetic on doubles, reading and
printing them, and the calendar are left to the host of the library. A function
that needs such a result takes the answers known so far (`host::Answers`). Where
one is missing it changes nothing and returns the question (`host::Ask`); the
host adds the answer and calls again. Contracts are stated over the same log of
answers, so what a function returns is fixed once its questions are answered.

## Laws

Public proof functions named `lemma_..` state what holds between functions: that
cutting the input into chunks changes no result, that partial groups merge to
the group of all rows, that a kernel keeps the rows that the expression keeps,
that segments written in parallel are the bytes of one serial run, and so on.
Each states its law in its doc comment.
