# qurts

A verified front end for qurts, a quantum programming language whose lifetimes
and unique references enforce uncomputation.

- `src/` is the library, verified with Verus: the grammar and its parser
  (`grammar`, `parser`, `tree`, `format`, with `spans` for where parse nodes lie), and the lowering of parse trees to a
  plain-MLIR model of functions, blocks and operations (`ir`, `env`, `value`,
  `ty`, `signature`, `expr`, `block`, `function`, `program`, `cst_to_qduc`,
  `cst_to_qauc`), with the playground's per-function results (`compile`) and
  its choice of example scripts (`examples`).
  `lowering` states what lowering produces over models of the parse tree;
  `laws` states what holds across calls.
- `app/` is the playground server: it builds real MLIR with melior from the
  lowered functions, and serves compile requests over HTTP.
- `tests/` runs the library on concrete programs.
