# einsum

Validation, sizing and index bookkeeping for Einstein-summation expressions
such as `"ij,jk->ik"`, verified with Verus.

- `src/parse.rs` — the grammar `operand ("," operand)* ("->" output)?` and its
  parser, with the laws that parsing and rendering are inverse.
- `src/contraction.rs` — output and summation indices of an expression, and
  the errors for a repeated or foreign output index.
- `src/sizes.rs` — the length of every index, read off operand shapes (also
  from JSON text, through `serde_json`).
- `src/evaluate.rs` — the positions a direct einsum visits: row-major index
  assignments and the operand position for each binding.
- `app/` — `ndarray` operands, the slow einsum over any numeric element type,
  and JSON answers.
