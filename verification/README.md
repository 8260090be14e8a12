# lelwel runtime, verified

Runtime support for LL(1) parsers generated by lelwel, written in Verus and proved
against its contracts.

- `src/types.rs`: node references, 48-bit indices, marks.
- `src/cst.rs`: the flat concrete syntax tree (`CstData`, `Cst`), its child iteration,
  spans, listing, and its `CstBuilder` implementation with a model of every step.
- `src/builder.rs`: the `CstBuilder` interface and `LelwelBuilder`, which buffers skip
  tokens (flush policy, ordered-choice backtracking).
- `src/parser.rs`: the generic parser driver (`Parser`): token cursor, error recovery,
  lookahead, saved states.
- `src/cst_parse.rs`: the parser over a `CstData`: its invariant, the operations with
  their effect on it, and `parse_with`, which keeps every input token in the tree.
- `src/frontend/`: the parser of the grammar description language itself (tokens, rules,
  callbacks and the recursive-descent rules), proved to terminate and stay in bounds.
- `src/green.rs`: the `cstree` green node builder behind trusted wrappers, and
  `CstreeBuilder` on top of it.
- `src/cstree_backend.rs`, `src/outline.rs`: the listing of a `cstree` green tree (with
  raw kinds named by the caller) and the text of listing lines.
- `app/lib.rs`: `Display` adapters, the listing of a resolved `cstree` tree (naming its
  kinds through `Syntax::from_raw`), and the snapshot-test macro.
