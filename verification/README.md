# aima

Verified algorithms from *Artificial Intelligence: A Modern Approach*,
written in Verus: the code in `src/` is proved by Verus to meet its
`requires`/`ensures` contracts.

- `src/` — the library: propositional logic (normal forms, DPLL), first-order
  unification, constraint satisfaction (AC-3, backtracking, sudoku and map
  colouring), state-space search (A*, breadth-first, AND-OR, genetic search,
  the eight puzzle, eight queens, missionaries and cannibals, vacuum worlds),
  minimax games, decision lists, Markov decision process worlds, n-gram
  language models and a tokenizer.
- `tests/` — tests of the library on concrete inputs.
- `app/` — the programs around the library: reading files and printing, and
  the parts that compute in floating point (probabilities, utilities,
  perplexities), which stay outside the verified code.

Calls into outside crates (`petgraph`, `pathfinding`, `indexmap`, `rand`)
go through small trusted wrappers whose doc comments say what their
contracts claim of the outside code.
