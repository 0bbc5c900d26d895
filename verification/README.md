# Verified Metamath formulas

A parsed Metamath formula is kept as the tree of its syntactic proof: each
node is labelled by the syntax axiom, or the floating hypothesis of a
variable, that builds it from its children. The library matches a formula
against a model (`Formula::unify`), substitutes formulas for variables
(`Formula::substitute`), compares formulas, and writes them back out as
symbols, as the byte strings that proof builders use, and as syntax proofs.

Every function is verified with Verus against a model of formulas as terms,
except two small wrappers that the proofs trust: `share_tree`, which calls
`Arc::clone`, and `same_tree`, which calls `Arc::ptr_eq` (both in
`src/formula.rs`).

- `src/term.rs`: the model (`Term`) and what matching, substitution and
  equality mean on it.
- `src/tree.rs`: the arena of nodes that formulas share, and how a node reads
  as a term.
- `src/bit_set.rs`: the set of nodes that are variables.
- `src/database.rs`: names, statements and hypotheses that formulas are read
  against, and what writing a formula out gives.
- `src/formula.rs`: `Formula`, `Substitutions`, `FormulaBuilder`,
  `FormulaRef`, `Flatten`, the `ProofBuilder` trait and `StepList`, a
  builder that keeps each step in a list.
- `src/laws.rs`: soundness and completeness of matching, and the properties
  of substitution and equality that they rest on.
