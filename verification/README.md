# tl-oracle

Reference semantics for temporal-logic formulas over finite words and over
ultimately periodic (lasso) words, with every evaluator proved in Verus
against one recursive denotation.

Unknown observations (missing or conflicting) are enumerated as common
Boolean completions of each lasso cell; fairness premises filter the
completions; a configured resource limit returns an error and never turns an
incomplete exploration into a verdict.

## Layout

- `src/semantics.rs`: the denotation `denote` of every operator, and the
  lasso and finite valuations it is read on.
- `src/sequence.rs`: evaluation of a formula on one complete lasso as an
  ultimately periodic sequence, proved to deliver the denotation.
- `src/lasso.rs`: lassos with partial evidence and `evaluate`, whose result
  is exactly the specification `evaluation`.
- `src/finite.rs`, `src/profile.rs`: evaluation on finite words, plainly and
  under the closed-trace and origin-complete profiles, and where the
  closed-trace profile and plain finite evaluation agree.
- `src/syntax.rs`: formula graphs and trace documents, their lowering, and the
  document entry points.
- `src/population.rs`, `src/v11.rs`: a counted case ledger with its history law, and a declared,
  distinct population of formulas, words, fairness modes and anchors.
- `src/laws.rs`, `src/refinement.rs`: dualities, unrolling, ultimate
  periodicity, and what premises and refined evidence can change in an
  outcome.
- `src/census.rs`, `src/agreement.rs`: the shape of every outcome, how many
  completions no premise or an atomic premise admits, and that every case of
  the population concludes with the expected count.
- `app/lib.rs`: copies of the error enums with messages.
- `tests/`: scenarios and concrete instances of the laws.
