//! Concrete instances of the library's contracts and laws: each refusal, the
//! default limits, the document adapters, and the laws on small words.

use std::collections::BTreeMap;

use tl_oracle::population::{CaseResult, PopulationError, PopulationLedger, PopulationSummary};
use tl_oracle::syntax::{
    FormulaDocument, InfiniteClock, NodeKind, PartialValue, SemanticProfile, TemporalInterval,
    TraceDocument, TraceObservation, ValuationEntry,
};
use tl_oracle::v11::{Fairness, V11Population, DECLARED_CASES};
use tl_oracle::{
    evaluate, evaluate_closed_trace_v1, evaluate_documents, evaluate_finite,
    evaluate_origin_complete, evaluate_syntax, from_syntax, Evidence, Formula as F, Interval as I,
    Lasso, Limits, OracleError, Uncertainty, Verdict,
};

fn atom(id: u32) -> F {
    F::Atom(id)
}

fn neg(f: F) -> F {
    F::Not(Box::new(f))
}

fn cell(values: &[(u32, Evidence)]) -> BTreeMap<u32, Evidence> {
    values.iter().copied().collect()
}

fn bools(values: &[(u32, bool)]) -> BTreeMap<u32, bool> {
    values.iter().copied().collect()
}

fn observation(position: u64, entries: &[(u32, PartialValue)]) -> TraceObservation {
    TraceObservation {
        position,
        entries: entries
            .iter()
            .map(|(proposition, value)| ValuationEntry {
                proposition: *proposition,
                value: *value,
            })
            .collect(),
    }
}

fn trace(propositions: Vec<u32>, prefix: Vec<TraceObservation>, lap: Vec<TraceObservation>) -> TraceDocument {
    TraceDocument::new(
        SemanticProfile::InfiniteTraceV1,
        InfiniteClock::EventPosition,
        "map".to_owned(),
        propositions,
        prefix,
        lap,
    )
    .unwrap()
}

fn atom_document(profile: SemanticProfile, clock: InfiniteClock, proposition: u32) -> FormulaDocument {
    FormulaDocument::new(profile, clock, 0, vec![NodeKind::Proposition { proposition }])
}

#[test]
fn default_limits_values() {
    let limits = Limits::default();
    assert_eq!(limits.max_depth, 64);
    assert_eq!(limits.max_offset, 4096);
    assert_eq!(limits.max_positions, 65536);
    assert_eq!(limits.max_completions, 65536);
}

#[test]
fn lasso_construction_and_empty_loop() {
    assert_eq!(Lasso::new(vec![cell(&[])], vec![]).unwrap_err(), OracleError::EmptyLoop);
    let word = Lasso::new(vec![cell(&[]), cell(&[])], vec![cell(&[])]).unwrap();
    assert_eq!(word.loop_entry(), 2);
    let document = TraceDocument::new(
        SemanticProfile::InfiniteTraceV1,
        InfiniteClock::EventPosition,
        "map".to_owned(),
        vec![0],
        vec![observation(0, &[(0, PartialValue::True)])],
        vec![],
    );
    assert_eq!(document.unwrap_err(), OracleError::EmptyLoop);
}

#[test]
fn trace_adapter_keeps_the_last_entry_and_the_loop_entry() {
    let document = trace(
        vec![0],
        vec![observation(0, &[(0, PartialValue::True), (0, PartialValue::False)])],
        vec![observation(1, &[(0, PartialValue::Missing)])],
    );
    assert_eq!(document.loop_entry(), 1);
    let word = Lasso::from(&document);
    assert_eq!(word.loop_entry(), 1);
    let at_origin = evaluate(&atom(0), &[], &word, 0, Limits::default()).unwrap();
    assert_eq!(at_origin.verdict, Verdict::Refuted);
    assert_eq!(at_origin.uncertainty, Uncertainty::Missing);
    assert_eq!(at_origin.fair_completions, 2);
}

#[test]
fn evaluation_refusals() {
    let word = Lasso::new(vec![], vec![cell(&[(0, Evidence::True)])]).unwrap();
    let inverted = F::Future(I::Closed { start: 2, end: 1 }, Box::new(atom(0)));
    assert_eq!(
        evaluate(&inverted, &[], &word, 0, Limits::default()),
        Err(OracleError::InvertedInterval)
    );
    let deep = neg(neg(atom(0)));
    let shallow = Limits {
        max_depth: 2,
        ..Limits::default()
    };
    assert_eq!(
        evaluate(&deep, &[], &word, 0, shallow),
        Err(OracleError::ResourceIncomplete)
    );
    let long = Lasso::new(vec![cell(&[]); 4], vec![cell(&[])]).unwrap();
    let few_positions = Limits {
        max_positions: 4,
        ..Limits::default()
    };
    assert_eq!(
        evaluate(&atom(0), &[], &long, 0, few_positions),
        Err(OracleError::ResourceIncomplete)
    );
    let open = Lasso::new(vec![cell(&[(0, Evidence::Missing)])], vec![cell(&[(0, Evidence::Conflicting)])]).unwrap();
    let few_completions = Limits {
        max_completions: 3,
        ..Limits::default()
    };
    assert_eq!(
        evaluate(&atom(0), &[], &open, 0, few_completions),
        Err(OracleError::ResourceIncomplete)
    );
    let enough = Limits {
        max_completions: 4,
        ..Limits::default()
    };
    let outcome = evaluate(&atom(0), &[], &open, 0, enough).unwrap();
    assert_eq!(outcome.verdict, Verdict::Inconclusive);
    assert_eq!(outcome.fair_completions, 4);
}

#[test]
fn mixed_uncertainty_is_reported() {
    let word = Lasso::new(
        vec![],
        vec![cell(&[(0, Evidence::Missing), (1, Evidence::Conflicting)])],
    )
    .unwrap();
    let claim = F::Or(Box::new(atom(0)), Box::new(atom(1)));
    let result = evaluate(&claim, &[], &word, 0, Limits::default()).unwrap();
    assert_eq!(result.uncertainty, Uncertainty::Mixed);
    assert_eq!(result.fair_completions, 4);
    assert_eq!(result.verdict, Verdict::Inconclusive);
    assert!(result.possible_true && result.possible_false);
}

#[test]
fn document_admission_refusals() {
    let lasso_trace = trace(vec![0], vec![], vec![observation(0, &[(0, PartialValue::True)])]);
    let closed = atom_document(SemanticProfile::ClosedTraceV1, InfiniteClock::EventPosition, 0);
    assert_eq!(
        evaluate_documents(&closed, &lasso_trace, 0, &[], 0, Limits::default()),
        Err(OracleError::IdentityMismatch)
    );
    let stamped = atom_document(SemanticProfile::InfiniteTraceV1, InfiniteClock::Timestamp, 0);
    assert_eq!(
        evaluate_documents(&stamped, &lasso_trace, 0, &[], 0, Limits::default()),
        Err(OracleError::IdentityMismatch)
    );
    let foreign = atom_document(SemanticProfile::InfiniteTraceV1, InfiniteClock::EventPosition, 5);
    assert_eq!(
        evaluate_documents(&foreign, &lasso_trace, 0, &[], 0, Limits::default()),
        Err(OracleError::ForeignProposition)
    );
    let own = atom_document(SemanticProfile::InfiniteTraceV1, InfiniteClock::EventPosition, 0);
    assert_eq!(
        evaluate_documents(&own, &lasso_trace, 3, &[], 0, Limits::default()),
        Err(OracleError::GraphRootAbsent)
    );
    assert_eq!(
        evaluate_documents(&own, &lasso_trace, 0, &[0], 0, Limits::default())
            .unwrap()
            .verdict,
        Verdict::Proved
    );
}

#[test]
fn graph_lowering_shapes_and_limits() {
    let doc = FormulaDocument::new(
        SemanticProfile::InfiniteTraceV1,
        InfiniteClock::EventPosition,
        2,
        vec![
            NodeKind::Proposition { proposition: 0 },
            NodeKind::Proposition { proposition: 1 },
            NodeKind::Until {
                interval: TemporalInterval::Closed { start: 1, end: 3 },
                left: 0,
                right: 1,
            },
        ],
    );
    assert_eq!(
        from_syntax(doc.formula(), 2),
        Ok(F::Until(
            I::Closed { start: 1, end: 3 },
            Box::new(atom(0)),
            Box::new(atom(1))
        ))
    );
    let mut nodes = vec![NodeKind::True];
    for index in 1..70 {
        nodes.push(NodeKind::Not { operand: index - 1 });
    }
    let chain = FormulaDocument::new(
        SemanticProfile::InfiniteTraceV1,
        InfiniteClock::EventPosition,
        69,
        nodes,
    );
    assert_eq!(from_syntax(chain.formula(), 69), Err(OracleError::ResourceIncomplete));
    assert!(from_syntax(chain.formula(), 62).is_ok());
    let word = Lasso::new(vec![], vec![cell(&[(0, Evidence::True)])]).unwrap();
    assert_eq!(
        evaluate_syntax(doc.formula(), 2, &[9], &word, 0, Limits::default()),
        Err(OracleError::GraphRootAbsent)
    );
}

#[test]
fn finite_refusals() {
    let cells = vec![bools(&[(0, true)])];
    assert_eq!(
        evaluate_finite(&atom(0), &cells, 1, Limits::default()),
        Err(OracleError::FinitePositionAbsent)
    );
    assert_eq!(
        evaluate_finite(&atom(1), &cells, 0, Limits::default()),
        Err(OracleError::FinitePropositionMissing)
    );
    assert_eq!(
        evaluate_finite(&F::Future(I::Unbounded { start: 0 }, Box::new(atom(0))), &cells, 0, Limits::default()),
        Err(OracleError::UnboundedFiniteInterval)
    );
    assert_eq!(
        evaluate_closed_trace_v1(&F::Once(I::Closed { start: 0, end: 0 }, Box::new(atom(0))), &cells, 0, Limits::default()),
        Err(OracleError::ClosedTracePastUnsupported)
    );
    assert_eq!(
        evaluate_origin_complete(&F::Globally(I::Closed { start: 0, end: 0 }, Box::new(atom(0))), &cells, 0, Limits::default()),
        Err(OracleError::OriginFutureUnsupported)
    );
    assert_eq!(evaluate_finite(&atom(0), &cells, 0, Limits::default()), Ok(true));
}

#[test]
fn duality_outcomes_agree_on_a_partial_word() {
    let word = Lasso::new(
        vec![cell(&[(0, Evidence::True), (1, Evidence::Missing)])],
        vec![cell(&[(0, Evidence::False), (1, Evidence::True)])],
    )
    .unwrap();
    let r = I::Closed { start: 0, end: 2 };
    let p = atom(0);
    let q = atom(1);
    let pairs = [
        (F::Future(r, Box::new(p.clone())), neg(F::Globally(r, Box::new(neg(p.clone()))))),
        (F::Once(r, Box::new(p.clone())), neg(F::Historically(r, Box::new(neg(p.clone()))))),
        (
            F::Until(r, Box::new(p.clone()), Box::new(q.clone())),
            neg(F::Release(r, Box::new(neg(p.clone())), Box::new(neg(q.clone())))),
        ),
        (
            F::Since(r, Box::new(p.clone()), Box::new(q.clone())),
            neg(F::Triggered(r, Box::new(neg(p.clone())), Box::new(neg(q.clone())))),
        ),
        (neg(neg(q.clone())), q.clone()),
    ];
    for (left, right) in pairs {
        for at in [0, 1, 2, 5] {
            assert_eq!(
                evaluate(&left, &[], &word, at, Limits::default()),
                evaluate(&right, &[], &word, at, Limits::default())
            );
        }
    }
}

#[test]
fn premise_only_removes_possibilities() {
    let word = Lasso::new(
        vec![],
        vec![
            cell(&[(0, Evidence::Missing), (1, Evidence::Missing)]),
            cell(&[(0, Evidence::True), (1, Evidence::False)]),
        ],
    )
    .unwrap();
    let claim = atom(0);
    let base = evaluate(&claim, &[], &word, 0, Limits::default()).unwrap();
    let fair = evaluate(&claim, &[atom(1)], &word, 0, Limits::default()).unwrap();
    assert_eq!(base.fair_completions, 4);
    assert_eq!(fair.fair_completions, 2);
    assert!(!fair.possible_true || base.possible_true);
    assert!(!fair.possible_false || base.possible_false);
}

#[test]
fn known_violation_refutes_always_at_every_earlier_position() {
    let word = Lasso::new(
        vec![
            cell(&[(0, Evidence::Missing)]),
            cell(&[(0, Evidence::True)]),
            cell(&[(0, Evidence::False)]),
        ],
        vec![cell(&[(0, Evidence::True)])],
    )
    .unwrap();
    let always = F::Globally(I::Unbounded { start: 0 }, Box::new(atom(0)));
    for at in [0, 1, 2] {
        let result = evaluate(&always, &[], &word, at, Limits::default()).unwrap();
        assert_eq!(result.verdict, Verdict::Refuted);
        assert!(!result.possible_true);
    }
    assert_eq!(evaluate(&always, &[], &word, 3, Limits::default()).unwrap().verdict, Verdict::Proved);
}

#[test]
fn unrolling_and_periodicity_on_a_complete_word() {
    let prefix = vec![cell(&[(0, Evidence::True)])];
    let lap = vec![cell(&[(0, Evidence::False)]), cell(&[(0, Evidence::True)])];
    let word = Lasso::new(prefix.clone(), lap.clone()).unwrap();
    let mut longer = prefix.clone();
    longer.extend(lap.clone());
    let unrolled = Lasso::new(longer, lap).unwrap();
    let formula = F::Since(
        I::Unbounded { start: 1 },
        Box::new(F::Future(I::Closed { start: 0, end: 1 }, Box::new(atom(0)))),
        Box::new(atom(0)),
    );
    for at in 0..9 {
        let here = evaluate(&formula, &[], &word, at, Limits::default());
        assert_eq!(here, evaluate(&formula, &[], &unrolled, at, Limits::default()));
        if at >= 3 {
            assert_eq!(here, evaluate(&formula, &[], &word, at + 2, Limits::default()));
        }
    }
}

#[test]
fn case_identifiers_are_contiguous() {
    let population = V11Population::new();
    assert_eq!(population.case_id(0, 0, 0, 0), Some(0));
    assert_eq!(population.case_id(0, 0, 0, 1), Some(1));
    assert_eq!(population.case_id(0, 0, 1, 0), Some(4));
    assert_eq!(population.case_id(0, 1, 0, 0), Some(12));
    assert_eq!(population.case_id(1, 0, 0, 0), Some(4464));
    assert_eq!(population.case_id(29, 371, 2, 3), Some(DECLARED_CASES - 1));
    assert_eq!(population.case_id(30, 0, 0, 0), None);
    assert_eq!(population.case_id(0, 372, 0, 0), None);
    assert_eq!(population.case_id(0, 0, 3, 0), None);
    assert_eq!(population.case_id(0, 0, 0, 4), None);
    assert_eq!(Fairness::P.roots(), &[0]);
    assert_eq!(Fairness::NoPremise.roots(), &[] as &[u32]);
}

#[test]
fn expected_fair_completions_formula() {
    let population = V11Population::default();
    let words = population.words();
    let mixed = &words[364];
    assert_eq!(mixed.cells()[0][0], PartialValue::Missing);
    assert_eq!(mixed.cells()[1][1], PartialValue::Conflicting);
    assert_eq!(mixed.expected_fair_completions(Fairness::NoPremise), 4);
    assert_eq!(mixed.prefix_len, 0);
    assert_eq!(mixed.expected_fair_completions(Fairness::P), 2);
    assert_eq!(mixed.expected_fair_completions(Fairness::Q), 2);
    let complete = &words[0];
    assert_eq!(complete.expected_fair_completions(Fairness::P), 0);
    assert_eq!(complete.expected_fair_completions(Fairness::NoPremise), 1);
}

#[test]
fn atomic_premise_counts_and_expected_counts_agree() {
    let word = Lasso::new(
        vec![cell(&[(0, Evidence::Missing)])],
        vec![cell(&[(0, Evidence::Missing)]), cell(&[(0, Evidence::False)])],
    )
    .unwrap();
    let claim = atom(0);
    assert_eq!(evaluate(&claim, &[], &word, 0, Limits::default()).unwrap().fair_completions, 4);
    assert_eq!(evaluate(&claim, &[atom(0)], &word, 0, Limits::default()).unwrap().fair_completions, 2);
    let never = Lasso::new(vec![], vec![cell(&[(0, Evidence::False)])]).unwrap();
    assert_eq!(
        evaluate(&claim, &[atom(0)], &never, 0, Limits::default()),
        Err(OracleError::EmptyFairAdmission)
    );
    let population = V11Population::new();
    let p = atom(0);
    let q = atom(1);
    for index in [0, 5, 230, 300, 364, 371] {
        let word = &population.words()[index];
        let lasso = Lasso::from(&word.trace);
        for (fairness, premises) in [
            (Fairness::NoPremise, vec![]),
            (Fairness::P, vec![p.clone()]),
            (Fairness::Q, vec![q.clone()]),
        ] {
            let expected = word.expected_fair_completions(fairness);
            let actual = evaluate(&F::And(Box::new(p.clone()), Box::new(q.clone())), &premises, &lasso, 0, Limits::default());
            if expected == 0 {
                assert_eq!(actual, Err(OracleError::EmptyFairAdmission));
            } else {
                assert_eq!(actual.unwrap().fair_completions as u64, expected);
            }
        }
    }
}

#[test]
fn ledger_refusals() {
    assert_eq!(PopulationLedger::new(0).unwrap_err(), PopulationError::Empty);
    let mut ledger = PopulationLedger::new(2).unwrap();
    ledger.record(1, CaseResult::<u64>::Refused, CaseResult::Refused).unwrap();
    ledger.record(0, CaseResult::Admitted(3_u64), CaseResult::Admitted(3)).unwrap();
    assert_eq!(
        ledger.finish(),
        Ok(PopulationSummary {
            declared: 2,
            admitted: 1,
            refused: 1,
        })
    );
}

#[test]
fn closed_profile_agrees_with_finite_evaluation_on_future_formulas() {
    let cells = vec![
        bools(&[(0, true), (1, false)]),
        bools(&[(0, false), (1, true)]),
        bools(&[(0, true), (1, true)]),
    ];
    let formulas = vec![
        F::Future(I::Closed { start: 1, end: 2 }, Box::new(atom(1))),
        F::Globally(I::Closed { start: 0, end: 1 }, Box::new(atom(0))),
        F::Until(I::Closed { start: 0, end: 2 }, Box::new(atom(0)), Box::new(atom(1))),
        F::Release(I::Closed { start: 0, end: 1 }, Box::new(atom(0)), Box::new(atom(1))),
        F::And(Box::new(neg(atom(0))), Box::new(F::Future(I::Closed { start: 0, end: 0 }, Box::new(atom(1))))),
    ];
    for formula in &formulas {
        for at in 0..3 {
            let closed = evaluate_closed_trace_v1(formula, &cells, at, Limits::default());
            let finite = evaluate_finite(formula, &cells, at, Limits::default());
            assert!(closed.is_ok() && finite.is_ok());
            assert_eq!(closed, finite, "{formula:?} at {at}");
        }
    }
    let shifted_guard = F::Until(I::Closed { start: 1, end: 1 }, Box::new(atom(1)), Box::new(atom(1)));
    assert_eq!(evaluate_closed_trace_v1(&shifted_guard, &cells, 0, Limits::default()), Ok(true));
    assert_eq!(evaluate_finite(&shifted_guard, &cells, 0, Limits::default()), Ok(false));
}

#[test]
fn ledger_history_keeps_the_first_failure_and_counts_agreeing_visits() {
    let mut ledger = PopulationLedger::new(3).unwrap();
    ledger.record(0, CaseResult::Admitted(1_u64), CaseResult::Admitted(1)).unwrap();
    assert_eq!(
        ledger.record(0, CaseResult::<u64>::Refused, CaseResult::Refused),
        Err(PopulationError::Duplicate { case_id: 0 })
    );
    assert_eq!(
        ledger.record(1, CaseResult::Admitted(1_u64), CaseResult::Admitted(2)),
        Err(PopulationError::Mismatch { case_id: 1 })
    );
    assert_eq!(
        ledger.record(1, CaseResult::<u64>::Refused, CaseResult::Refused),
        Err(PopulationError::Duplicate { case_id: 1 })
    );
    ledger.record(2, CaseResult::<u64>::Refused, CaseResult::Refused).unwrap();
    assert_eq!(ledger.finish(), Err(PopulationError::Duplicate { case_id: 0 }));
    let mut short = PopulationLedger::new(3).unwrap();
    short.record(2, CaseResult::<u64>::Refused, CaseResult::Refused).unwrap();
    assert_eq!(short.finish(), Err(PopulationError::Incomplete { declared: 3, visited: 1 }));
}

#[test]
fn outcome_shape_and_copies() {
    let word = Lasso::new(
        vec![cell(&[(0, Evidence::Missing)])],
        vec![cell(&[(0, Evidence::True), (1, Evidence::Conflicting)])],
    )
    .unwrap();
    let copy = word.clone();
    let outcome = evaluate(&atom(0), &[], &copy, 0, Limits::default()).unwrap();
    assert_eq!(outcome, evaluate(&atom(0), &[], &word, 0, Limits::default()).unwrap());
    assert_eq!(outcome.fair_completions, 8);
    assert_eq!(outcome.verdict, Verdict::Inconclusive);
    assert!(outcome.possible_true && outcome.possible_false);
    assert_eq!(outcome.uncertainty, Uncertainty::Mixed);
    let later = evaluate(&atom(0), &[], &word, 1, Limits::default()).unwrap();
    assert_eq!(later.verdict, Verdict::Proved);
    assert!(later.possible_true && !later.possible_false);
    let population = V11Population::new();
    let word = population.words()[364].clone();
    assert_eq!(word.cells(), population.words()[364].cells());
    assert_eq!(
        Lasso::from(&word.trace.clone()).loop_entry(),
        Lasso::from(&population.words()[364].trace).loop_entry()
    );
}

#[test]
fn closed_graphs_name_every_operand() {
    let good = FormulaDocument::new(
        SemanticProfile::InfiniteTraceV1,
        InfiniteClock::EventPosition,
        2,
        vec![
            NodeKind::Proposition { proposition: 0 },
            NodeKind::Proposition { proposition: 1 },
            NodeKind::And { left: 0, right: 1 },
        ],
    );
    assert!(good.formula().is_closed());
    assert_eq!(
        from_syntax(good.formula(), 2),
        Ok(F::And(Box::new(atom(0)), Box::new(atom(1))))
    );
    let dangling = FormulaDocument::new(
        SemanticProfile::InfiniteTraceV1,
        InfiniteClock::EventPosition,
        1,
        vec![NodeKind::Proposition { proposition: 0 }, NodeKind::Not { operand: 7 }],
    );
    assert!(!dangling.formula().is_closed());
    assert_eq!(from_syntax(dangling.formula(), 1), Err(OracleError::GraphRootAbsent));
    let far_root = FormulaDocument::new(
        SemanticProfile::InfiniteTraceV1,
        InfiniteClock::EventPosition,
        5,
        vec![NodeKind::True],
    );
    assert!(!far_root.formula().is_closed());
}

#[test]
fn trace_consistency_checks_declarations() {
    let fine = trace(
        vec![0, 1],
        vec![observation(0, &[(0, PartialValue::True)])],
        vec![observation(1, &[(1, PartialValue::Missing), (0, PartialValue::False)])],
    );
    assert!(fine.is_consistent());
    let undeclared = trace(vec![0], vec![], vec![observation(0, &[(3, PartialValue::True)])]);
    assert!(!undeclared.is_consistent());
    let repeated = trace(vec![0, 0], vec![], vec![observation(0, &[(0, PartialValue::True)])]);
    assert!(!repeated.is_consistent());
    let copy = fine.clone();
    assert!(copy.is_consistent());
    assert_eq!(copy.loop_entry(), fine.loop_entry());
}

#[test]
fn any_limits_are_accepted_and_overflowing_scans_refuse() {
    let word = Lasso::new(
        vec![cell(&[(0, Evidence::False)])],
        vec![cell(&[(0, Evidence::Missing)]), cell(&[(0, Evidence::True)])],
    )
    .unwrap();
    let wide = Limits {
        max_offset: usize::MAX,
        max_positions: usize::MAX,
        ..Limits::default()
    };
    let eventually = F::Future(I::Unbounded { start: 0 }, Box::new(atom(0)));
    let far_end = F::Future(I::Closed { start: 0, end: usize::MAX }, Box::new(atom(0)));
    for at in 0..4 {
        let expected = evaluate(&eventually, &[], &word, at, Limits::default());
        assert!(expected.is_ok());
        assert_eq!(evaluate(&eventually, &[], &word, at, wide), expected);
        assert_eq!(evaluate(&far_end, &[], &word, at, wide), expected);
        let since = F::Since(I::Unbounded { start: 0 }, Box::new(atom(0)), Box::new(neg(atom(0))));
        assert_eq!(
            evaluate(&since, &[atom(0)], &word, at, wide),
            evaluate(&since, &[atom(0)], &word, at, Limits::default())
        );
    }
    let beyond = F::Future(I::Unbounded { start: usize::MAX - 1 }, Box::new(atom(0)));
    assert_eq!(evaluate(&beyond, &[], &word, 0, wide), Err(OracleError::ResourceIncomplete));
    let doc = atom_document(SemanticProfile::InfiniteTraceV1, InfiniteClock::EventPosition, 0);
    assert_eq!(
        evaluate_syntax(doc.formula(), 0, &[], &word, 1, wide),
        evaluate(&atom(0), &[], &word, 1, Limits::default())
    );
}
