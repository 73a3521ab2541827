//! The population's expected fair completion counts are the evaluator's.
//!
//! A generated word observes p and q in every cell, so the evaluator
//! enumerates exactly the open values of the word, and an atomic premise on p
//! or q admits the completions that [`fair_count`] counts.

use vstd::prelude::*;
use vstd::arithmetic::power2::pow2;
use crate::{Evidence, Formula, Interval, Limits, OracleError, Outcome};
use crate::atoms::depth_of;
use crate::sequence::plan;
use crate::atoms::larger;
use crate::lasso::{admission, completion, deepest, has_impossible, step, tally};
use crate::v11::{formula_axis, prop_p, prop_q, temporal_shapes, FORMULA_COUNT};
use crate::atoms::{atoms_of, increasing, lemma_increasing_unique, lemma_sorted_exists, sorted};
use crate::census::{
    atomic_admitted, known_true_in_loop, law_atomic_premise_count, law_unconstrained_count,
    open_loop_cells, open_observations,
};
use crate::lasso::{evaluation, evidence_of, is_unknown, offset_of, premise_atoms, row_of, universe};
use crate::laws::lemma_cell_keys;
use crate::syntax::{evidence_of_value, PartialValue};
use crate::v11::{
    fair_count, is_open, lemma_open_at_bound, lemma_open_count_bound, open_at, open_count, true_in_loop,
    word_cell, word_ok, Fairness, V11Word,
};

verus! {

/// The premises a fairness mode puts on a claim over p and q.
pub open spec fn premises_of(fairness: Fairness) -> Seq<Formula> {
    match fairness.proposition() {
        None => Seq::empty(),
        Some(k) => seq![Formula::Atom(k as u32)],
    }
}

/// `cells` are the evidence cells of the generated cells `wc`.
pub open spec fn cells_of_word(cells: Seq<Map<u32, Evidence>>, wc: Seq<[PartialValue; 2]>) -> bool {
    &&& cells.len() == wc.len()
    &&& forall|j: int| 0 <= j < wc.len() ==> #[trigger] cells[j] == word_cell(wc[j])
}

proof fn lemma_word_evidence(c: [PartialValue; 2], k: int)
    requires
        0 <= k < 2,
    ensures
        evidence_of(word_cell(c), k as u32) == evidence_of_value(c@[k]),
        is_unknown(evidence_of(word_cell(c), k as u32)) <==> is_open(c@[k]),
        evidence_of(word_cell(c), k as u32) == Evidence::True <==> c@[k] == PartialValue::True,
{
}

/// Every generated cell observes exactly p and q.
proof fn lemma_word_universe(claim: Formula, fs: Seq<Formula>, cells: Seq<Map<u32, Evidence>>, wc: Seq<[PartialValue; 2]>)
    requires
        cells_of_word(cells, wc),
        wc.len() > 0,
        atoms_of(claim).subset_of(set![0u32, 1u32]),
        premise_atoms(fs, fs.len()).subset_of(set![0u32, 1u32]),
    ensures
        universe(claim, fs, cells) == set![0u32, 1u32],
{
    assert forall|a: u32| universe(claim, fs, cells).contains(a) <==> #[trigger] set![0u32, 1u32].contains(a) by {
        lemma_cell_keys(cells, a);
        assert(cells[0] == word_cell(wc[0]));
        if exists|i: int| 0 <= i < cells.len() && #[trigger] cells[i].contains_key(a) {
            let i = choose|i: int| 0 <= i < cells.len() && #[trigger] cells[i].contains_key(a);
            assert(cells[i] == word_cell(wc[i]));
        }
    }
    assert(universe(claim, fs, cells) =~= set![0u32, 1u32]);
}

proof fn lemma_sorted_pair()
    ensures
        sorted(set![0u32, 1u32]) == seq![0u32, 1u32],
{
    let s = set![0u32, 1u32];
    let t = seq![0u32, 1u32];
    lemma_sorted_exists(s);
    assert(t.to_set() =~= s) by {
        assert(t[0] == 0u32 && t[1] == 1u32);
        assert forall|a: u32| t.to_set().contains(a) <==> s.contains(a) by {
            if s.contains(a) {
                if a == 0 {
                    assert(t.contains(a) == (exists|i: int| 0 <= i < t.len() && t[i] == a));
                    assert(t[0] == a);
                } else {
                    assert(t[1] == a);
                }
            }
        }
    }
    assert(increasing(t));
    lemma_increasing_unique(sorted(s), t);
}

proof fn lemma_word_row(c: [PartialValue; 2])
    ensures
        row_of(seq![0u32, 1u32], word_cell(c)).len() == crate::v11::open_bit(c@[0]) + crate::v11::open_bit(c@[1]),
{
    let a = seq![0u32, 1u32];
    assert(a.drop_last() =~= seq![0u32]);
    assert(a.drop_last().drop_last() =~= Seq::<u32>::empty());
    reveal_with_fuel(row_of, 3);
    lemma_word_evidence(c, 0);
    lemma_word_evidence(c, 1);
}

/// The completion bits of the first `i` cells are their open values.
proof fn lemma_word_offset(cells: Seq<Map<u32, Evidence>>, wc: Seq<[PartialValue; 2]>, i: nat)
    requires
        cells_of_word(cells, wc),
        i <= wc.len(),
    ensures
        offset_of(seq![0u32, 1u32], cells, i) == open_count(wc.take(i as int)),
    decreases i,
{
    if i == 0 {
        assert(wc.take(0) =~= Seq::<[PartialValue; 2]>::empty());
    } else {
        lemma_word_offset(cells, wc, (i - 1) as nat);
        lemma_word_row(wc[i - 1]);
        assert(cells[i - 1] == word_cell(wc[i - 1]));
        assert(wc.take(i as int).drop_last() =~= wc.take(i - 1));
    }
}

/// The open loop observations of proposition `k` among cells `entry..hi`.
proof fn lemma_word_loop_open(cells: Seq<Map<u32, Evidence>>, wc: Seq<[PartialValue; 2]>, entry: nat, k: int, hi: nat)
    requires
        cells_of_word(cells, wc),
        entry <= hi <= wc.len(),
        0 <= k < 2,
    ensures
        Set::new(|j: int| entry <= j < hi && is_unknown(evidence_of(cells[j], k as u32))).finite(),
        Set::new(|j: int| entry <= j < hi && is_unknown(evidence_of(cells[j], k as u32))).len()
            == open_at(wc.subrange(entry as int, hi as int), k),
    decreases hi,
{
    let s = Set::new(|j: int| entry <= j < hi && is_unknown(evidence_of(cells[j], k as u32)));
    if hi == entry {
        assert(s =~= Set::<int>::empty());
        assert(wc.subrange(entry as int, hi as int) =~= Seq::<[PartialValue; 2]>::empty());
    } else {
        let h = (hi - 1) as nat;
        lemma_word_loop_open(cells, wc, entry, k, h);
        let prev = Set::new(|j: int| entry <= j < h && is_unknown(evidence_of(cells[j], k as u32)));
        let sub = wc.subrange(entry as int, hi as int);
        assert(sub.drop_last() =~= wc.subrange(entry as int, h as int));
        assert(sub.last() == wc[h as int]);
        assert(cells[h as int] == word_cell(wc[h as int]));
        lemma_word_evidence(wc[h as int], k);
        if is_unknown(evidence_of(cells[h as int], k as u32)) {
            assert(s =~= prev.insert(h as int));
        } else {
            assert(s =~= prev);
        }
    }
}

proof fn lemma_word_known_true(cells: Seq<Map<u32, Evidence>>, wc: Seq<[PartialValue; 2]>, entry: nat, k: int)
    requires
        cells_of_word(cells, wc),
        0 <= k < 2,
    ensures
        known_true_in_loop(cells, entry, k as u32) <==> true_in_loop(wc, entry, k),
{
    if known_true_in_loop(cells, entry, k as u32) {
        let j = choose|j: int| entry <= j < cells.len() && evidence_of(#[trigger] cells[j], k as u32) == Evidence::True;
        assert(cells[j] == word_cell(wc[j]));
        lemma_word_evidence(wc[j], k);
        assert(wc[j]@[k] == PartialValue::True);
    }
    if true_in_loop(wc, entry, k) {
        let j = choose|j: int| entry <= j < wc.len() && #[trigger] wc[j]@[k] == PartialValue::True;
        assert(cells[j] == word_cell(wc[j]));
        lemma_word_evidence(wc[j], k);
        assert(evidence_of(cells[j], k as u32) == Evidence::True);
    }
}

proof fn lemma_shift_pow2(e: nat)
    requires
        e <= 6,
    ensures
        (1usize << (e as usize)) as nat == pow2(e),
{
    vstd::arithmetic::power2::lemma2_to64();
    if e < 6 {
        vstd::arithmetic::power2::lemma_pow2_strictly_increases(e, 6);
    }
    vstd::bits::lemma_usize_shl_is_mul(1, e as usize);
}

/// For every generated word and every claim over p and q, the evaluation of
/// the word's lasso under the premise of a fairness mode, where it concludes
/// (with an outcome, or refused for want of admitted completions), concludes
/// with an outcome exactly when the word's expected count [`fair_count`] is
/// positive, and then counts that many fair completions.
pub proof fn law_expected_fair_completions(claim: Formula, w: V11Word, fairness: Fairness, position: nat, limits: Limits)
    requires
        word_ok(w),
        atoms_of(claim).subset_of(set![0u32, 1u32]),
        evaluation(claim, premises_of(fairness), w.view_trace().view_cells(), w.view_trace().entry(), position, limits) is Ok
            || evaluation(claim, premises_of(fairness), w.view_trace().view_cells(), w.view_trace().entry(), position, limits)
                == Err::<Outcome, OracleError>(OracleError::EmptyFairAdmission),
    ensures
        evaluation(claim, premises_of(fairness), w.view_trace().view_cells(), w.view_trace().entry(), position, limits) is Ok
            <==> fair_count(w.view_cells(), w.view_prefix(), fairness) > 0,
        evaluation(claim, premises_of(fairness), w.view_trace().view_cells(), w.view_trace().entry(), position, limits) is Ok
            ==> evaluation(claim, premises_of(fairness), w.view_trace().view_cells(), w.view_trace().entry(), position, limits)->Ok_0.fair_completions
            == fair_count(w.view_cells(), w.view_prefix(), fairness),
{
    let wc = w.view_cells();
    let cells = w.view_trace().view_cells();
    let entry = w.view_trace().entry();
    let fs = premises_of(fairness);
    assert(cells_of_word(cells, wc));
    assert forall|j: int| 0 <= j < cells.len() implies #[trigger] cells[j].dom().finite() by {
        assert(cells[j] == word_cell(wc[j]));
        assert(cells[j].dom() =~= set![0u32, 1u32]);
    }
    assert(premise_atoms(fs, fs.len()).subset_of(set![0u32, 1u32])) by {
        if fs.len() == 1 {
            assert(premise_atoms(fs, 1) == premise_atoms(fs, 0) + atoms_of(fs[0]));
        }
    }
    lemma_word_universe(claim, fs, cells, wc);
    lemma_sorted_pair();
    lemma_word_offset(cells, wc, wc.len());
    assert(wc.take(wc.len() as int) =~= wc);
    let n = open_count(wc);
    assert(open_observations(claim, fs, cells) == n);
    lemma_open_count_bound(wc);
    lemma_shift_pow2(n);
    match fairness.proposition() {
        None => {
            law_unconstrained_count(claim, cells, entry, position, limits);
            vstd::arithmetic::power2::lemma_pow2_pos(n);
        },
        Some(k) => {
            law_atomic_premise_count(claim, k as u32, cells, entry, position, limits);
            lemma_word_known_true(cells, wc, entry, k);
            lemma_word_loop_open(cells, wc, entry, k, wc.len());
            assert(open_loop_cells(cells, entry, k as u32) =~= Set::new(
                |j: int| entry <= j < wc.len() && is_unknown(evidence_of(cells[j], k as u32)),
            ));
            let open = open_at(wc.subrange(entry as int, wc.len() as int), k);
            crate::v11::lemma_open_at_suffix(wc, entry as int, k);
            lemma_open_at_bound(wc, k);
            lemma_shift_pow2((n - open) as nat);
            assert(atomic_admitted(n, known_true_in_loop(cells, entry, k as u32), open) == fair_count(wc, entry, fairness));
        },
    }
}

/// An interval of the population: closed within offset two, or unbounded from zero.
pub open spec fn small_interval(r: Interval) -> bool {
    match r {
        Interval::Closed { start, end } => start <= end && end <= 2,
        Interval::Unbounded { start } => start == 0,
    }
}

/// A formula over p and q of depth at most `d` whose intervals are small.
pub open spec fn tame(f: Formula, d: nat) -> bool
    decreases f,
{
    d > 0 && match f {
        Formula::False | Formula::True => true,
        Formula::Atom(a) => a < 2,
        Formula::Not(p) | Formula::StrongPrevious(p) => tame(*p, (d - 1) as nat),
        Formula::And(p, q) | Formula::Or(p, q) | Formula::Implies(p, q) | Formula::Equivalent(p, q) => {
            tame(*p, (d - 1) as nat) && tame(*q, (d - 1) as nat)
        },
        Formula::Future(r, p) | Formula::Globally(r, p) | Formula::Once(r, p) | Formula::Historically(r, p) => {
            small_interval(r) && tame(*p, (d - 1) as nat)
        },
        Formula::Until(r, p, q) | Formula::Release(r, p, q) | Formula::Since(r, p, q) | Formula::Triggered(r, p, q) => {
            small_interval(r) && tame(*p, (d - 1) as nat) && tame(*q, (d - 1) as nat)
        },
    }
}

/// A tame formula is no deeper than its bound and mentions only p and q.
proof fn lemma_tame_facts(f: Formula, d: nat)
    requires
        tame(f, d),
    ensures
        depth_of(f) <= d,
        atoms_of(f).subset_of(set![0u32, 1u32]),
    decreases f,
{
    match f {
        Formula::False | Formula::True | Formula::Atom(_) => {},
        Formula::Not(p) | Formula::StrongPrevious(p) => lemma_tame_facts(*p, (d - 1) as nat),
        Formula::Future(_, p) | Formula::Globally(_, p) | Formula::Once(_, p) | Formula::Historically(_, p) => {
            lemma_tame_facts(*p, (d - 1) as nat)
        },
        Formula::And(p, q) | Formula::Or(p, q) | Formula::Implies(p, q) | Formula::Equivalent(p, q)
        | Formula::Until(_, p, q) | Formula::Release(_, p, q) | Formula::Since(_, p, q)
        | Formula::Triggered(_, p, q) => {
            lemma_tame_facts(*p, (d - 1) as nat);
            lemma_tame_facts(*q, (d - 1) as nat);
        },
    }
}

/// A tame formula of depth `d` materializes, on a word of loop length `p`,
/// no later than `d - 1` steps of `2 + 2p` past the loop entry.
proof fn lemma_tame_plan(f: Formula, d: nat, w: Seq<Map<u32, bool>>, entry: nat, limits: Limits)
    requires
        tame(f, d),
        entry < w.len(),
        limits.max_offset >= 2,
        entry + d * (2 + 2 * (w.len() - entry)) + (w.len() - entry) <= limits.max_positions,
        2 * (entry + d * (2 + 2 * (w.len() - entry)) + (w.len() - entry)) + 2 <= usize::MAX,
    ensures
        plan(f, w, entry, limits) is Ok,
        plan(f, w, entry, limits)->Ok_0 + (2 + 2 * (w.len() - entry)) <= entry + d * (2 + 2 * (w.len() - entry)),
    decreases f,
{
    let p = (w.len() - entry) as nat;
    let k = 2 + 2 * p;
    let e = (d - 1) as nat;
    assert(d * k == e * k + k) by (nonlinear_arith)
        requires
            d == e + 1,
    ;
    assert(e * k >= 0) by (nonlinear_arith)
        requires
            k >= 0,
    ;
    match f {
        Formula::False | Formula::True | Formula::Atom(_) => {},
        Formula::Not(a) => lemma_tame_plan(*a, e, w, entry, limits),
        Formula::StrongPrevious(a) => lemma_tame_plan(*a, e, w, entry, limits),
        Formula::And(a, b) | Formula::Or(a, b) | Formula::Implies(a, b) | Formula::Equivalent(a, b) => {
            lemma_tame_plan(*a, e, w, entry, limits);
            lemma_tame_plan(*b, e, w, entry, limits);
        },
        Formula::Future(_, a) | Formula::Globally(_, a) | Formula::Once(_, a) | Formula::Historically(_, a) => {
            lemma_tame_plan(*a, e, w, entry, limits);
        },
        Formula::Until(_, a, b) | Formula::Release(_, a, b) | Formula::Since(_, a, b) | Formula::Triggered(_, a, b) => {
            lemma_tame_plan(*a, e, w, entry, limits);
            lemma_tame_plan(*b, e, w, entry, limits);
        },
    }
}

proof fn lemma_admission_ok(fs: Seq<Formula>, k: nat, w: Seq<Map<u32, bool>>, entry: nat, limits: Limits)
    requires
        forall|i: int| 0 <= i < fs.len() ==> #[trigger] plan(fs[i], w, entry, limits) is Ok,
    ensures
        admission(fs, k, w, entry, limits) is Ok,
    decreases k,
{
    if k > 0 && k <= fs.len() {
        lemma_admission_ok(fs, (k - 1) as nat, w, entry, limits);
        assert(plan(fs[k - 1], w, entry, limits) is Ok);
    }
}

pub(crate) proof fn lemma_tally_ok(
    claim: Formula,
    fs: Seq<Formula>,
    cells: Seq<Map<u32, Evidence>>,
    atoms: Seq<u32>,
    entry: nat,
    limits: Limits,
    position: nat,
    m: nat,
)
    requires
        forall|j: nat| j < m ==> #[trigger] step(claim, fs, completion(cells, atoms, j as usize), entry, limits, position) is Ok,
    ensures
        tally(claim, fs, cells, atoms, entry, limits, position, m) is Ok,
    decreases m,
{
    reveal(tally);
    if m > 0 {
        lemma_tally_ok(claim, fs, cells, atoms, entry, limits, position, (m - 1) as nat);
        assert(step(claim, fs, completion(cells, atoms, (m - 1) as nat as usize), entry, limits, position) is Ok);
    }
}

/// Every formula of the population is tame within depth four.
proof fn lemma_axis_tame(k: int)
    requires
        0 <= k < FORMULA_COUNT,
    ensures
        tame(formula_axis()[k], 4),
{
    reveal_with_fuel(tame, 4);
    let u = crate::v11::from_zero();
    let c = crate::v11::closed_one_two();
    let head = seq![
        Formula::False,
        Formula::True,
        prop_p(),
        prop_q(),
        Formula::Not(Box::new(prop_p())),
        Formula::And(Box::new(prop_p()), Box::new(prop_q())),
        Formula::Or(Box::new(prop_p()), Box::new(prop_q())),
        Formula::Implies(Box::new(prop_p()), Box::new(prop_q())),
        Formula::Equivalent(Box::new(prop_p()), Box::new(prop_q())),
    ];
    let tail = seq![
        Formula::StrongPrevious(Box::new(prop_p())),
        Formula::Future(u, Box::new(Formula::Historically(u, Box::new(prop_p())))),
        Formula::Historically(u, Box::new(Formula::Future(u, Box::new(prop_p())))),
        Formula::Globally(u, Box::new(Formula::Once(u, Box::new(prop_p())))),
        Formula::Once(u, Box::new(Formula::Globally(u, Box::new(prop_p())))),
    ];
    let a = temporal_shapes(c);
    let b = temporal_shapes(u);
    assert(formula_axis() == head + a + b + tail);
    let f = formula_axis()[k];
    if k < 9 {
        assert(f == head[k]);
    } else if k < 17 {
        assert(f == a[k - 9]);
    } else if k < 25 {
        assert(f == b[k - 17]);
    } else {
        assert(f == tail[k - 25]);
    }
}

/// Every case of the population concludes under limits no smaller than the
/// default ones: the evaluation of formula `k` of the axis on a generated
/// word, under the premise of a fairness mode and at any position, is refused
/// exactly when the word's expected count [`fair_count`] is zero, and then
/// for want of admitted completions; otherwise it has an outcome with that
/// many fair completions.
#[verifier::rlimit(50)]
pub proof fn law_population_census(k: int, w: V11Word, fairness: Fairness, position: nat, limits: Limits)
    requires
        0 <= k < FORMULA_COUNT,
        word_ok(w),
        limits.max_depth >= 4,
        limits.max_offset >= 2,
        limits.max_positions >= 64,
        limits.max_completions >= 64,
    ensures
        evaluation(formula_axis()[k], premises_of(fairness), w.view_trace().view_cells(), w.view_trace().entry(), position, limits) is Ok
            <==> fair_count(w.view_cells(), w.view_prefix(), fairness) > 0,
        !(evaluation(formula_axis()[k], premises_of(fairness), w.view_trace().view_cells(), w.view_trace().entry(), position, limits) is Ok)
            ==> evaluation(formula_axis()[k], premises_of(fairness), w.view_trace().view_cells(), w.view_trace().entry(), position, limits)
            == Err::<Outcome, OracleError>(OracleError::EmptyFairAdmission),
        evaluation(formula_axis()[k], premises_of(fairness), w.view_trace().view_cells(), w.view_trace().entry(), position, limits) is Ok
            ==> evaluation(formula_axis()[k], premises_of(fairness), w.view_trace().view_cells(), w.view_trace().entry(), position, limits)->Ok_0.fair_completions
            == fair_count(w.view_cells(), w.view_prefix(), fairness),
{
    let claim = formula_axis()[k];
    let wc = w.view_cells();
    let cells = w.view_trace().view_cells();
    let entry = w.view_trace().entry();
    let fs = premises_of(fairness);
    lemma_axis_tame(k);
    lemma_tame_facts(claim, 4);
    assert(cells_of_word(cells, wc));
    assert forall|i: int| 0 <= i < fs.len() implies #[trigger] tame(fs[i], 1) by {
        reveal_with_fuel(tame, 2);
    }
    assert(deepest(claim, fs, fs.len()) <= 4) by {
        if fs.len() == 1 {
            assert(deepest(claim, fs, 1) == larger(deepest(claim, fs, 0), depth_of(fs[0])));
        }
    }
    assert(!has_impossible(cells)) by {
        if has_impossible(cells) {
            let (i, a) = choose|i: int, a: u32| 0 <= i < cells.len() && cells[i].contains_key(a) && cells[i][a] == Evidence::Impossible;
            assert(cells[i] == word_cell(wc[i]));
        }
    }
    assert(premise_atoms(fs, fs.len()).subset_of(set![0u32, 1u32])) by {
        if fs.len() == 1 {
            assert(premise_atoms(fs, 1) == premise_atoms(fs, 0) + atoms_of(fs[0]));
        }
    }
    lemma_word_universe(claim, fs, cells, wc);
    lemma_sorted_pair();
    let atoms = seq![0u32, 1u32];
    lemma_word_offset(cells, wc, wc.len());
    assert(wc.take(wc.len() as int) =~= wc);
    let n = open_count(wc);
    lemma_open_count_bound(wc);
    lemma_shift_pow2(n);
    vstd::arithmetic::power2::lemma2_to64();
    if n < 6 {
        vstd::arithmetic::power2::lemma_pow2_strictly_increases(n, 6);
    }
    let mm = (1usize << (n as usize)) as nat;
    assert forall|j: nat| j < mm implies #[trigger] step(claim, fs, completion(cells, atoms, j as usize), entry, limits, position) is Ok by {
        let cw = completion(cells, atoms, j as usize);
        assert(cw.len() == cells.len());
        lemma_tame_plan(claim, 4, cw, entry, limits);
        assert forall|i: int| 0 <= i < fs.len() implies #[trigger] plan(fs[i], cw, entry, limits) is Ok by {
            lemma_tame_plan(fs[i], 1, cw, entry, limits);
        }
        lemma_admission_ok(fs, fs.len(), cw, entry, limits);
    }
    lemma_tally_ok(claim, fs, cells, atoms, entry, limits, position, mm);
    law_expected_fair_completions(claim, w, fairness, position, limits);
}

} // verus!
