//! A declared, distinct population of formulas, lasso words, fairness modes
//! and anchors, for comparing an evaluator with this crate case by case.
//!
//! This is a completed small partition, not an unbounded target: every axis
//! has a fixed declared size, and every case has a contiguous identifier, so
//! a comparison run can show with a [`PopulationLedger`](crate::population::PopulationLedger)
//! that it visited every case once.

use vstd::prelude::*;
use vstd::arithmetic::power2::pow2;
use crate::{Evidence, Formula, Interval};
use crate::syntax::{
    assemble, carried, evidence_of_value, interval_of, lower, operands, syntax_formula,
    FormulaDocument, FormulaGraph, InfiniteClock, NodeId, NodeKind, PartialValue, SemanticProfile,
    TemporalInterval, TraceDocument, TraceObservation, ValuationEntry,
};

verus! {

/// Formula shapes in the partition: leaves, Boolean operators, every
/// infinite-profile temporal operator, and four mixed nestings.
pub const FORMULA_COUNT: usize = 30;
/// Distinct complete two-proposition lassos through three materialized cells.
pub const COMPLETE_WORD_COUNT: usize = 228;
/// Distinct one-unknown lassos through two materialized cells.
pub const SINGLE_UNKNOWN_WORD_COUNT: usize = 136;
/// Distinct two-unknown mixed Missing/Conflicting lassos of length two.
pub const MIXED_WORD_COUNT: usize = 8;
/// Total distinct lasso words in this partition.
pub const WORD_COUNT: usize = COMPLETE_WORD_COUNT + SINGLE_UNKNOWN_WORD_COUNT + MIXED_WORD_COUNT;
/// No premise, p-fair, or q-fair.
pub const FAIRNESS_COUNT: usize = 3;
/// Origin, first lap, and two later-loop positions.
pub const ANCHORS: [u64; 4] = [0, 1, 3, 6];
/// Declared case count: formulas × words × fairness modes × anchors.
pub const DECLARED_CASES: u64 = (FORMULA_COUNT * WORD_COUNT * FAIRNESS_COUNT * 4) as u64;
/// Word and fairness-mode pairs with no fair completion: 106 p-fair, 104 q-fair.
pub const EMPTY_FAIR_WORD_MODES: usize = 210;
/// Refused cases from empty fair admission across all formulas and anchors.
pub const EMPTY_FAIR_CASES: u64 = (EMPTY_FAIR_WORD_MODES * FORMULA_COUNT * 4) as u64;
/// Cases with at least one fair Boolean completion.
pub const ADMITTED_CASES: u64 = DECLARED_CASES - EMPTY_FAIR_CASES;

/// Fairness mode for one graph: no premise, p, or q.
#[derive(Clone, Copy, Debug, PartialEq, Eq)]
pub enum Fairness {
    /// No fairness premise.
    NoPremise,
    /// Proposition p at graph node zero.
    P,
    /// Proposition q at graph node one.
    Q,
}

impl Fairness {
    /// Every fairness choice in stable index order.
    pub const ALL: [Fairness; 3] = [Fairness::NoPremise, Fairness::P, Fairness::Q];

    /// The proposition a mode requires to recur, by its index among p and q.
    pub open spec fn proposition(self) -> Option<int> {
        match self {
            Fairness::NoPremise => None,
            Fairness::P => Some(0),
            Fairness::Q => Some(1),
        }
    }

    /// The premise roots of the mode, in their declared order.
    pub open spec fn spec_roots(self) -> Seq<NodeId> {
        match self {
            Fairness::NoPremise => seq![],
            Fairness::P => seq![0],
            Fairness::Q => seq![1],
        }
    }

    /// Same-graph premise roots, in their declared order.
    pub fn roots(self) -> (r: &'static [NodeId])
        ensures
            r@ == self.spec_roots(),
    {
        match self {
            Fairness::NoPremise => &[],
            Fairness::P => &[0],
            Fairness::Q => &[1],
        }
    }

    fn proposition_index(self) -> (r: Option<usize>)
        ensures
            match r {
                Some(i) => self.proposition() == Some(i as int),
                None => self.proposition() is None,
            },
            r is None <==> self == Fairness::NoPremise,
            match r {
                Some(i) => self.spec_roots() == seq![i as NodeId],
                None => self.spec_roots() == Seq::<NodeId>::empty(),
            },
    {
        match self {
            Fairness::NoPremise => None,
            Fairness::P => Some(0),
            Fairness::Q => Some(1),
        }
    }
}

/// One named formula graph. Proposition nodes p and q are stable at 0 and 1.
#[derive(Clone, Debug)]
pub struct V11Formula {
    /// Stable partition label, useful in a counterexample.
    pub name: String,
    /// The graph with its profile and clock.
    pub graph: FormulaDocument,
}

/// Which uncertainty sources occur in a generated word.
#[derive(Clone, Copy, Debug, PartialEq, Eq)]
pub enum EvidenceClass {
    /// Every proposition observation is known true or false.
    Complete,
    /// Exactly one observation is missing.
    Missing,
    /// Exactly one observation is conflicting.
    Conflicting,
    /// One missing and one conflicting observation coexist.
    Mixed,
}

/// One distinct complete or partial lasso.
#[derive(Clone, Debug)]
pub struct V11Word {
    /// Stable ordinal in the declared word axis.
    pub index: usize,
    /// The lasso trace document.
    pub trace: TraceDocument,
    /// Uncertainty class of the generated cells.
    pub evidence_class: EvidenceClass,
    /// Number of nonrepeating prefix cells.
    pub prefix_len: usize,
    cells: Vec<[PartialValue; 2]>,
}

/// A value that leaves both Boolean completions open.
pub open spec fn is_open(v: PartialValue) -> bool {
    v == PartialValue::Missing || v == PartialValue::Conflicting
}

/// One if `v` is open, else zero.
pub open spec fn open_bit(v: PartialValue) -> nat {
    if is_open(v) {
        1
    } else {
        0
    }
}

/// Open values among the cells, both propositions counted.
pub open spec fn open_count(cells: Seq<[PartialValue; 2]>) -> nat
    decreases cells.len(),
{
    if cells.len() == 0 {
        0
    } else {
        open_count(cells.drop_last()) + open_bit(cells.last()@[0]) + open_bit(cells.last()@[1])
    }
}

/// Open values of proposition `k` among the cells.
pub open spec fn open_at(cells: Seq<[PartialValue; 2]>, k: int) -> nat
    decreases cells.len(),
{
    if cells.len() == 0 {
        0
    } else {
        open_at(cells.drop_last(), k) + open_bit(cells.last()@[k])
    }
}

/// Proposition `k` is observed true in some loop cell.
pub open spec fn true_in_loop(cells: Seq<[PartialValue; 2]>, prefix_len: nat, k: int) -> bool {
    exists|j: int| prefix_len <= j < cells.len() && #[trigger] cells[j]@[k] == PartialValue::True
}

/// The number of Boolean completions of the cells that a fairness mode admits.
///
/// Each open value is an independent Boolean choice. An atomic premise admits
/// a completion iff its proposition is true in some loop cell: every
/// completion when the loop already observes it true, otherwise all but those
/// that make each open loop value of the proposition false.
pub open spec fn fair_count(cells: Seq<[PartialValue; 2]>, prefix_len: nat, fairness: Fairness) -> nat {
    let total = pow2(open_count(cells));
    match fairness.proposition() {
        None => total,
        Some(k) => if true_in_loop(cells, prefix_len, k) {
            total
        } else {
            (total - pow2((open_count(cells) - open_at(cells.subrange(prefix_len as int, cells.len() as int), k)) as nat)) as nat
        },
    }
}

pub(crate) proof fn lemma_open_at_bound(cells: Seq<[PartialValue; 2]>, k: int)
    requires
        0 <= k < 2,
    ensures
        open_at(cells, k) <= open_count(cells),
    decreases cells.len(),
{
    if cells.len() > 0 {
        lemma_open_at_bound(cells.drop_last(), k);
    }
}

pub(crate) proof fn lemma_open_count_bound(cells: Seq<[PartialValue; 2]>)
    ensures
        open_count(cells) <= 2 * cells.len(),
    decreases cells.len(),
{
    if cells.len() > 0 {
        lemma_open_count_bound(cells.drop_last());
    }
}

/// A prefix of the cells has no more open values than all of them.
proof fn lemma_open_count_prefix(cells: Seq<[PartialValue; 2]>, i: int)
    requires
        0 <= i <= cells.len(),
    ensures
        open_count(cells.take(i)) <= open_count(cells),
    decreases cells.len(),
{
    if i < cells.len() {
        lemma_open_count_prefix(cells.drop_last(), i);
        assert(cells.drop_last().take(i) =~= cells.take(i));
    } else {
        assert(cells.take(i) =~= cells);
    }
}

pub(crate) proof fn lemma_open_at_suffix(cells: Seq<[PartialValue; 2]>, from: int, k: int)
    requires
        0 <= from <= cells.len(),
        0 <= k < 2,
    ensures
        open_at(cells.subrange(from, cells.len() as int), k) <= open_at(cells, k),
    decreases cells.len(),
{
    if from < cells.len() {
        let s = cells.subrange(from, cells.len() as int);
        lemma_open_at_suffix(cells.drop_last(), from, k);
        assert(s.drop_last() =~= cells.drop_last().subrange(from, cells.drop_last().len() as int));
    } else {
        assert(cells.subrange(from, cells.len() as int).len() == 0);
    }
}

impl V11Word {
    /// The materialized cells in p,q order.
    pub closed spec fn view_cells(self) -> Seq<[PartialValue; 2]> {
        self.cells@
    }

    /// Number of nonrepeating prefix cells.
    pub closed spec fn view_prefix(self) -> nat {
        self.prefix_len as nat
    }

    /// Ordinal in the word axis.
    pub closed spec fn view_index(self) -> nat {
        self.index as nat
    }

    /// Uncertainty class.
    pub closed spec fn view_class(self) -> EvidenceClass {
        self.evidence_class
    }

    /// The lasso trace document.
    pub closed spec fn view_trace(self) -> TraceDocument {
        self.trace
    }

    /// Returns materialized cells in p,q order for independent count checks.
    pub fn cells(&self) -> (r: &[[PartialValue; 2]])
        ensures
            r@ == self.view_cells(),
    {
        self.cells.as_slice()
    }

    /// Counts admitted Boolean completions without invoking either evaluator:
    /// exactly [`fair_count`].
    pub fn expected_fair_completions(&self, fairness: Fairness) -> (r: u64)
        requires
            self.view_prefix() <= self.view_cells().len(),
            open_count(self.view_cells()) < 64,
        ensures
            r == fair_count(self.view_cells(), self.view_prefix(), fairness),
    {
        let cells = self.cells.as_slice();
        let ghost cs = cells@;
        let mut unknown: u64 = 0;
        let mut i: usize = 0;
        while i < cells.len()
            invariant
                cs == cells@,
                open_count(cs) < 64,
                i <= cs.len(),
                unknown == open_count(cs.take(i as int)),
            decreases cs.len() - i,
        {
            proof {
                assert(cs.take(i + 1).drop_last() =~= cs.take(i as int));
                lemma_open_count_prefix(cs, i + 1);
            }
            let cell = cells[i];
            if cell[0] == PartialValue::Missing || cell[0] == PartialValue::Conflicting {
                unknown = unknown + 1;
            }
            if cell[1] == PartialValue::Missing || cell[1] == PartialValue::Conflicting {
                unknown = unknown + 1;
            }
            i = i + 1;
        }
        proof {
            assert(cs.take(i as int) =~= cs);
            vstd::bits::lemma_u64_pow2_no_overflow(unknown as nat);
            vstd::bits::lemma_u64_shl_is_mul(1, unknown);
        }
        let total: u64 = 1u64 << unknown;
        let proposition = match fairness.proposition_index() {
            Some(k) => k,
            None => return total,
        };
        let ghost lap = cs.subrange(self.prefix_len as int, cs.len() as int);
        let mut seen_true = false;
        let mut unknown_loop: u64 = 0;
        let mut j: usize = self.prefix_len;
        while j < cells.len()
            invariant
                cs == cells@,
                open_count(cs) < 64,
                proposition < 2,
                self.prefix_len <= j <= cs.len(),
                lap == cs.subrange(self.prefix_len as int, cs.len() as int),
                unknown_loop == open_at(cs.subrange(self.prefix_len as int, j as int), proposition as int),
                unknown_loop <= j,
                seen_true == exists|m: int| self.prefix_len <= m < j && (#[trigger] cs[m])@[proposition as int] == PartialValue::True,
            decreases cs.len() - j,
        {
            proof {
                assert(cs.subrange(self.prefix_len as int, j + 1).drop_last() =~= cs.subrange(self.prefix_len as int, j as int));
            }
            let value = cells[j][proposition];
            if value == PartialValue::True {
                seen_true = true;
            }
            if value == PartialValue::Missing || value == PartialValue::Conflicting {
                unknown_loop = unknown_loop + 1;
            }
            j = j + 1;
        }
        proof {
            assert(cs.subrange(self.prefix_len as int, j as int) =~= lap);
        }
        if seen_true {
            return total;
        }
        proof {
            lemma_open_at_suffix(cs, self.prefix_len as int, proposition as int);
            lemma_open_at_bound(cs, proposition as int);
            let e = (unknown - unknown_loop) as nat;
            vstd::bits::lemma_u64_pow2_no_overflow(e);
            vstd::bits::lemma_u64_shl_is_mul(1, (unknown - unknown_loop) as u64);
            if e < unknown {
                vstd::arithmetic::power2::lemma_pow2_strictly_increases(e, unknown as nat);
            }
        }
        total - (1u64 << (unknown - unknown_loop))
    }
}

/// Some cell observes `v` for some proposition.
pub open spec fn has_value(cells: Seq<[PartialValue; 2]>, v: PartialValue) -> bool {
    exists|j: int, k: int| 0 <= j < cells.len() && 0 <= k < 2 && #[trigger] cells[j]@[k] == v
}

/// The uncertainty class of the cells.
pub open spec fn class_of(cells: Seq<[PartialValue; 2]>) -> EvidenceClass {
    let missing = has_value(cells, PartialValue::Missing);
    let conflicting = has_value(cells, PartialValue::Conflicting);
    if missing && conflicting {
        EvidenceClass::Mixed
    } else if missing {
        EvidenceClass::Missing
    } else if conflicting {
        EvidenceClass::Conflicting
    } else {
        EvidenceClass::Complete
    }
}

/// The evidence cell a generated cell stands for: p at 0, q at 1.
pub open spec fn word_cell(c: [PartialValue; 2]) -> Map<u32, Evidence> {
    map![0u32 => evidence_of_value(c@[0]), 1u32 => evidence_of_value(c@[1])]
}

/// The name of the proposition map of every generated trace.
pub open spec fn word_map() -> Seq<char> {
    "v11-map"@
}

/// A generated word is a lasso trace of its cells: infinite profile, event
/// clock, propositions p and q, the first `prefix_len` cells as its prefix.
pub open spec fn traces_cells(t: TraceDocument, cells: Seq<[PartialValue; 2]>, prefix_len: nat) -> bool {
    &&& t.view_profile() == SemanticProfile::InfiniteTraceV1
    &&& t.view_clock() == InfiniteClock::EventPosition
    &&& t.view_map() == word_map()
    &&& t.view_propositions() == seq![0u32, 1u32]
    &&& t.view_cells() == cells.map_values(|c: [PartialValue; 2]| word_cell(c))
    &&& t.entry() == prefix_len
}

/// The observation of one generated cell at `position`.
fn observation(position: usize, c: [PartialValue; 2]) -> (r: TraceObservation)
    ensures
        crate::syntax::cell_from(r.entries@) == word_cell(c),
{
    let r = TraceObservation {
        position: position as u64,
        entries: vec![
            ValuationEntry { proposition: 0, value: c[0] },
            ValuationEntry { proposition: 1, value: c[1] },
        ],
    };
    proof {
        reveal_with_fuel(crate::syntax::cell_from, 3);
        let e = r.entries@;
        assert(e.drop_last().drop_last() =~= Seq::<ValuationEntry>::empty());
        assert(crate::syntax::cell_from(e) =~= word_cell(c));
    }
    r
}

/// One word of the axis over `cells` with `prefix_len` prefix cells.
fn word(index: usize, cells: Vec<[PartialValue; 2]>, prefix_len: usize) -> (r: V11Word)
    requires
        prefix_len < cells@.len(),
    ensures
        r.index == index,
        r.cells@ == cells@,
        r.prefix_len == prefix_len,
        r.evidence_class == class_of(cells@),
        traces_cells(r.trace, cells@, prefix_len as nat),
{
    let mut missing = false;
    let mut conflicting = false;
    let mut i: usize = 0;
    while i < cells.len()
        invariant
            i <= cells@.len(),
            missing == exists|j: int, k: int| 0 <= j < i && 0 <= k < 2 && #[trigger] cells@[j]@[k] == PartialValue::Missing,
            conflicting == exists|j: int, k: int| 0 <= j < i && 0 <= k < 2 && #[trigger] cells@[j]@[k] == PartialValue::Conflicting,
        decreases cells@.len() - i,
    {
        let c = cells[i];
        if c[0] == PartialValue::Missing || c[1] == PartialValue::Missing {
            missing = true;
        }
        if c[0] == PartialValue::Conflicting || c[1] == PartialValue::Conflicting {
            conflicting = true;
        }
        proof {
            if c[0] == PartialValue::Missing {
                assert(cells@[i as int]@[0] == PartialValue::Missing);
            }
            if c[1] == PartialValue::Missing {
                assert(cells@[i as int]@[1] == PartialValue::Missing);
            }
            if c[0] == PartialValue::Conflicting {
                assert(cells@[i as int]@[0] == PartialValue::Conflicting);
            }
            if c[1] == PartialValue::Conflicting {
                assert(cells@[i as int]@[1] == PartialValue::Conflicting);
            }
        }
        i = i + 1;
    }
    let evidence_class = if missing && conflicting {
        EvidenceClass::Mixed
    } else if missing {
        EvidenceClass::Missing
    } else if conflicting {
        EvidenceClass::Conflicting
    } else {
        EvidenceClass::Complete
    };
    let mut prefix: Vec<TraceObservation> = Vec::new();
    let mut lap: Vec<TraceObservation> = Vec::new();
    let mut j: usize = 0;
    while j < cells.len()
        invariant
            prefix_len < cells@.len(),
            j <= cells@.len(),
            prefix@.len() == if j < prefix_len { j } else { prefix_len },
            lap@.len() == if j < prefix_len { 0 } else { (j - prefix_len) as nat },
            forall|m: int| 0 <= m < prefix@.len() ==> crate::syntax::cell_from((#[trigger] prefix@[m]).entries@) == word_cell(cells@[m]),
            forall|m: int| 0 <= m < lap@.len() ==> crate::syntax::cell_from((#[trigger] lap@[m]).entries@) == word_cell(cells@[prefix_len + m]),
        decreases cells@.len() - j,
    {
        let o = observation(j, cells[j]);
        if j < prefix_len {
            prefix.push(o);
        } else {
            lap.push(o);
        }
        j = j + 1;
    }
    let ghost obs = prefix@ + lap@;
    let trace = TraceDocument::new(
        SemanticProfile::InfiniteTraceV1,
        InfiniteClock::EventPosition,
        "v11-map".to_owned(),
        vec![0, 1],
        prefix,
        lap,
    ).unwrap();
    proof {
        assert(trace.view_cells() =~= cells@.map_values(|c: [PartialValue; 2]| word_cell(c))) by {
            assert forall|m: int| 0 <= m < cells@.len() implies #[trigger] trace.view_cells()[m] == word_cell(cells@[m]) by {
                assert(obs[m] == trace.view_prefix().add(trace.view_loop())[m]);
                if m >= prefix_len {
                    assert(obs[m] == lap@[m - prefix_len]);
                }
            }
        }
        assert(trace.view_propositions() =~= seq![0u32, 1u32]);
    }
    V11Word { index, trace, evidence_class, prefix_len, cells }
}

/// The value the first override for `slot` assigns, if any.
pub open spec fn override_at(overrides: Seq<(usize, PartialValue)>, slot: nat) -> Option<PartialValue>
    decreases overrides.len(),
{
    if overrides.len() == 0 {
        None
    } else if overrides[0].0 == slot {
        Some(overrides[0].1)
    } else {
        override_at(overrides.drop_first(), slot)
    }
}

/// The slots below `slot` that no override assigns: each takes the next bit.
pub open spec fn free_before(overrides: Seq<(usize, PartialValue)>, slot: nat) -> nat
    decreases slot,
{
    if slot == 0 {
        0
    } else {
        free_before(overrides, (slot - 1) as nat) + if override_at(overrides, (slot - 1) as nat) is None {
            1nat
        } else {
            0nat
        }
    }
}

/// The value of `slot`: its override, else the next bit of `bits`, false for zero.
pub open spec fn slot_value(bits: nat, overrides: Seq<(usize, PartialValue)>, slot: nat) -> PartialValue {
    match override_at(overrides, slot) {
        Some(v) => v,
        None => if (bits / pow2(free_before(overrides, slot))) % 2 == 0 {
            PartialValue::False
        } else {
            PartialValue::True
        },
    }
}

/// The `length` cells whose slots `2i` (p) and `2i + 1` (q) take [`slot_value`].
pub open spec fn generated(length: nat, bits: nat, overrides: Seq<(usize, PartialValue)>) -> Seq<Seq<PartialValue>> {
    Seq::new(length, |i: int| seq![slot_value(bits, overrides, (2 * i) as nat), slot_value(bits, overrides, (2 * i + 1) as nat)])
}

/// The cells as value sequences.
pub open spec fn slots(cells: Seq<[PartialValue; 2]>) -> Seq<Seq<PartialValue>> {
    cells.map_values(|c: [PartialValue; 2]| c@)
}

fn find_override(overrides: &[(usize, PartialValue)], slot: usize) -> (r: Option<PartialValue>)
    ensures
        r == override_at(overrides@, slot as nat),
{
    let mut k: usize = 0;
    proof {
        assert(overrides@.subrange(0, overrides@.len() as int) =~= overrides@);
    }
    while k < overrides.len()
        invariant
            k <= overrides@.len(),
            override_at(overrides@, slot as nat) == override_at(overrides@.subrange(k as int, overrides@.len() as int), slot as nat),
        decreases overrides@.len() - k,
    {
        proof {
            let rest = overrides@.subrange(k as int, overrides@.len() as int);
            assert(rest.drop_first() =~= overrides@.subrange(k + 1, overrides@.len() as int));
        }
        let (index, value) = overrides[k];
        if index == slot {
            return Some(value);
        }
        k = k + 1;
    }
    None
}

/// The value of one slot, consuming a bit of `rest` when no override assigns it.
fn next_slot(slot: usize, rest: &mut usize, overrides: &[(usize, PartialValue)], Ghost(bits): Ghost<nat>) -> (r: PartialValue)
    requires
        *old(rest) == bits / pow2(free_before(overrides@, slot as nat)),
    ensures
        r == slot_value(bits, overrides@, slot as nat),
        *final(rest) == bits / pow2(free_before(overrides@, (slot + 1) as nat)),
{
    let ghost f = free_before(overrides@, slot as nat);
    match find_override(overrides, slot) {
        Some(v) => v,
        None => {
            let value = if *rest & 1 == 0 {
                PartialValue::False
            } else {
                PartialValue::True
            };
            proof {
                let x = *rest;
                assert((x & 1 == 0) == (x % 2 == 0)) by (bit_vector);
                assert(x >> 1 == x / 2) by (bit_vector);
                vstd::arithmetic::power2::lemma_pow2_unfold(f + 1);
                vstd::arithmetic::power2::lemma_pow2_pos(f);
                vstd::arithmetic::div_mod::lemma_div_denominator(bits as int, pow2(f) as int, 2);
                vstd::arithmetic::mul::lemma_mul_is_commutative(2, pow2(f) as int);
            }
            *rest = *rest >> 1;
            value
        },
    }
}

/// Cells of `length` positions, p then q in each, from the overrides and the bits of `bits`.
fn cells(length: usize, bits: usize, overrides: &[(usize, PartialValue)]) -> (r: Vec<[PartialValue; 2]>)
    requires
        length <= 3,
    ensures
        slots(r@) == generated(length as nat, bits as nat, overrides@),
{
    let mut result: Vec<[PartialValue; 2]> = Vec::new();
    let mut rest = bits;
    proof {
        vstd::arithmetic::power2::lemma2_to64();
        assert(free_before(overrides@, 0) == 0);
        assert(bits as nat / 1 == bits as nat);
    }
    let mut i: usize = 0;
    while i < length
        invariant
            i <= length <= 3,
            rest == bits as nat / pow2(free_before(overrides@, (2 * i) as nat)),
            result@.len() == i,
            forall|m: int| 0 <= m < i ==> (#[trigger] result@[m])@ == generated(length as nat, bits as nat, overrides@)[m],
        decreases length - i,
    {
        let a = next_slot(2 * i, &mut rest, overrides, Ghost(bits as nat));
        let b = next_slot(2 * i + 1, &mut rest, overrides, Ghost(bits as nat));
        let c = [a, b];
        proof {
            assert(c@ =~= seq![a, b]);
        }
        result.push(c);
        i = i + 1;
    }
    proof {
        assert(slots(result@) =~= generated(length as nat, bits as nat, overrides@));
    }
    result
}

/// A word's class, trace and prefix agree with its cells, of at most three positions.
pub open spec fn word_ok(w: V11Word) -> bool {
    &&& w.view_prefix() < w.view_cells().len() <= 3
    &&& w.view_class() == class_of(w.view_cells())
    &&& traces_cells(w.view_trace(), w.view_cells(), w.view_prefix())
}

/// A word as its cell values and prefix length.
pub open spec fn axis_view(ws: Seq<V11Word>) -> Seq<(Seq<Seq<PartialValue>>, nat)> {
    ws.map_values(|w: V11Word| (slots(w.view_cells()), w.view_prefix()))
}

/// The complete words of `length` positions: each prefix length below
/// `length` in turn, then each assignment of the `2 * length` slots.
pub open spec fn complete_family(length: nat) -> Seq<(Seq<Seq<PartialValue>>, nat)> {
    let n = pow2(2 * length);
    Seq::new(length * n, |j: int| (generated(length, (j % n as int) as nat, seq![]), (j / n as int) as nat))
}

/// One-unknown word `j` of `length` positions: prefix length, then the open
/// slot, then Missing before Conflicting, then the bits of the other slots.
pub open spec fn single_entry(length: nat, j: int) -> (Seq<Seq<PartialValue>>, nat) {
    let hb = pow2((2 * length - 1) as nat) as int;
    let per_slot = 2 * hb;
    let per_prefix = 2 * length * per_slot;
    let r = j % per_prefix;
    let r2 = r % per_slot;
    let state = if r2 / hb == 0 {
        PartialValue::Missing
    } else {
        PartialValue::Conflicting
    };
    (generated(length, (r2 % hb) as nat, seq![((r / per_slot) as usize, state)]), (j / per_prefix) as nat)
}

/// The one-unknown words of `length` positions.
pub open spec fn single_family(length: nat) -> Seq<(Seq<Seq<PartialValue>>, nat)> {
    Seq::new(length * (2 * length) * 2 * pow2((2 * length - 1) as nat), |j: int| single_entry(length, j))
}

/// The overrides of the mixed words: p missing first, q conflicting second.
pub open spec fn mixed_overrides() -> Seq<(usize, PartialValue)> {
    seq![(0usize, PartialValue::Missing), (3usize, PartialValue::Conflicting)]
}

/// The two-unknown words: prefix length, then the bits of the two free slots.
pub open spec fn mixed_family() -> Seq<(Seq<Seq<PartialValue>>, nat)> {
    Seq::new(8, |j: int| (generated(2, (j % 4) as nat, mixed_overrides()), (j / 4) as nat))
}

/// The declared word axis, family by family.
pub open spec fn word_axis() -> Seq<(Seq<Seq<PartialValue>>, nat)> {
    complete_family(1) + complete_family(2) + complete_family(3) + single_family(1) + single_family(2) + mixed_family()
}

/// Where the complete family of `length` positions begins in the axis.
spec fn complete_base(length: nat) -> nat {
    if length <= 1 {
        0
    } else if length == 2 {
        4
    } else if length == 3 {
        36
    } else {
        228
    }
}

/// Where the one-unknown family of `length` positions begins in the axis.
spec fn single_base(length: nat) -> nat {
    if length <= 1 {
        228
    } else if length == 2 {
        236
    } else {
        364
    }
}

proof fn lemma_axis_layout()
    ensures
        complete_family(1).len() == 4,
        complete_family(2).len() == 32,
        complete_family(3).len() == 192,
        single_family(1).len() == 8,
        single_family(2).len() == 128,
        mixed_family().len() == 8,
        word_axis().len() == 372,
        forall|j: int| 0 <= j < 4 ==> word_axis()[j] == #[trigger] complete_family(1)[j],
        forall|j: int| 0 <= j < 32 ==> word_axis()[4 + j] == #[trigger] complete_family(2)[j],
        forall|j: int| 0 <= j < 192 ==> word_axis()[36 + j] == #[trigger] complete_family(3)[j],
        forall|j: int| 0 <= j < 8 ==> word_axis()[228 + j] == #[trigger] single_family(1)[j],
        forall|j: int| 0 <= j < 128 ==> word_axis()[236 + j] == #[trigger] single_family(2)[j],
        forall|j: int| 0 <= j < 8 ==> word_axis()[364 + j] == #[trigger] mixed_family()[j],
{
    vstd::arithmetic::power2::lemma2_to64();
    assert((2 * 1nat - 1) as nat == 1nat);
    assert((2 * 2nat - 1) as nat == 3nat);
    assert(single_family(1).len() == 8);
    assert(single_family(2).len() == 128);
    let a = complete_family(1) + complete_family(2);
    let b = a + complete_family(3);
    let c = b + single_family(1);
    let d = c + single_family(2);
    assert(word_axis() == d + mixed_family());
    assert(word_axis().len() == 372);
}

/// Appends the complete words of `length` positions.
fn push_complete(cases: &mut Vec<V11Word>, length: usize)
    requires
        1 <= length <= 3,
        old(cases)@.len() == complete_base(length as nat),
        axis_view(old(cases)@) == word_axis().take(old(cases)@.len() as int),
        forall|k: int| 0 <= k < old(cases)@.len() ==> (#[trigger] old(cases)@[k]).view_index() == k && word_ok(old(cases)@[k]),
    ensures
        final(cases)@.len() == complete_base((length + 1) as nat),
        axis_view(final(cases)@) == word_axis().take(final(cases)@.len() as int),
        forall|k: int| 0 <= k < final(cases)@.len() ==> (#[trigger] final(cases)@[k]).view_index() == k && word_ok(final(cases)@[k]),
{
    proof {
        lemma_axis_layout();
        vstd::arithmetic::power2::lemma2_to64();
    }
    let n: usize = 1usize << (2 * length);
    proof {
        assert(length == 1 ==> (1usize << (2 * length)) == 4) by (bit_vector);
        assert(length == 2 ==> (1usize << (2 * length)) == 16) by (bit_vector);
        assert(length == 3 ==> (1usize << (2 * length)) == 64) by (bit_vector);
        assert(n == pow2(2 * length as nat));
    }
    let no_overrides: Vec<(usize, PartialValue)> = Vec::new();
    let base = cases.len();
    let mut prefix_len: usize = 0;
    while prefix_len < length
        invariant
            1 <= length <= 3,
            n == pow2(2 * length as nat),
            n == if length == 1 { 4usize } else if length == 2 { 16usize } else { 64usize },
            base == complete_base(length as nat),
            no_overrides@ == Seq::<(usize, PartialValue)>::empty(),
            prefix_len <= length,
            cases@.len() == base + prefix_len * n,
            axis_view(cases@) == word_axis().take(cases@.len() as int),
            forall|k: int| 0 <= k < cases@.len() ==> (#[trigger] cases@[k]).view_index() == k && word_ok(cases@[k]),
        decreases length - prefix_len,
    {
        let mut bits: usize = 0;
        while bits < n
            invariant
                1 <= length <= 3,
                n == pow2(2 * length as nat),
                n == if length == 1 { 4usize } else if length == 2 { 16usize } else { 64usize },
                base == complete_base(length as nat),
                no_overrides@ == Seq::<(usize, PartialValue)>::empty(),
                prefix_len < length,
                bits <= n,
                cases@.len() == base + prefix_len * n + bits,
                axis_view(cases@) == word_axis().take(cases@.len() as int),
                forall|k: int| 0 <= k < cases@.len() ==> (#[trigger] cases@[k]).view_index() == k && word_ok(cases@[k]),
            decreases n - bits,
        {
            let index = cases.len();
            let c = cells(length, bits, no_overrides.as_slice());
            assert(c@.len() == slots(c@).len());
            let w = word(index, c, prefix_len);
            let ghost before = cases@;
            cases.push(w);
            proof {
                let j = prefix_len * n + bits;
                lemma_axis_layout();
                vstd::arithmetic::div_mod::lemma_fundamental_div_mod_converse(j as int, n as int, prefix_len as int, bits as int);
                if length == 1 {
                    assert(j < 4);
                    assert(word_axis()[index as int] == complete_family(1)[j as int]);
                } else if length == 2 {
                    assert(j < 32);
                    assert(word_axis()[index as int] == complete_family(2)[j as int]);
                } else {
                    assert(j < 192);
                    assert(word_axis()[index as int] == complete_family(3)[j as int]);
                }
                assert(axis_view(cases@) =~= word_axis().take(cases@.len() as int)) by {
                    assert(axis_view(cases@) =~= axis_view(before).push((slots(w.view_cells()), w.view_prefix())));
                }
            }
            bits = bits + 1;
        }
        prefix_len = prefix_len + 1;
    }
}

/// Appends the one-unknown words of `length` positions.
fn push_single(cases: &mut Vec<V11Word>, length: usize)
    requires
        1 <= length <= 2,
        old(cases)@.len() == single_base(length as nat),
        axis_view(old(cases)@) == word_axis().take(old(cases)@.len() as int),
        forall|k: int| 0 <= k < old(cases)@.len() ==> (#[trigger] old(cases)@[k]).view_index() == k && word_ok(old(cases)@[k]),
    ensures
        final(cases)@.len() == single_base((length + 1) as nat),
        axis_view(final(cases)@) == word_axis().take(final(cases)@.len() as int),
        forall|k: int| 0 <= k < final(cases)@.len() ==> (#[trigger] final(cases)@[k]).view_index() == k && word_ok(final(cases)@[k]),
{
    let free: usize = 2 * length - 1;
    let hb: usize = 1usize << free;
    proof {
        vstd::arithmetic::power2::lemma2_to64();
        assert(free == 1 ==> (1usize << free) == 2) by (bit_vector);
        assert(free == 3 ==> (1usize << free) == 8) by (bit_vector);
        assert(hb == pow2((2 * length - 1) as nat));
    }
    let base = cases.len();
    let mut prefix_len: usize = 0;
    while prefix_len < length
        invariant
            1 <= length <= 2,
            hb == pow2((2 * length - 1) as nat),
            hb == if length == 1 { 2usize } else { 8usize },
            base == single_base(length as nat),
            prefix_len <= length,
            cases@.len() == base + prefix_len * (4 * length * hb),
            axis_view(cases@) == word_axis().take(cases@.len() as int),
            forall|k: int| 0 <= k < cases@.len() ==> (#[trigger] cases@[k]).view_index() == k && word_ok(cases@[k]),
        decreases length - prefix_len,
    {
        let mut slot: usize = 0;
        while slot < 2 * length
            invariant
                1 <= length <= 2,
                hb == pow2((2 * length - 1) as nat),
                hb == if length == 1 { 2usize } else { 8usize },
                base == single_base(length as nat),
                prefix_len < length,
                slot <= 2 * length,
                cases@.len() == base + prefix_len * (4 * length * hb) + slot * (2 * hb),
                axis_view(cases@) == word_axis().take(cases@.len() as int),
                forall|k: int| 0 <= k < cases@.len() ==> (#[trigger] cases@[k]).view_index() == k && word_ok(cases@[k]),
            decreases 2 * length - slot,
        {
            let mut s: usize = 0;
            while s < 2
                invariant
                    1 <= length <= 2,
                    hb == pow2((2 * length - 1) as nat),
                    hb == if length == 1 { 2usize } else { 8usize },
                    base == single_base(length as nat),
                    prefix_len < length,
                    slot < 2 * length,
                    s <= 2,
                    cases@.len() == base + prefix_len * (4 * length * hb) + slot * (2 * hb) + s * hb,
                    axis_view(cases@) == word_axis().take(cases@.len() as int),
                    forall|k: int| 0 <= k < cases@.len() ==> (#[trigger] cases@[k]).view_index() == k && word_ok(cases@[k]),
                decreases 2 - s,
            {
                let state = if s == 0 {
                    PartialValue::Missing
                } else {
                    PartialValue::Conflicting
                };
                let overrides: Vec<(usize, PartialValue)> = vec![(slot, state)];
                let mut bits: usize = 0;
                while bits < hb
                    invariant
                        1 <= length <= 2,
                        hb == pow2((2 * length - 1) as nat),
                        hb == if length == 1 { 2usize } else { 8usize },
                        base == single_base(length as nat),
                        prefix_len < length,
                        slot < 2 * length,
                        s < 2,
                        state == if s == 0 { PartialValue::Missing } else { PartialValue::Conflicting },
                        overrides@ == seq![(slot, state)],
                        bits <= hb,
                        cases@.len() == base + prefix_len * (4 * length * hb) + slot * (2 * hb) + s * hb + bits,
                        axis_view(cases@) == word_axis().take(cases@.len() as int),
                        forall|k: int| 0 <= k < cases@.len() ==> (#[trigger] cases@[k]).view_index() == k && word_ok(cases@[k]),
                    decreases hb - bits,
                {
                    let index = cases.len();
                    let c = cells(length, bits, overrides.as_slice());
                    assert(c@.len() == slots(c@).len());
                    let w = word(index, c, prefix_len);
                    let ghost before = cases@;
                    cases.push(w);
                    proof {
                        lemma_axis_layout();
                        if length == 1 {
                            assert(prefix_len * (4 * length * hb) == prefix_len * 8) by (nonlinear_arith)
                                requires
                                    length == 1,
                                    hb == 2,
                            ;
                            assert(slot * (2 * hb) == slot * 4) by (nonlinear_arith)
                                requires
                                    hb == 2,
                            ;
                            let r2 = s * 2 + bits;
                            let r = slot * 4 + r2;
                            let j = prefix_len * 8 + r;
                            vstd::arithmetic::div_mod::lemma_fundamental_div_mod_converse(r2 as int, 2, s as int, bits as int);
                            vstd::arithmetic::div_mod::lemma_fundamental_div_mod_converse(r as int, 4, slot as int, r2 as int);
                            vstd::arithmetic::div_mod::lemma_fundamental_div_mod_converse(j as int, 8, prefix_len as int, r as int);
                            assert((2 * 1nat - 1) as nat == 1nat);
                            assert(j < 8);
                            assert(word_axis()[index as int] == single_family(1)[j as int]);
                        } else {
                            assert(prefix_len * (4 * length * hb) == prefix_len * 64) by (nonlinear_arith)
                                requires
                                    length == 2,
                                    hb == 8,
                            ;
                            assert(slot * (2 * hb) == slot * 16) by (nonlinear_arith)
                                requires
                                    hb == 8,
                            ;
                            let r2 = s * 8 + bits;
                            let r = slot * 16 + r2;
                            let j = prefix_len * 64 + r;
                            vstd::arithmetic::div_mod::lemma_fundamental_div_mod_converse(r2 as int, 8, s as int, bits as int);
                            vstd::arithmetic::div_mod::lemma_fundamental_div_mod_converse(r as int, 16, slot as int, r2 as int);
                            vstd::arithmetic::div_mod::lemma_fundamental_div_mod_converse(j as int, 64, prefix_len as int, r as int);
                            assert((2 * 2nat - 1) as nat == 3nat);
                            assert(j < 128);
                            assert(word_axis()[index as int] == single_family(2)[j as int]);
                        }
                        assert(axis_view(cases@) =~= word_axis().take(cases@.len() as int)) by {
                            assert(axis_view(cases@) =~= axis_view(before).push((slots(w.view_cells()), w.view_prefix())));
                        }
                    }
                    bits = bits + 1;
                }
                s = s + 1;
            }
            proof {
                assert((slot + 1) * (2 * hb) == slot * (2 * hb) + 2 * hb) by (nonlinear_arith);
            }
            slot = slot + 1;
        }
        proof {
            assert((2 * length) * (2 * hb) == 4 * length * hb) by (nonlinear_arith);
            assert((prefix_len + 1) * (4 * length * hb) == prefix_len * (4 * length * hb) + 4 * length * hb) by (nonlinear_arith);
        }
        prefix_len = prefix_len + 1;
    }
}

/// Appends the mixed words.
fn push_mixed(cases: &mut Vec<V11Word>)
    requires
        old(cases)@.len() == 364,
        axis_view(old(cases)@) == word_axis().take(old(cases)@.len() as int),
        forall|k: int| 0 <= k < old(cases)@.len() ==> (#[trigger] old(cases)@[k]).view_index() == k && word_ok(old(cases)@[k]),
    ensures
        final(cases)@.len() == 372,
        axis_view(final(cases)@) == word_axis().take(final(cases)@.len() as int),
        forall|k: int| 0 <= k < final(cases)@.len() ==> (#[trigger] final(cases)@[k]).view_index() == k && word_ok(final(cases)@[k]),
{
    let overrides: Vec<(usize, PartialValue)> = vec![(0, PartialValue::Missing), (3, PartialValue::Conflicting)];
    let mut prefix_len: usize = 0;
    while prefix_len < 2
        invariant
            overrides@ == mixed_overrides(),
            prefix_len <= 2,
            cases@.len() == 364 + prefix_len * 4,
            axis_view(cases@) == word_axis().take(cases@.len() as int),
            forall|k: int| 0 <= k < cases@.len() ==> (#[trigger] cases@[k]).view_index() == k && word_ok(cases@[k]),
        decreases 2 - prefix_len,
    {
        let mut bits: usize = 0;
        while bits < 4
            invariant
                overrides@ == mixed_overrides(),
                prefix_len < 2,
                bits <= 4,
                cases@.len() == 364 + prefix_len * 4 + bits,
                axis_view(cases@) == word_axis().take(cases@.len() as int),
                forall|k: int| 0 <= k < cases@.len() ==> (#[trigger] cases@[k]).view_index() == k && word_ok(cases@[k]),
            decreases 4 - bits,
        {
            let index = cases.len();
            let c = cells(2, bits, overrides.as_slice());
            assert(c@.len() == slots(c@).len());
            let w = word(index, c, prefix_len);
            let ghost before = cases@;
            cases.push(w);
            proof {
                lemma_axis_layout();
                let j = prefix_len * 4 + bits;
                assert(word_axis()[index as int] == mixed_family()[j as int]);
                assert(axis_view(cases@) =~= word_axis().take(cases@.len() as int)) by {
                    assert(axis_view(cases@) =~= axis_view(before).push((slots(w.view_cells()), w.view_prefix())));
                }
            }
            bits = bits + 1;
        }
        prefix_len = prefix_len + 1;
    }
}

/// The declared word axis: exactly [`word_axis`], each word numbered by its
/// position and consistent with its trace.
fn words() -> (r: Vec<V11Word>)
    ensures
        r@.len() == WORD_COUNT,
        axis_view(r@) == word_axis(),
        forall|k: int| 0 <= k < r@.len() ==> (#[trigger] r@[k]).view_index() == k && word_ok(r@[k]),
{
    let mut cases: Vec<V11Word> = Vec::new();
    proof {
        assert(axis_view(cases@) =~= word_axis().take(0));
    }
    push_complete(&mut cases, 1);
    push_complete(&mut cases, 2);
    push_complete(&mut cases, 3);
    push_single(&mut cases, 1);
    push_single(&mut cases, 2);
    push_mixed(&mut cases);
    proof {
        lemma_axis_layout();
        assert(word_axis().take(372) =~= word_axis());
    }
    cases
}

/// Proposition p.
pub open spec fn prop_p() -> Formula {
    Formula::Atom(0)
}

/// Proposition q.
pub open spec fn prop_q() -> Formula {
    Formula::Atom(1)
}

/// The bounded interval of the partition.
pub open spec fn closed_one_two() -> Interval {
    Interval::Closed { start: 1, end: 2 }
}

/// The unbounded interval of the partition.
pub open spec fn from_zero() -> Interval {
    Interval::Unbounded { start: 0 }
}

/// The temporal formulas over p (and q) with interval `r`, in axis order.
pub open spec fn temporal_shapes(r: Interval) -> Seq<Formula> {
    seq![
        Formula::Future(r, Box::new(prop_p())),
        Formula::Globally(r, Box::new(prop_p())),
        Formula::Once(r, Box::new(prop_p())),
        Formula::Historically(r, Box::new(prop_p())),
        Formula::Until(r, Box::new(prop_p()), Box::new(prop_q())),
        Formula::Release(r, Box::new(prop_p()), Box::new(prop_q())),
        Formula::Since(r, Box::new(prop_p()), Box::new(prop_q())),
        Formula::Triggered(r, Box::new(prop_p()), Box::new(prop_q())),
    ]
}

/// The formula each entry of the formula axis stands for.
pub open spec fn formula_axis() -> Seq<Formula> {
    let u = from_zero();
    seq![
        Formula::False,
        Formula::True,
        prop_p(),
        prop_q(),
        Formula::Not(Box::new(prop_p())),
        Formula::And(Box::new(prop_p()), Box::new(prop_q())),
        Formula::Or(Box::new(prop_p()), Box::new(prop_q())),
        Formula::Implies(Box::new(prop_p()), Box::new(prop_q())),
        Formula::Equivalent(Box::new(prop_p()), Box::new(prop_q())),
    ] + temporal_shapes(closed_one_two()) + temporal_shapes(u) + seq![
        Formula::StrongPrevious(Box::new(prop_p())),
        Formula::Future(u, Box::new(Formula::Historically(u, Box::new(prop_p())))),
        Formula::Historically(u, Box::new(Formula::Future(u, Box::new(prop_p())))),
        Formula::Globally(u, Box::new(Formula::Once(u, Box::new(prop_p())))),
        Formula::Once(u, Box::new(Formula::Globally(u, Box::new(prop_p())))),
    ]
}

/// The name of each entry of the formula axis.
pub open spec fn name_axis() -> Seq<Seq<char>> {
    seq![
        "false"@, "true"@, "p"@, "q"@, "not-p"@, "and"@, "or"@, "implies"@, "equivalent"@,
        "future-closed-1-2"@, "globally-closed-1-2"@, "once-closed-1-2"@, "historically-closed-1-2"@,
        "until-closed-1-2"@, "release-closed-1-2"@, "since-closed-1-2"@, "triggered-closed-1-2"@,
        "future-unbounded-0"@, "globally-unbounded-0"@, "once-unbounded-0"@, "historically-unbounded-0"@,
        "until-unbounded-0"@, "release-unbounded-0"@, "since-unbounded-0"@, "triggered-unbounded-0"@,
        "previous"@, "future-historically"@, "historically-future"@, "globally-once"@, "once-globally"@,
    ]
}

/// Entry `k` of the formula axis: its name, the infinite profile and event
/// clock, a graph whose root lowers to the `k`-th formula, and p and q at
/// nodes 0 and 1 for use as premises.
pub open spec fn formula_ok(f: V11Formula, k: int) -> bool {
    let g = f.graph.graph;
    &&& f.name@ == name_axis()[k]
    &&& f.graph.profile == SemanticProfile::InfiniteTraceV1
    &&& f.graph.clock == InfiniteClock::EventPosition
    &&& syntax_formula(g.nodes@, g.root) == Ok::<Formula, crate::OracleError>(formula_axis()[k])
    &&& syntax_formula(g.nodes@, 0) == Ok::<Formula, crate::OracleError>(prop_p())
    &&& syntax_formula(g.nodes@, 1) == Ok::<Formula, crate::OracleError>(prop_q())
}

/// Nodes 0 and 1 are the propositions p and q.
pub open spec fn over_base(nodes: Seq<NodeKind>) -> bool {
    &&& nodes.len() >= 2
    &&& nodes[0] == NodeKind::Proposition { proposition: 0 }
    &&& nodes[1] == NodeKind::Proposition { proposition: 1 }
}

proof fn lemma_lower_atom(nodes: Seq<NodeKind>, id: NodeId, d: nat, b: nat)
    requires
        over_base(nodes),
        id < 2,
        d < 64,
        b > 0,
    ensures
        lower(nodes, id, d, b) == (Ok::<Formula, crate::OracleError>(Formula::Atom(id)), (b - 1) as nat),
{
    assert(operands(nodes[id as int]) =~= Seq::<NodeId>::empty());
    assert(crate::syntax::lower_all(nodes, Seq::<NodeId>::empty(), d + 1, (b - 1) as nat) == (Ok::<Seq<Formula>, crate::OracleError>(seq![]), (b - 1) as nat));
}

/// A root whose operands are p and q lowers to its node over those atoms.
proof fn lemma_lower_shallow(nodes: Seq<NodeKind>, root: NodeId)
    requires
        over_base(nodes),
        root < nodes.len(),
        forall|j: int| 0 <= j < operands(nodes[root as int]).len() ==> #[trigger] operands(nodes[root as int])[j] < 2,
        carried(nodes[root as int]) matches Some(t) ==> interval_of(t) is Ok,
    ensures
        syntax_formula(nodes, root) == Ok::<Formula, crate::OracleError>(assemble(
            nodes[root as int],
            match carried(nodes[root as int]) {
                Some(t) => interval_of(t)->Ok_0,
                None => Interval::Unbounded { start: 0 },
            },
            operands(nodes[root as int]).map_values(|id: NodeId| Formula::Atom(id)),
        )),
{
    let k = nodes[root as int];
    let ops = operands(k);
    let b = (crate::syntax::expansion_budget() - 1) as nat;
    if ops.len() == 0 {
        assert(crate::syntax::lower_all(nodes, ops, 1, b) == (Ok::<Seq<Formula>, crate::OracleError>(seq![]), b));
        assert(ops.map_values(|id: NodeId| Formula::Atom(id)) =~= Seq::<Formula>::empty());
    } else if ops.len() == 1 {
        assert(ops == seq![ops[0]]);
        crate::syntax::lemma_lower_one(nodes, ops[0], 1, b);
        lemma_lower_atom(nodes, ops[0], 1, b);
        assert(ops.map_values(|id: NodeId| Formula::Atom(id)) =~= seq![Formula::Atom(ops[0])]);
    } else {
        assert(ops == seq![ops[0], ops[1]]);
        crate::syntax::lemma_lower_two(nodes, ops[0], ops[1], 1, b);
        lemma_lower_atom(nodes, ops[0], 1, b);
        lemma_lower_atom(nodes, ops[1], 1, (b - 1) as nat);
        assert(ops.map_values(|id: NodeId| Formula::Atom(id)) =~= seq![Formula::Atom(ops[0]), Formula::Atom(ops[1])]);
    }
}

/// A unary root over a unary node 2 over p lowers to the nesting of the two.
proof fn lemma_lower_nested(nodes: Seq<NodeKind>, root: NodeId)
    requires
        over_base(nodes),
        nodes.len() == 4,
        root == 3,
        operands(nodes[2]) == seq![0u32],
        operands(nodes[3]) == seq![2u32],
        carried(nodes[2]) matches Some(t) && interval_of(t) is Ok,
        carried(nodes[3]) matches Some(t) && interval_of(t) is Ok,
    ensures
        syntax_formula(nodes, root) == Ok::<Formula, crate::OracleError>(assemble(
            nodes[3],
            interval_of(carried(nodes[3])->Some_0)->Ok_0,
            seq![assemble(nodes[2], interval_of(carried(nodes[2])->Some_0)->Ok_0, seq![prop_p()])],
        )),
{
    let b = (crate::syntax::expansion_budget() - 1) as nat;
    crate::syntax::lemma_lower_one(nodes, 2, 1, b);
    crate::syntax::lemma_lower_one(nodes, 0, 2, (b - 1) as nat);
    lemma_lower_atom(nodes, 0, 2, (b - 1) as nat);
}

/// p and q lower to themselves in a graph over them.
proof fn lemma_lower_premises(nodes: Seq<NodeKind>)
    requires
        over_base(nodes),
    ensures
        syntax_formula(nodes, 0) == Ok::<Formula, crate::OracleError>(prop_p()),
        syntax_formula(nodes, 1) == Ok::<Formula, crate::OracleError>(prop_q()),
{
    lemma_lower_atom(nodes, 0, 0, crate::syntax::expansion_budget());
    lemma_lower_atom(nodes, 1, 0, crate::syntax::expansion_budget());
}

/// The propositions p and q as nodes 0 and 1.
fn base() -> (r: Vec<NodeKind>)
    ensures
        r@ == seq![NodeKind::Proposition { proposition: 0 }, NodeKind::Proposition { proposition: 1 }],
{
    vec![NodeKind::Proposition { proposition: 0 }, NodeKind::Proposition { proposition: 1 }]
}

/// A formula over `nodes` whose root is `root`, appended as the last node.
fn graph(name: &str, nodes: Vec<NodeKind>, root: NodeKind) -> (r: V11Formula)
    requires
        nodes@.len() < 16,
    ensures
        r.name@ == name@,
        r.graph.profile == SemanticProfile::InfiniteTraceV1,
        r.graph.clock == InfiniteClock::EventPosition,
        r.graph.graph.nodes@ == nodes@.push(root),
        r.graph.graph.root == nodes@.len(),
{
    let root_id = nodes.len() as u32;
    let mut nodes = nodes;
    nodes.push(root);
    V11Formula {
        name: name.to_owned(),
        graph: FormulaDocument::new(SemanticProfile::InfiniteTraceV1, InfiniteClock::EventPosition, root_id, nodes),
    }
}

/// The formula whose root is the proposition node `root`.
fn atom_graph(name: &str, root: NodeId) -> (r: V11Formula)
    ensures
        r.name@ == name@,
        r.graph.profile == SemanticProfile::InfiniteTraceV1,
        r.graph.clock == InfiniteClock::EventPosition,
        r.graph.graph.nodes@ == seq![NodeKind::Proposition { proposition: 0 }, NodeKind::Proposition { proposition: 1 }],
        r.graph.graph.root == root,
{
    V11Formula {
        name: name.to_owned(),
        graph: FormulaDocument::new(SemanticProfile::InfiniteTraceV1, InfiniteClock::EventPosition, root, base()),
    }
}

/// Appends entry `k` of the formula axis.
fn push_formula(cases: &mut Vec<V11Formula>, f: V11Formula)
    requires
        formula_ok(f, old(cases)@.len() as int),
        forall|k: int| 0 <= k < old(cases)@.len() ==> formula_ok(#[trigger] old(cases)@[k], k),
    ensures
        final(cases)@.len() == old(cases)@.len() + 1,
        forall|k: int| 0 <= k < final(cases)@.len() ==> formula_ok(#[trigger] final(cases)@[k], k),
{
    cases.push(f);
}

/// The formula axis: entry `k` is named `name_axis()[k]` and lowers to
/// `formula_axis()[k]`, with p and q at nodes 0 and 1.
fn formulas() -> (r: Vec<V11Formula>)
    ensures
        r@.len() == FORMULA_COUNT,
        forall|k: int| 0 <= k < r@.len() ==> formula_ok(#[trigger] r@[k], k),
{
    let closed = TemporalInterval::Closed { start: 1, end: 2 };
    let unbounded = TemporalInterval::Unbounded { start: 0 };
    let mut cases: Vec<V11Formula> = Vec::new();
    let f = graph("false", base(), NodeKind::False);
    proof {
        lemma_lower_shallow(f.graph.graph.nodes@, f.graph.graph.root);
        lemma_lower_premises(f.graph.graph.nodes@);
    }
    push_formula(&mut cases, f);
    let f = graph("true", base(), NodeKind::True);
    proof {
        lemma_lower_shallow(f.graph.graph.nodes@, f.graph.graph.root);
        lemma_lower_premises(f.graph.graph.nodes@);
    }
    push_formula(&mut cases, f);
    let f = atom_graph("p", 0);
    proof {
        lemma_lower_shallow(f.graph.graph.nodes@, f.graph.graph.root);
        lemma_lower_premises(f.graph.graph.nodes@);
    }
    push_formula(&mut cases, f);
    let f = atom_graph("q", 1);
    proof {
        lemma_lower_shallow(f.graph.graph.nodes@, f.graph.graph.root);
        lemma_lower_premises(f.graph.graph.nodes@);
    }
    push_formula(&mut cases, f);
    let f = graph("not-p", base(), NodeKind::Not { operand: 0 });
    proof {
        lemma_lower_shallow(f.graph.graph.nodes@, f.graph.graph.root);
        lemma_lower_premises(f.graph.graph.nodes@);
    }
    push_formula(&mut cases, f);
    let f = graph("and", base(), NodeKind::And { left: 0, right: 1 });
    proof {
        lemma_lower_shallow(f.graph.graph.nodes@, f.graph.graph.root);
        lemma_lower_premises(f.graph.graph.nodes@);
    }
    push_formula(&mut cases, f);
    let f = graph("or", base(), NodeKind::Or { left: 0, right: 1 });
    proof {
        lemma_lower_shallow(f.graph.graph.nodes@, f.graph.graph.root);
        lemma_lower_premises(f.graph.graph.nodes@);
    }
    push_formula(&mut cases, f);
    let f = graph("implies", base(), NodeKind::Implies { left: 0, right: 1 });
    proof {
        lemma_lower_shallow(f.graph.graph.nodes@, f.graph.graph.root);
        lemma_lower_premises(f.graph.graph.nodes@);
    }
    push_formula(&mut cases, f);
    let f = graph("equivalent", base(), NodeKind::Equivalent { left: 0, right: 1 });
    proof {
        lemma_lower_shallow(f.graph.graph.nodes@, f.graph.graph.root);
        lemma_lower_premises(f.graph.graph.nodes@);
    }
    push_formula(&mut cases, f);
    let f = graph("future-closed-1-2", base(), NodeKind::Future { interval: closed, operand: 0 });
    proof {
        lemma_lower_shallow(f.graph.graph.nodes@, f.graph.graph.root);
        lemma_lower_premises(f.graph.graph.nodes@);
    }
    push_formula(&mut cases, f);
    let f = graph("globally-closed-1-2", base(), NodeKind::Globally { interval: closed, operand: 0 });
    proof {
        lemma_lower_shallow(f.graph.graph.nodes@, f.graph.graph.root);
        lemma_lower_premises(f.graph.graph.nodes@);
    }
    push_formula(&mut cases, f);
    let f = graph("once-closed-1-2", base(), NodeKind::Once { interval: closed, operand: 0 });
    proof {
        lemma_lower_shallow(f.graph.graph.nodes@, f.graph.graph.root);
        lemma_lower_premises(f.graph.graph.nodes@);
    }
    push_formula(&mut cases, f);
    let f = graph("historically-closed-1-2", base(), NodeKind::Historically { interval: closed, operand: 0 });
    proof {
        lemma_lower_shallow(f.graph.graph.nodes@, f.graph.graph.root);
        lemma_lower_premises(f.graph.graph.nodes@);
    }
    push_formula(&mut cases, f);
    let f = graph("until-closed-1-2", base(), NodeKind::Until { interval: closed, left: 0, right: 1 });
    proof {
        lemma_lower_shallow(f.graph.graph.nodes@, f.graph.graph.root);
        lemma_lower_premises(f.graph.graph.nodes@);
    }
    push_formula(&mut cases, f);
    let f = graph("release-closed-1-2", base(), NodeKind::Release { interval: closed, left: 0, right: 1 });
    proof {
        lemma_lower_shallow(f.graph.graph.nodes@, f.graph.graph.root);
        lemma_lower_premises(f.graph.graph.nodes@);
    }
    push_formula(&mut cases, f);
    let f = graph("since-closed-1-2", base(), NodeKind::Since { interval: closed, left: 0, right: 1 });
    proof {
        lemma_lower_shallow(f.graph.graph.nodes@, f.graph.graph.root);
        lemma_lower_premises(f.graph.graph.nodes@);
    }
    push_formula(&mut cases, f);
    let f = graph("triggered-closed-1-2", base(), NodeKind::Triggered { interval: closed, left: 0, right: 1 });
    proof {
        lemma_lower_shallow(f.graph.graph.nodes@, f.graph.graph.root);
        lemma_lower_premises(f.graph.graph.nodes@);
    }
    push_formula(&mut cases, f);
    let f = graph("future-unbounded-0", base(), NodeKind::Future { interval: unbounded, operand: 0 });
    proof {
        lemma_lower_shallow(f.graph.graph.nodes@, f.graph.graph.root);
        lemma_lower_premises(f.graph.graph.nodes@);
    }
    push_formula(&mut cases, f);
    let f = graph("globally-unbounded-0", base(), NodeKind::Globally { interval: unbounded, operand: 0 });
    proof {
        lemma_lower_shallow(f.graph.graph.nodes@, f.graph.graph.root);
        lemma_lower_premises(f.graph.graph.nodes@);
    }
    push_formula(&mut cases, f);
    let f = graph("once-unbounded-0", base(), NodeKind::Once { interval: unbounded, operand: 0 });
    proof {
        lemma_lower_shallow(f.graph.graph.nodes@, f.graph.graph.root);
        lemma_lower_premises(f.graph.graph.nodes@);
    }
    push_formula(&mut cases, f);
    let f = graph("historically-unbounded-0", base(), NodeKind::Historically { interval: unbounded, operand: 0 });
    proof {
        lemma_lower_shallow(f.graph.graph.nodes@, f.graph.graph.root);
        lemma_lower_premises(f.graph.graph.nodes@);
    }
    push_formula(&mut cases, f);
    let f = graph("until-unbounded-0", base(), NodeKind::Until { interval: unbounded, left: 0, right: 1 });
    proof {
        lemma_lower_shallow(f.graph.graph.nodes@, f.graph.graph.root);
        lemma_lower_premises(f.graph.graph.nodes@);
    }
    push_formula(&mut cases, f);
    let f = graph("release-unbounded-0", base(), NodeKind::Release { interval: unbounded, left: 0, right: 1 });
    proof {
        lemma_lower_shallow(f.graph.graph.nodes@, f.graph.graph.root);
        lemma_lower_premises(f.graph.graph.nodes@);
    }
    push_formula(&mut cases, f);
    let f = graph("since-unbounded-0", base(), NodeKind::Since { interval: unbounded, left: 0, right: 1 });
    proof {
        lemma_lower_shallow(f.graph.graph.nodes@, f.graph.graph.root);
        lemma_lower_premises(f.graph.graph.nodes@);
    }
    push_formula(&mut cases, f);
    let f = graph("triggered-unbounded-0", base(), NodeKind::Triggered { interval: unbounded, left: 0, right: 1 });
    proof {
        lemma_lower_shallow(f.graph.graph.nodes@, f.graph.graph.root);
        lemma_lower_premises(f.graph.graph.nodes@);
    }
    push_formula(&mut cases, f);
    let f = graph("previous", base(), NodeKind::StrongPrevious { operand: 0 });
    proof {
        lemma_lower_shallow(f.graph.graph.nodes@, f.graph.graph.root);
        lemma_lower_premises(f.graph.graph.nodes@);
    }
    push_formula(&mut cases, f);
    let mut nodes = base();
    nodes.push(NodeKind::Historically { interval: unbounded, operand: 0 });
    let f = graph("future-historically", nodes, NodeKind::Future { interval: unbounded, operand: 2 });
    proof {
        lemma_lower_nested(f.graph.graph.nodes@, f.graph.graph.root);
        lemma_lower_premises(f.graph.graph.nodes@);
    }
    push_formula(&mut cases, f);
    let mut nodes = base();
    nodes.push(NodeKind::Future { interval: unbounded, operand: 0 });
    let f = graph("historically-future", nodes, NodeKind::Historically { interval: unbounded, operand: 2 });
    proof {
        lemma_lower_nested(f.graph.graph.nodes@, f.graph.graph.root);
        lemma_lower_premises(f.graph.graph.nodes@);
    }
    push_formula(&mut cases, f);
    let mut nodes = base();
    nodes.push(NodeKind::Once { interval: unbounded, operand: 0 });
    let f = graph("globally-once", nodes, NodeKind::Globally { interval: unbounded, operand: 2 });
    proof {
        lemma_lower_nested(f.graph.graph.nodes@, f.graph.graph.root);
        lemma_lower_premises(f.graph.graph.nodes@);
    }
    push_formula(&mut cases, f);
    let mut nodes = base();
    nodes.push(NodeKind::Globally { interval: unbounded, operand: 0 });
    let f = graph("once-globally", nodes, NodeKind::Once { interval: unbounded, operand: 2 });
    proof {
        lemma_lower_nested(f.graph.graph.nodes@, f.graph.graph.root);
        lemma_lower_premises(f.graph.graph.nodes@);
    }
    push_formula(&mut cases, f);
    cases
}

/// The finite axes of the partition.
#[derive(Debug)]
pub struct V11Population {
    formulas: Vec<V11Formula>,
    words: Vec<V11Word>,
}

/// The identifier of a case: formulas outermost, then words, fairness modes
/// and anchors; absent when an axis index is out of range.
pub open spec fn case_ordinal(formula: nat, word: nat, fairness: nat, anchor: nat) -> Option<u64> {
    if formula < FORMULA_COUNT && word < WORD_COUNT && fairness < FAIRNESS_COUNT && anchor < 4 {
        Some((((formula * WORD_COUNT + word) * FAIRNESS_COUNT + fairness) * 4 + anchor) as u64)
    } else {
        None
    }
}

impl V11Population {
    #[verifier::type_invariant]
    spec fn declared(self) -> bool {
        &&& self.formulas@.len() == FORMULA_COUNT
        &&& forall|k: int| 0 <= k < self.formulas@.len() ==> formula_ok(#[trigger] self.formulas@[k], k)
        &&& self.words@.len() == WORD_COUNT
        &&& axis_view(self.words@) == word_axis()
        &&& forall|k: int| 0 <= k < self.words@.len() ==> (#[trigger] self.words@[k]).view_index() == k && word_ok(self.words@[k])
    }

    /// The formula axis.
    pub closed spec fn view_formulas(self) -> Seq<V11Formula> {
        self.formulas@
    }

    /// The word axis.
    pub closed spec fn view_words(self) -> Seq<V11Word> {
        self.words@
    }

    /// Both axes as declared: [`formula_ok`] for every formula, the words
    /// exactly [`word_axis`], each numbered by its position and consistent with its trace.
    pub open spec fn axes_declared(self) -> bool {
        &&& self.view_formulas().len() == FORMULA_COUNT
        &&& forall|k: int| 0 <= k < self.view_formulas().len() ==> formula_ok(#[trigger] self.view_formulas()[k], k)
        &&& self.view_words().len() == WORD_COUNT
        &&& axis_view(self.view_words()) == word_axis()
        &&& forall|k: int| 0 <= k < self.view_words().len() ==> (#[trigger] self.view_words()[k]).view_index() == k && word_ok(self.view_words()[k])
    }

    /// Constructs both axes at their declared sizes.
    pub fn new() -> (r: Self)
        ensures
            r.axes_declared(),
    {
        let formulas = formulas();
        let words = words();
        V11Population { formulas, words }
    }

    /// Named formula graphs in stable order.
    pub fn formulas(&self) -> (r: &[V11Formula])
        ensures
            r@ == self.view_formulas(),
            self.axes_declared(),
    {
        proof { use_type_invariant(self); }
        self.formulas.as_slice()
    }

    /// Distinct lasso words in stable order.
    pub fn words(&self) -> (r: &[V11Word])
        ensures
            r@ == self.view_words(),
            self.axes_declared(),
    {
        proof { use_type_invariant(self); }
        self.words.as_slice()
    }

    /// Deterministic contiguous case identifier, or absent for an invalid axis.
    pub fn case_id(&self, formula: usize, word: usize, fairness: usize, anchor: usize) -> (r: Option<u64>)
        ensures
            r == case_ordinal(formula as nat, word as nat, fairness as nat, anchor as nat),
    {
        proof { use_type_invariant(self); }
        if formula >= self.formulas.len() || word >= self.words.len() || fairness >= FAIRNESS_COUNT || anchor >= 4 {
            return None;
        }
        proof {
            assert(((formula * WORD_COUNT + word) * FAIRNESS_COUNT + fairness) * 4 + anchor < 133920) by (nonlinear_arith)
                requires
                    formula < 30,
                    word < 372,
                    fairness < 3,
                    anchor < 4,
            ;
        }
        let ordinal = (((formula * WORD_COUNT + word) * FAIRNESS_COUNT + fairness) * 4) + anchor;
        Some(ordinal as u64)
    }
}

impl Default for V11Population {
    fn default() -> (r: Self)
        ensures
            r.axes_declared(),
    {
        Self::new()
    }
}

/// Every in-range case has an identifier below the declared case count.
pub proof fn law_case_ids_declared(formula: nat, word: nat, fairness: nat, anchor: nat)
    requires
        formula < FORMULA_COUNT,
        word < WORD_COUNT,
        fairness < FAIRNESS_COUNT,
        anchor < 4,
    ensures
        case_ordinal(formula, word, fairness, anchor) matches Some(id) && id < DECLARED_CASES,
{
    assert(((formula * 372 + word) * 3 + fairness) * 4 + anchor < 133920) by (nonlinear_arith)
        requires
            formula < 30,
            word < 372,
            fairness < 3,
            anchor < 4,
    ;
}

/// Distinct in-range cases have distinct identifiers.
pub proof fn law_case_ids_distinct(f1: nat, w1: nat, a1: nat, n1: nat, f2: nat, w2: nat, a2: nat, n2: nat)
    requires
        case_ordinal(f1, w1, a1, n1) is Some,
        case_ordinal(f1, w1, a1, n1) == case_ordinal(f2, w2, a2, n2),
    ensures
        f1 == f2 && w1 == w2 && a1 == a2 && n1 == n2,
{
    let i1 = ((f1 * 372 + w1) * 3 + a1) * 4 + n1;
    let i2 = ((f2 * 372 + w2) * 3 + a2) * 4 + n2;
    assert(i1 < 133920 && i2 < 133920) by (nonlinear_arith)
        requires
            f1 < 30, w1 < 372, a1 < 3, n1 < 4,
            f2 < 30, w2 < 372, a2 < 3, n2 < 4,
            i1 == ((f1 * 372 + w1) * 3 + a1) * 4 + n1,
            i2 == ((f2 * 372 + w2) * 3 + a2) * 4 + n2,
    ;
    assert(i1 == i2);
    let q1 = (f1 * 372 + w1) * 3 + a1;
    let q2 = (f2 * 372 + w2) * 3 + a2;
    vstd::arithmetic::div_mod::lemma_fundamental_div_mod_converse(i1 as int, 4, q1 as int, n1 as int);
    vstd::arithmetic::div_mod::lemma_fundamental_div_mod_converse(i2 as int, 4, q2 as int, n2 as int);
    let p1 = f1 * 372 + w1;
    let p2 = f2 * 372 + w2;
    vstd::arithmetic::div_mod::lemma_fundamental_div_mod_converse(q1 as int, 3, p1 as int, a1 as int);
    vstd::arithmetic::div_mod::lemma_fundamental_div_mod_converse(q2 as int, 3, p2 as int, a2 as int);
    vstd::arithmetic::div_mod::lemma_fundamental_div_mod_converse(p1 as int, 372, f1 as int, w1 as int);
    vstd::arithmetic::div_mod::lemma_fundamental_div_mod_converse(p2 as int, 372, f2 as int, w2 as int);
}

/// Every identifier below the declared case count names an in-range case.
pub proof fn law_case_ids_contiguous(id: nat)
    requires
        id < DECLARED_CASES,
    ensures
        exists|f: nat, w: nat, a: nat, n: nat| #[trigger] case_ordinal(f, w, a, n) == Some(id as u64),
{
    let n = id % 4;
    let q = id / 4;
    let a = q % 3;
    let p = q / 3;
    let w = p % 372;
    let f = p / 372;
    assert(f < 30) by (nonlinear_arith)
        requires
            id < 133920,
            q == id / 4,
            p == q / 3,
            f == p / 372,
    ;
    vstd::arithmetic::div_mod::lemma_fundamental_div_mod(id as int, 4);
    vstd::arithmetic::div_mod::lemma_fundamental_div_mod(q as int, 3);
    vstd::arithmetic::div_mod::lemma_fundamental_div_mod(p as int, 372);
    vstd::arithmetic::div_mod::lemma_mod_bound(id as int, 4);
    vstd::arithmetic::div_mod::lemma_mod_bound(q as int, 3);
    vstd::arithmetic::div_mod::lemma_mod_bound(p as int, 372);
    assert(((f * 372 + w) * 3 + a) * 4 + n == id) by (nonlinear_arith)
        requires
            id == 4 * q + n,
            q == 3 * p + a,
            p == 372 * f + w,
    ;
    assert(case_ordinal(f, w, a, n) == Some(id as u64));
}

} // verus!
