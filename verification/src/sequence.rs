//! Ultimately periodic Boolean sequences and their evaluation on one concrete lasso.
//!
//! A sequence stores every value before its start and one full period after
//! it; later positions repeat that period. Each operator materializes its
//! sequence from its operands' sequences, and every materialized sequence is
//! proved to agree with [`sem`] at every position.

use vstd::prelude::*;
use vstd::arithmetic::div_mod::{lemma_mod_add_multiples_vanish, lemma_mod_sub_multiples_vanish, lemma_small_mod, lemma_mod_bound};
use crate::semantics::{
    periodic_from, negate, always, sem, ahead, ahead_at, ahead_fn, behind, behind_at, behind_fn,
    after, before, in_range, guarded_after, guarded_before, lookup, cell_of, lemma_step,
    lemma_negate_periodic, lemma_ahead_periodic, lemma_ahead_ceiling, lemma_behind_periodic,
};
use crate::{Formula, Interval, Limits, OracleError};
use std::collections::BTreeMap;

verus! {

/// An ultimately periodic Boolean sequence.
pub struct Sequence {
    /// Values at positions `0..start + period`.
    pub values: Vec<bool>,
    /// First position of the repeating part.
    pub start: usize,
    /// Length of the repeating part.
    pub period: usize,
}

impl Sequence {
    /// The stored values cover the prefix and one period.
    pub open spec fn wf(&self) -> bool {
        &&& self.period > 0
        &&& self.values@.len() == self.start + self.period
    }

    /// The value at position `t`.
    pub open spec fn spec_at(&self, t: nat) -> bool {
        if t < self.start {
            self.values@[t as int]
        } else {
            self.values@[(self.start + (t - self.start) % (self.period as int)) as int]
        }
    }

    /// The sequence as a function of position.
    pub open spec fn view_fn(&self) -> spec_fn(nat) -> bool {
        |t: nat| self.spec_at(t)
    }

    /// The value at position `index`.
    pub fn at(&self, index: usize) -> (r: bool)
        requires
            self.wf(),
        ensures
            r == self.spec_at(index as nat),
    {
        let index = if index < self.start {
            index
        } else {
            let off = (index - self.start) % self.period;
            proof {
                lemma_mod_bound(index - self.start, self.period as int);
            }
            let n = self.values.len();
            assert(off < self.period && n == self.start + self.period);
            self.start + off
        };
        self.values[index]
    }

    /// The pointwise negation, with the same start and period.
    pub fn negated(self) -> (r: Self)
        requires
            self.wf(),
        ensures
            r.wf(),
            r.start == self.start,
            r.period == self.period,
            r.view_fn() == negate(self.view_fn()),
    {
        let mut values = self.values;
        let n = values.len();
        let mut i: usize = 0;
        while i < n
            invariant
                n == values@.len(),
                values@.len() == self.values@.len(),
                i <= n,
                forall|j: int| 0 <= j < i ==> values@[j] == !self.values@[j],
                forall|j: int| i <= j < n ==> values@[j] == self.values@[j],
            decreases n - i,
        {
            let v = values[i];
            values.set(i, !v);
            i += 1;
        }
        let r = Sequence { values, start: self.start, period: self.period };
        assert(r.view_fn() =~= negate(self.view_fn())) by {
            assert forall|t: nat| #[trigger] r.view_fn()(t) == negate(self.view_fn())(t) by {
                if t >= self.start {
                    lemma_mod_bound(t - self.start, self.period as int);
                }
            }
        }
        r
    }

    /// Positions at or after the start repeat with the period.
    pub proof fn lemma_periodic(&self)
        requires
            self.wf(),
        ensures
            periodic_from(self.view_fn(), self.start as nat, self.period as nat),
    {
        assert forall|t: nat| self.start <= t implies #[trigger] self.view_fn()(t + self.period as nat) == self.view_fn()(t) by {
            lemma_mod_add_multiples_vanish(t - self.start, self.period as int);
        }
    }
}

/// A function periodic from `s` agrees at every later position with its value in the first period.
pub proof fn lemma_fold(f: spec_fn(nat) -> bool, s: nat, p: nat, t: nat)
    requires
        p > 0,
        periodic_from(f, s, p),
        s <= t,
    ensures
        f(t) == f((s + (t - s) % (p as int)) as nat),
    decreases t,
{
    if t < s + p {
        lemma_small_mod((t - s) as nat, p);
    } else {
        let u = (t - p) as nat;
        lemma_fold(f, s, p, u);
        assert(f(u + p) == f(u));
        assert(u + p == t);
        lemma_mod_sub_multiples_vanish(t - s, p as int);
        assert((t - s - p) == (-(p as int)) + (t - s));
    }
}

/// A function periodic from `s` whose first `s + p` values are stored is represented exactly.
pub proof fn lemma_materialized(sq: &Sequence, f: spec_fn(nat) -> bool)
    requires
        sq.wf(),
        periodic_from(f, sq.start as nat, sq.period as nat),
        forall|i: int| 0 <= i < sq.start + sq.period ==> sq.values@[i] == f(i as nat),
    ensures
        sq.view_fn() == f,
{
    assert forall|t: nat| #[trigger] sq.view_fn()(t) == f(t) by {
        if t >= sq.start {
            lemma_fold(f, sq.start as nat, sq.period as nat, t);
            lemma_mod_bound(t - sq.start, sq.period as int);
        }
    }
    assert(sq.view_fn() =~= f);
}

/// A function periodic from `s` is periodic from every later position.
pub proof fn lemma_periodic_later(f: spec_fn(nat) -> bool, s: nat, s2: nat, p: nat)
    requires
        periodic_from(f, s, p),
        s <= s2,
    ensures
        periodic_from(f, s2, p),
{
}

/// A function periodic from `s` takes the same value `k` periods later.
pub proof fn lemma_periodic_multiple(f: spec_fn(nat) -> bool, s: nat, p: nat, t: nat, k: nat)
    requires
        periodic_from(f, s, p),
        s <= t,
    ensures
        f(t + k * p) == f(t),
    decreases k,
{
    if k > 0 {
        let k1 = (k - 1) as nat;
        lemma_periodic_multiple(f, s, p, t, k1);
        let u: nat = t + k1 * p;
        assert(t + k * p == u + p) by (nonlinear_arith)
            requires
                u == t + k1 * p,
                k1 + 1 == k,
        ;
        assert(f(u + p) == f(u));
    }
}


/// The Boolean cells as maps.
pub open spec fn cells_view(cells: Seq<BTreeMap<u32, bool>>) -> Seq<Map<u32, bool>> {
    cells.map_values(|m: BTreeMap<u32, bool>| m@)
}

/// A sequence starting at `start` and one period fits the position budget.
pub open spec fn materialize(start: nat, p: nat, limits: Limits) -> Result<nat, OracleError> {
    if start + p > limits.max_positions {
        Err(OracleError::ResourceIncomplete)
    } else {
        Ok(start)
    }
}

/// The refusal, if any, of an interval: inverted, or beyond the offset budget.
pub open spec fn range_refusal(r: Interval, limits: Limits) -> Option<OracleError> {
    match r.upper() {
        Some(e) if r.lower() > e => Some(OracleError::InvertedInterval),
        _ => if r.lower() > limits.max_offset || (match r.upper() {
            Some(e) => e > limits.max_offset,
            None => false,
        }) {
            Some(OracleError::ResourceIncomplete)
        } else {
            None
        },
    }
}

/// The farthest offset a past interval reaches before its value can repeat:
/// the upper bound of a closed interval, the lower bound of an unbounded one.
pub open spec fn reach(r: Interval) -> nat {
    match r.upper() {
        Some(e) => e,
        None => r.lower(),
    }
}

/// Values one period apart agree over the period that ends at `start`.
pub open spec fn window_eq(f: spec_fn(nat) -> bool, start: nat, p: nat) -> bool {
    forall|i: nat| i < p ==> #[trigger] f(start + i) == f((start - p + i) as nat)
}

/// Start of a future operator's sequence over operands starting no later than
/// `start`; refused when its scan, which reaches at most the interval's lower
/// bound plus two periods past the start, would pass the machine's positions.
pub open spec fn ahead_plan(r: Interval, start: nat, p: nat, limits: Limits) -> Result<nat, OracleError> {
    match range_refusal(r, limits) {
        Some(e) => Err(e),
        None => match materialize(start, p, limits) {
            Err(e) => Err(e),
            Ok(s) => if r.lower() + start + 2 * p > usize::MAX {
                Err(OracleError::ResourceIncomplete)
            } else {
                Ok(s)
            },
        },
    }
}

/// Start of a past operator's sequence `f` over operands starting no later than `cs`:
/// one period after its reach, or one period later when the first two periods differ.
pub open spec fn behind_plan(
    r: Interval,
    cs: nat,
    f: spec_fn(nat) -> bool,
    p: nat,
    limits: Limits,
) -> Result<nat, OracleError> {
    match range_refusal(r, limits) {
        Some(e) => Err(e),
        None => {
            let first = cs + reach(r) + p;
            if first + p > limits.max_positions {
                Err(OracleError::ResourceIncomplete)
            } else if window_eq(f, first, p) {
                Ok(first)
            } else if first + p + p > limits.max_positions {
                Err(OracleError::ResourceIncomplete)
            } else {
                Ok(first + p)
            }
        },
    }
}

/// The larger of two naturals.
pub open spec fn nmax(a: nat, b: nat) -> nat {
    if a >= b { a } else { b }
}

/// Start of the sequence materialized for `f`, or the refusal met first while
/// materializing it, operands before operators and, for binary temporal
/// operators, the right operand first.
pub open spec fn plan(f: Formula, cells: Seq<Map<u32, bool>>, entry: nat, limits: Limits) -> Result<nat, OracleError>
    decreases f,
{
    let p = (cells.len() - entry) as nat;
    match f {
        Formula::False => materialize(entry, p, limits),
        Formula::True => materialize(entry, p, limits),
        Formula::Atom(_) => materialize(entry, p, limits),
        Formula::Not(a) => plan(*a, cells, entry, limits),
        Formula::And(a, b) => plan_pair(plan(*a, cells, entry, limits), plan(*b, cells, entry, limits), p, limits),
        Formula::Or(a, b) => plan_pair(plan(*a, cells, entry, limits), plan(*b, cells, entry, limits), p, limits),
        Formula::Implies(a, b) => plan_pair(plan(*a, cells, entry, limits), plan(*b, cells, entry, limits), p, limits),
        Formula::Equivalent(a, b) => plan_pair(plan(*a, cells, entry, limits), plan(*b, cells, entry, limits), p, limits),
        Formula::Future(r, a) => match plan(*a, cells, entry, limits) {
            Err(e) => Err(e),
            Ok(x) => ahead_plan(r, x, p, limits),
        },
        Formula::Globally(r, a) => match plan(*a, cells, entry, limits) {
            Err(e) => Err(e),
            Ok(x) => ahead_plan(r, x, p, limits),
        },
        Formula::Until(r, a, b) => match plan(*b, cells, entry, limits) {
            Err(e) => Err(e),
            Ok(y) => match plan(*a, cells, entry, limits) {
                Err(e) => Err(e),
                Ok(x) => ahead_plan(r, nmax(y, x), p, limits),
            },
        },
        Formula::Release(r, a, b) => match plan(*b, cells, entry, limits) {
            Err(e) => Err(e),
            Ok(y) => match plan(*a, cells, entry, limits) {
                Err(e) => Err(e),
                Ok(x) => ahead_plan(r, nmax(y, x), p, limits),
            },
        },
        Formula::Once(r, a) => match plan(*a, cells, entry, limits) {
            Err(e) => Err(e),
            Ok(x) => behind_plan(r, x, behind_fn(r.lower(), r.upper(), sem(*a, cells, entry), always()), p, limits),
        },
        Formula::Historically(r, a) => match plan(*a, cells, entry, limits) {
            Err(e) => Err(e),
            Ok(x) => behind_plan(
                r,
                x,
                behind_fn(r.lower(), r.upper(), negate(sem(*a, cells, entry)), always()),
                p,
                limits,
            ),
        },
        Formula::Since(r, a, b) => match plan(*b, cells, entry, limits) {
            Err(e) => Err(e),
            Ok(y) => match plan(*a, cells, entry, limits) {
                Err(e) => Err(e),
                Ok(x) => behind_plan(
                    r,
                    nmax(y, x),
                    behind_fn(r.lower(), r.upper(), sem(*b, cells, entry), sem(*a, cells, entry)),
                    p,
                    limits,
                ),
            },
        },
        Formula::Triggered(r, a, b) => match plan(*b, cells, entry, limits) {
            Err(e) => Err(e),
            Ok(y) => match plan(*a, cells, entry, limits) {
                Err(e) => Err(e),
                Ok(x) => behind_plan(
                    r,
                    nmax(y, x),
                    behind_fn(
                        r.lower(),
                        r.upper(),
                        negate(sem(*b, cells, entry)),
                        negate(sem(*a, cells, entry)),
                    ),
                    p,
                    limits,
                ),
            },
        },
        Formula::StrongPrevious(a) => match plan(*a, cells, entry, limits) {
            Err(e) => Err(e),
            Ok(x) => behind_plan(
                Interval::Closed { start: 1, end: 1 },
                x,
                behind_fn(1, Some(1), sem(*a, cells, entry), always()),
                p,
                limits,
            ),
        },
    }
}

/// Start of a Boolean combination of two operand plans.
pub open spec fn plan_pair(
    a: Result<nat, OracleError>,
    b: Result<nat, OracleError>,
    p: nat,
    limits: Limits,
) -> Result<nat, OracleError> {
    match a {
        Err(e) => Err(e),
        Ok(x) => match b {
            Err(e) => Err(e),
            Ok(y) => materialize(nmax(x, y), p, limits),
        },
    }
}

/// `r` is a sequence with start `st` and period `p` whose values are `f`.
pub open spec fn delivers(r: Result<Sequence, OracleError>, st: nat, p: nat, f: spec_fn(nat) -> bool) -> bool {
    match r {
        Ok(sq) => sq.wf() && sq.start == st && sq.period == p && sq.view_fn() == f,
        Err(_) => false,
    }
}

/// `r` is what `expected` plans: a sequence of `f`, or its refusal.
pub open spec fn follows(
    r: Result<Sequence, OracleError>,
    expected: Result<nat, OracleError>,
    p: nat,
    f: spec_fn(nat) -> bool,
) -> bool {
    match expected {
        Ok(st) => delivers(r, st, p, f),
        Err(e) => r == Err::<Sequence, OracleError>(e),
    }
}

/// The values of an optional guard; a missing guard always holds.
pub open spec fn guard_view(g: Option<Sequence>) -> spec_fn(nat) -> bool {
    match g {
        Some(s) => s.view_fn(),
        None => always(),
    }
}

/// The start of an optional guard; a missing guard starts at the origin.
pub open spec fn guard_start(g: Option<Sequence>) -> nat {
    match g {
        Some(s) => s.start as nat,
        None => 0,
    }
}

/// An optional guard is a well-formed sequence with period `p`.
pub open spec fn guard_wf(g: Option<Sequence>, p: nat) -> bool {
    match g {
        Some(s) => s.wf() && s.period == p,
        None => true,
    }
}

/// A Boolean connective.
#[derive(Clone, Copy)]
pub enum Connective {
    And,
    Or,
    Implies,
    Equivalent,
}

impl Connective {
    pub open spec fn spec_apply(self, a: bool, b: bool) -> bool {
        match self {
            Connective::And => a && b,
            Connective::Or => a || b,
            Connective::Implies => !a || b,
            Connective::Equivalent => a == b,
        }
    }

    pub fn apply(self, a: bool, b: bool) -> (r: bool)
        ensures
            r == self.spec_apply(a, b),
    {
        match self {
            Connective::And => a && b,
            Connective::Or => a || b,
            Connective::Implies => !a || b,
            Connective::Equivalent => a == b,
        }
    }
}

/// One Boolean completion of a lasso, under a resource budget.
pub struct ConcreteWord<'a> {
    /// Boolean cells, prefix then loop.
    pub cells: &'a [BTreeMap<u32, bool>],
    /// Index where the loop begins.
    pub loop_entry: usize,
    /// Resource budget.
    pub limits: Limits,
}

impl<'a> ConcreteWord<'a> {
    pub open spec fn wf(&self) -> bool {
        &&& self.loop_entry < self.cells@.len()
        &&& self.cells@.len() <= self.limits.max_positions
    }

    pub open spec fn view_cells(&self) -> Seq<Map<u32, bool>> {
        cells_view(self.cells@)
    }

    pub open spec fn spec_period(&self) -> nat {
        (self.cells@.len() - self.loop_entry) as nat
    }

    /// Length of the loop.
    pub fn period(&self) -> (r: usize)
        requires
            self.wf(),
        ensures
            r == self.spec_period(),
            r > 0,
    {
        self.cells.len() - self.loop_entry
    }

    /// `start` plus one period, if that many positions fit the budget.
    fn length(&self, start: usize) -> (r: Result<usize, OracleError>)
        requires
            self.wf(),
        ensures
            match materialize(start as nat, self.spec_period(), self.limits) {
                Ok(_) => r == Ok::<usize, OracleError>((start + self.spec_period()) as usize),
                Err(e) => r == Err::<usize, OracleError>(e),
            },
    {
        let len = match start.checked_add(self.period()) {
            Some(v) => v,
            None => return Err(OracleError::ResourceIncomplete),
        };
        if len > self.limits.max_positions {
            return Err(OracleError::ResourceIncomplete);
        }
        Ok(len)
    }

    /// The bounds of an admitted interval.
    fn check_range(&self, range: Interval) -> (r: Result<(usize, Option<usize>), OracleError>)
        ensures
            match range_refusal(range, self.limits) {
                Some(e) => r == Err::<(usize, Option<usize>), OracleError>(e),
                None => r == Ok::<(usize, Option<usize>), OracleError>(range.spec_bounds()),
            },
    {
        let (lower, upper) = range.bounds();
        match upper {
            Some(end) => {
                if lower > end {
                    return Err(OracleError::InvertedInterval);
                }
            },
            None => {},
        }
        if lower > self.limits.max_offset {
            return Err(OracleError::ResourceIncomplete);
        }
        match upper {
            Some(end) => {
                if end > self.limits.max_offset {
                    return Err(OracleError::ResourceIncomplete);
                }
            },
            None => {},
        }
        Ok((lower, upper))
    }

    /// The sequence of a constant truth value.
    fn constant(&self, value: bool) -> (r: Result<Sequence, OracleError>)
        requires
            self.wf(),
        ensures
            follows(
                r,
                materialize(self.loop_entry as nat, self.spec_period(), self.limits),
                self.spec_period(),
                |t: nat| value,
            ),
    {
        let len = self.length(self.loop_entry)?;
        let mut values: Vec<bool> = Vec::new();
        let mut i: usize = 0;
        while i < len
            invariant
                values@.len() == i,
                i <= len,
                forall|j: int| 0 <= j < i ==> values@[j] == value,
            decreases len - i,
        {
            values.push(value);
            i += 1;
        }
        let sq = Sequence { values, start: self.loop_entry, period: self.period() };
        proof {
            let f = |t: nat| value;
            assert(periodic_from(f, sq.start as nat, sq.period as nat));
            lemma_materialized(&sq, f);
        }
        Ok(sq)
    }

    /// The value of atom `id` at position `i` of the word.
    fn atom_at(&self, id: u32, i: usize) -> (r: bool)
        requires
            self.wf(),
        ensures
            r == sem(Formula::Atom(id), self.view_cells(), self.loop_entry as nat)(i as nat),
    {
        let n = self.cells.len();
        let cell = if i < n {
            i
        } else {
            let off = (i - self.loop_entry) % self.period();
            proof {
                lemma_mod_bound(i - self.loop_entry, self.spec_period() as int);
            }
            self.loop_entry + off
        };
        assert(cell == cell_of(n as nat, self.loop_entry as nat, i as nat));
        match self.cells[cell].get(&id) {
            Some(v) => *v,
            None => false,
        }
    }

    /// The sequence of atom `id`.
    fn atom(&self, id: u32) -> (r: Result<Sequence, OracleError>)
        requires
            self.wf(),
        ensures
            follows(
                r,
                materialize(self.loop_entry as nat, self.spec_period(), self.limits),
                self.spec_period(),
                sem(Formula::Atom(id), self.view_cells(), self.loop_entry as nat),
            ),
    {
        let len = self.length(self.loop_entry)?;
        let ghost f = sem(Formula::Atom(id), self.view_cells(), self.loop_entry as nat);
        let mut values: Vec<bool> = Vec::new();
        let mut i: usize = 0;
        while i < len
            invariant
                self.wf(),
                values@.len() == i,
                i <= len,
                f == sem(Formula::Atom(id), self.view_cells(), self.loop_entry as nat),
                forall|j: int| 0 <= j < i ==> values@[j] == f(j as nat),
            decreases len - i,
        {
            values.push(self.atom_at(id, i));
            i += 1;
        }
        let sq = Sequence { values, start: self.loop_entry, period: self.period() };
        proof {
            self.lemma_atom_periodic(id);
            lemma_materialized(&sq, f);
        }
        Ok(sq)
    }

    /// An atom repeats with the loop from the loop entry on.
    proof fn lemma_atom_periodic(&self, id: u32)
        requires
            self.wf(),
        ensures
            periodic_from(
                sem(Formula::Atom(id), self.view_cells(), self.loop_entry as nat),
                self.loop_entry as nat,
                self.spec_period(),
            ),
    {
        let len = self.cells@.len();
        let e = self.loop_entry as nat;
        let p = self.spec_period();
        assert forall|t: nat| e <= t implies #[trigger] cell_of(len, e, t + p) == cell_of(len, e, t) by {
            lemma_mod_add_multiples_vanish(t - e, p as int);
            if t < len {
                lemma_small_mod((t - e) as nat, p);
            }
        }
        let f = sem(Formula::Atom(id), self.view_cells(), e);
        assert forall|t: nat| e <= t implies #[trigger] f(t + p) == f(t) by {
            assert(cell_of(len, e, t + p) == cell_of(len, e, t));
        }
    }

    /// The pointwise combination of two sequences.
    fn combine(&self, left: Sequence, right: Sequence, op: Connective) -> (r: Result<Sequence, OracleError>)
        requires
            self.wf(),
            left.wf(),
            right.wf(),
            left.period == self.spec_period(),
            right.period == self.spec_period(),
        ensures
            follows(
                r,
                materialize(nmax(left.start as nat, right.start as nat), self.spec_period(), self.limits),
                self.spec_period(),
                |t: nat| op.spec_apply(left.view_fn()(t), right.view_fn()(t)),
            ),
    {
        let start = if left.start >= right.start { left.start } else { right.start };
        let len = self.length(start)?;
        let ghost f = |t: nat| op.spec_apply(left.view_fn()(t), right.view_fn()(t));
        let mut values: Vec<bool> = Vec::new();
        let mut i: usize = 0;
        while i < len
            invariant
                left.wf(),
                right.wf(),
                values@.len() == i,
                i <= len,
                f == (|t: nat| op.spec_apply(left.view_fn()(t), right.view_fn()(t))),
                forall|j: int| 0 <= j < i ==> values@[j] == f(j as nat),
            decreases len - i,
        {
            let a = left.at(i);
            let b = right.at(i);
            values.push(op.apply(a, b));
            i += 1;
        }
        let sq = Sequence { values, start, period: self.period() };
        proof {
            left.lemma_periodic();
            right.lemma_periodic();
            let p = self.spec_period();
            assert forall|t: nat| start <= t implies #[trigger] f(t + p) == f(t) by {
                lemma_step(left.view_fn(), left.start as nat, p, t);
                lemma_step(right.view_fn(), right.start as nat, p, t);
            }
            lemma_materialized(&sq, f);
        }
        Ok(sq)
    }

    /// The future clause at `time`, scanning offsets up to the interval's end,
    /// or, for an unbounded interval, up to one period past the later of `time`
    /// and `start`, beyond which witness values repeat.
    fn future_at(
        &self,
        lower: usize,
        upper: Option<usize>,
        start: usize,
        witness: &Sequence,
        guard: &Option<Sequence>,
        time: usize,
    ) -> (r: bool)
        requires
            self.wf(),
            witness.wf(),
            witness.period == self.spec_period(),
            witness.start <= start,
            guard_wf(*guard, self.spec_period()),
            start + self.spec_period() <= self.limits.max_positions,
            time < start + self.spec_period(),
            lower + start + 2 * self.spec_period() <= usize::MAX,
        ensures
            r == ahead(
                lower as nat,
                match upper {
                    Some(e) => Some(e as nat),
                    None => None,
                },
                witness.view_fn(),
                guard_view(*guard),
                time as nat,
            ),
    {
        let ghost hi = match upper {
            Some(e) => Some(e as nat),
            None => None,
        };
        let ghost w = witness.view_fn();
        let ghost g = guard_view(*guard);
        let ghost lo = lower as nat;
        let period = self.period();
        let back = if start > time { start - time } else { 0 };
        let reach = lower + back + period;
        let ceiling = match upper {
            Some(end) => if end < reach { end } else { reach },
            None => reach,
        };
        let mut offset: usize = 0;
        while offset <= ceiling
            invariant
                witness.wf(),
                guard_wf(*guard, self.spec_period()),
                w == witness.view_fn(),
                g == guard_view(*guard),
                lo == lower as nat,
                hi == (match upper {
                    Some(e) => Some(e as nat),
                    None => None::<nat>,
                }),
                ceiling <= reach,
                reach == lower + back + period,
                back == (if time < start { (start - time) as nat } else { 0nat }),
                upper matches Some(end) ==> ceiling == (if end < reach { end } else { reach }),
                upper is None ==> ceiling == reach,
                ceiling + 1 + time <= usize::MAX,
                offset <= ceiling + 1,
                guarded_after(g, time as nat, offset as nat),
                forall|d: nat| d < offset ==> !#[trigger] ahead_at(lo, hi, w, g, time as nat, d),
            decreases ceiling + 1 - offset,
        {
            if offset >= lower && witness.at(time + offset) {
                assert(ahead_at(lo, hi, w, g, time as nat, offset as nat));
                return true;
            }
            assert(!ahead_at(lo, hi, w, g, time as nat, offset as nat));
            match guard {
                Some(gs) => {
                    if !gs.at(time + offset) {
                        assert forall|d: nat| #![trigger ahead_at(lo, hi, w, g, time as nat, d)] true implies !ahead_at(lo, hi, w, g, time as nat, d) by {
                            if d > offset {
                                assert(!after(g, time as nat, offset as nat));
                            }
                        }
                        return false;
                    }
                },
                None => {},
            }
            assert(after(g, time as nat, offset as nat));
            offset += 1;
        }
        proof {
            if ahead(lo, hi, w, g, time as nat) {
                let d = choose|d: nat| #[trigger] ahead_at(lo, hi, w, g, time as nat, d);
                witness.lemma_periodic();
                lemma_periodic_later(w, witness.start as nat, start as nat, period as nat);
                lemma_ahead_ceiling(lo, hi, w, g, start as nat, period as nat, time as nat, d);
            }
        }
        false
    }

    /// The sequence of a future clause over `witness`, guarded by `guard` when present.
    fn future(&self, range: Interval, witness: Sequence, guard: Option<Sequence>) -> (r: Result<Sequence, OracleError>)
        requires
            self.wf(),
            witness.wf(),
            witness.period == self.spec_period(),
            guard_wf(guard, self.spec_period()),
        ensures
            follows(
                r,
                ahead_plan(range, nmax(witness.start as nat, guard_start(guard)), self.spec_period(), self.limits),
                self.spec_period(),
                ahead_fn(range.lower(), range.upper(), witness.view_fn(), guard_view(guard)),
            ),
    {
        let (lower, upper) = self.check_range(range)?;
        let guard_begin = match &guard {
            Some(g) => g.start,
            None => 0,
        };
        let start = if witness.start >= guard_begin { witness.start } else { guard_begin };
        let len = self.length(start)?;
        let scan_end = match lower.checked_add(len) {
            Some(v) => v.checked_add(self.period()),
            None => None,
        };
        if scan_end.is_none() {
            return Err(OracleError::ResourceIncomplete);
        }
        let ghost f = ahead_fn(range.lower(), range.upper(), witness.view_fn(), guard_view(guard));
        let mut values: Vec<bool> = Vec::new();
        let mut time: usize = 0;
        while time < len
            invariant
                self.wf(),
                witness.wf(),
                witness.period == self.spec_period(),
                witness.start <= start,
                guard_wf(guard, self.spec_period()),
                len == start + self.spec_period(),
                len <= self.limits.max_positions,
                lower + start + 2 * self.spec_period() <= usize::MAX,
                (lower, upper) == range.spec_bounds(),
                f == ahead_fn(range.lower(), range.upper(), witness.view_fn(), guard_view(guard)),
                values@.len() == time,
                time <= len,
                forall|j: int| 0 <= j < time ==> values@[j] == f(j as nat),
            decreases len - time,
        {
            let v = self.future_at(lower, upper, start, &witness, &guard, time);
            values.push(v);
            time += 1;
        }
        let sq = Sequence { values, start, period: self.period() };
        proof {
            let p = self.spec_period();
            witness.lemma_periodic();
            lemma_periodic_later(witness.view_fn(), witness.start as nat, start as nat, p);
            match guard {
                Some(gs) => {
                    gs.lemma_periodic();
                    lemma_periodic_later(gs.view_fn(), gs.start as nat, start as nat, p);
                },
                None => {},
            }
            lemma_ahead_periodic(range.lower(), range.upper(), witness.view_fn(), guard_view(guard), start as nat, p);
            lemma_materialized(&sq, f);
        }
        Ok(sq)
    }

    /// The past clause at `time`, scanning offsets back to the interval's end or the origin.
    fn past_at(
        &self,
        lower: usize,
        upper: Option<usize>,
        witness: &Sequence,
        guard: &Option<Sequence>,
        time: usize,
    ) -> (r: bool)
        requires
            witness.wf(),
            guard_wf(*guard, witness.period as nat),
            time < usize::MAX,
        ensures
            r == behind(
                lower as nat,
                match upper {
                    Some(e) => Some(e as nat),
                    None => None,
                },
                witness.view_fn(),
                guard_view(*guard),
                time as nat,
            ),
    {
        let ghost hi = match upper {
            Some(e) => Some(e as nat),
            None => None,
        };
        let ghost w = witness.view_fn();
        let ghost g = guard_view(*guard);
        let ghost lo = lower as nat;
        let reach = match upper {
            Some(end) => end,
            None => time,
        };
        let ceiling = if reach < time { reach } else { time };
        let mut distance: usize = 0;
        while distance <= ceiling
            invariant
                witness.wf(),
                guard_wf(*guard, witness.period as nat),
                w == witness.view_fn(),
                g == guard_view(*guard),
                lo == lower as nat,
                hi == (match upper {
                    Some(e) => Some(e as nat),
                    None => None::<nat>,
                }),
                ceiling <= time,
                upper matches Some(end) ==> ceiling == (if end < time { end } else { time }),
                upper is None ==> ceiling == time,
                time < usize::MAX,
                distance <= ceiling + 1,
                guarded_before(g, time as nat, distance as nat),
                forall|d: nat| d < distance ==> !#[trigger] behind_at(lo, hi, w, g, time as nat, d),
            decreases ceiling + 1 - distance,
        {
            if distance >= lower && witness.at(time - distance) {
                assert(behind_at(lo, hi, w, g, time as nat, distance as nat));
                return true;
            }
            assert(!behind_at(lo, hi, w, g, time as nat, distance as nat));
            match guard {
                Some(gs) => {
                    if !gs.at(time - distance) {
                        assert forall|d: nat| #![trigger behind_at(lo, hi, w, g, time as nat, d)] true implies !behind_at(lo, hi, w, g, time as nat, d) by {
                            if d > distance {
                                assert(!before(g, time as nat, distance as nat));
                            }
                        }
                        return false;
                    }
                },
                None => {},
            }
            assert(before(g, time as nat, distance as nat));
            distance += 1;
        }
        false
    }

    /// Whether the period ending at `start` repeats in the period after it.
    fn repeats(values: &Vec<bool>, start: usize, period: usize) -> (r: bool)
        requires
            period <= start,
            start + period <= values@.len(),
        ensures
            r == (forall|i: int| 0 <= i < period ==> #[trigger] values@[start + i] == values@[start - period + i]),
    {
        let prior = start - period;
        let n = values.len();
        let mut i: usize = 0;
        while i < period
            invariant
                n == values@.len(),
                period <= start,
                prior == start - period,
                start + period <= values@.len(),
                i <= period,
                forall|j: int| 0 <= j < i ==> #[trigger] values@[start + j] == values@[start - period + j],
            decreases period - i,
        {
            if values[prior + i] != values[start + i] {
                assert(values@[start + i as int] != values@[start - period + i as int]);
                return false;
            }
            i += 1;
        }
        true
    }

    /// The sequence of a past clause over `witness`, guarded by `guard` when
    /// present. Starting one period after the operands' start plus the
    /// interval's reach, it checks that one period repeats in the next and
    /// otherwise moves one period on; the second check always succeeds.
    fn past(&self, range: Interval, witness: Sequence, guard: Option<Sequence>) -> (r: Result<Sequence, OracleError>)
        requires
            self.wf(),
            witness.wf(),
            witness.period == self.spec_period(),
            guard_wf(guard, self.spec_period()),
        ensures
            follows(
                r,
                behind_plan(
                    range,
                    nmax(witness.start as nat, guard_start(guard)),
                    behind_fn(range.lower(), range.upper(), witness.view_fn(), guard_view(guard)),
                    self.spec_period(),
                    self.limits,
                ),
                self.spec_period(),
                behind_fn(range.lower(), range.upper(), witness.view_fn(), guard_view(guard)),
            ),
    {
        let (lower, upper) = self.check_range(range)?;
        let period = self.period();
        let guard_begin = match &guard {
            Some(g) => g.start,
            None => 0,
        };
        let child_start = if witness.start >= guard_begin { witness.start } else { guard_begin };
        let offset = match upper {
            Some(end) => end,
            None => lower,
        };
        let first = match child_start.checked_add(offset) {
            Some(v) => match v.checked_add(period) {
                Some(v) => v,
                None => return Err(OracleError::ResourceIncomplete),
            },
            None => return Err(OracleError::ResourceIncomplete),
        };
        let ghost f = behind_fn(range.lower(), range.upper(), witness.view_fn(), guard_view(guard));
        proof {
            witness.lemma_periodic();
            lemma_periodic_later(witness.view_fn(), witness.start as nat, child_start as nat, period as nat);
            let ghost gg = guard;
            match gg {
                Some(gs) => {
                    gs.lemma_periodic();
                    lemma_periodic_later(gs.view_fn(), gs.start as nat, child_start as nat, period as nat);
                },
                None => {},
            }
            lemma_behind_periodic(range.lower(), range.upper(), witness.view_fn(), guard_view(guard), child_start as nat, period as nat);
            assert(first == child_start + reach(range) + period);
        }
        let mut start = first;
        loop
            invariant
                self.wf(),
                witness.wf(),
                witness.period == self.spec_period(),
                guard_wf(guard, self.spec_period()),
                period == self.spec_period(),
                (lower, upper) == range.spec_bounds(),
                range_refusal(range, self.limits) is None,
                first == child_start + reach(range) + period,
                child_start == nmax(witness.start as nat, guard_start(guard)),
                start == first || start == first + period,
                start == first + period ==> first + period <= self.limits.max_positions && !window_eq(f, first as nat, period as nat),
                f == behind_fn(range.lower(), range.upper(), witness.view_fn(), guard_view(guard)),
                periodic_from(f, first as nat, period as nat),
            decreases first + period - start,
        {
            let len = match start.checked_add(period) {
                Some(v) => v,
                None => return Err(OracleError::ResourceIncomplete),
            };
            if len > self.limits.max_positions || start < period {
                return Err(OracleError::ResourceIncomplete);
            }
            let mut values: Vec<bool> = Vec::new();
            let mut time: usize = 0;
            while time < len
                invariant
                    witness.wf(),
                    guard_wf(guard, self.spec_period()),
                    witness.period == self.spec_period(),
                    (lower, upper) == range.spec_bounds(),
                    len <= self.limits.max_positions,
                    f == behind_fn(range.lower(), range.upper(), witness.view_fn(), guard_view(guard)),
                    values@.len() == time,
                    time <= len,
                    forall|j: int| 0 <= j < time ==> values@[j] == f(j as nat),
                decreases len - time,
            {
                let v = self.past_at(lower, upper, &witness, &guard, time);
                values.push(v);
                time += 1;
            }
            let same = Self::repeats(&values, start, period);
            proof {
                assert(same == window_eq(f, start as nat, period as nat)) by {
                    if same {
                        assert forall|i: nat| i < period implies #[trigger] f(start as nat + i) == f((start - period + i) as nat) by {
                            assert(values@[start + i as int] == values@[start - period + i as int]);
                        }
                    }
                    if window_eq(f, start as nat, period as nat) {
                        assert forall|i: int| 0 <= i < period implies #[trigger] values@[start + i] == values@[start - period + i] by {
                            assert(f(start as nat + i as nat) == f((start - period + i) as nat));
                        }
                    }
                }
                if start == first + period {
                    assert(window_eq(f, start as nat, period as nat)) by {
                        assert forall|i: nat| i < period implies #[trigger] f(start as nat + i) == f((start - period + i) as nat) by {
                            lemma_step(f, first as nat, period as nat, first as nat + i);
                        }
                    }
                }
            }
            if same {
                let sq = Sequence { values, start, period };
                proof {
                    lemma_periodic_later(f, first as nat, start as nat, period as nat);
                    lemma_materialized(&sq, f);
                }
                return Ok(sq);
            }
            start = match start.checked_add(period) {
                Some(v) => v,
                None => return Err(OracleError::ResourceIncomplete),
            };
            if start > first.saturating_add(period * 2) {
                return Err(OracleError::NoPeriodicFixedPoint);
            }
        }
    }

    /// The sequence of `formula` on this word, or the refusal met first.
    pub fn eval(&self, formula: &Formula) -> (r: Result<Sequence, OracleError>)
        requires
            self.wf(),
        ensures
            follows(
                r,
                plan(*formula, self.view_cells(), self.loop_entry as nat, self.limits),
                self.spec_period(),
                sem(*formula, self.view_cells(), self.loop_entry as nat),
            ),
        decreases formula,
    {
        let ghost cells = self.view_cells();
        let ghost entry = self.loop_entry as nat;
        match formula {
            Formula::False => {
                let r = self.constant(false);
                assert((|t: nat| false) =~= sem(*formula, cells, entry));
                r
            },
            Formula::True => {
                let r = self.constant(true);
                assert((|t: nat| true) =~= sem(*formula, cells, entry));
                r
            },
            Formula::Atom(id) => self.atom(*id),
            Formula::Not(p) => Ok(self.eval(p)?.negated()),
            Formula::And(p, q) => {
                let a = self.eval(p)?;
                let b = self.eval(q)?;
                let ghost (fa, fb) = (a.view_fn(), b.view_fn());
                let r = self.combine(a, b, Connective::And);
                assert((|t: nat| Connective::And.spec_apply(fa(t), fb(t))) =~= sem(*formula, cells, entry));
                r
            },
            Formula::Or(p, q) => {
                let a = self.eval(p)?;
                let b = self.eval(q)?;
                let ghost (fa, fb) = (a.view_fn(), b.view_fn());
                let r = self.combine(a, b, Connective::Or);
                assert((|t: nat| Connective::Or.spec_apply(fa(t), fb(t))) =~= sem(*formula, cells, entry));
                r
            },
            Formula::Implies(p, q) => {
                let a = self.eval(p)?;
                let b = self.eval(q)?;
                let ghost (fa, fb) = (a.view_fn(), b.view_fn());
                let r = self.combine(a, b, Connective::Implies);
                assert((|t: nat| Connective::Implies.spec_apply(fa(t), fb(t))) =~= sem(*formula, cells, entry));
                r
            },
            Formula::Equivalent(p, q) => {
                let a = self.eval(p)?;
                let b = self.eval(q)?;
                let ghost (fa, fb) = (a.view_fn(), b.view_fn());
                let r = self.combine(a, b, Connective::Equivalent);
                assert((|t: nat| Connective::Equivalent.spec_apply(fa(t), fb(t))) =~= sem(*formula, cells, entry));
                r
            },
            Formula::Future(range, p) => {
                let a = self.eval(p)?;
                assert(guard_view(None) == always());
                self.future(*range, a, None)
            },
            Formula::Globally(range, p) => {
                let a = self.eval(p)?.negated();
                Ok(self.future(*range, a, None)?.negated())
            },
            Formula::Until(range, p, q) => {
                let b = self.eval(q)?;
                let a = self.eval(p)?;
                self.future(*range, b, Some(a))
            },
            Formula::Release(range, p, q) => {
                let b = self.eval(q)?.negated();
                let a = self.eval(p)?.negated();
                Ok(self.future(*range, b, Some(a))?.negated())
            },
            Formula::Once(range, p) => {
                let a = self.eval(p)?;
                self.past(*range, a, None)
            },
            Formula::Historically(range, p) => {
                let a = self.eval(p)?.negated();
                Ok(self.past(*range, a, None)?.negated())
            },
            Formula::Since(range, p, q) => {
                let b = self.eval(q)?;
                let a = self.eval(p)?;
                self.past(*range, b, Some(a))
            },
            Formula::Triggered(range, p, q) => {
                let b = self.eval(q)?.negated();
                let a = self.eval(p)?.negated();
                Ok(self.past(*range, b, Some(a))?.negated())
            },
            Formula::StrongPrevious(p) => {
                let a = self.eval(p)?;
                let r = self.past(Interval::Closed { start: 1, end: 1 }, a, None);
                assert(Interval::Closed { start: 1, end: 1 }.lower() == 1);
                assert(Interval::Closed { start: 1, end: 1 }.upper() == Some(1nat));
                r
            },
        }
    }
}

} // verus!
