//! The temporal clauses read on a complete finite word.
//!
//! Atomic observations beyond the closed word are false; Boolean constants keep
//! their usual values. Past windows stop at the origin and U/R/S/T guards begin
//! at offset zero. Open-upper intervals are refused.

use vstd::prelude::*;
use std::collections::{BTreeMap, BTreeSet};
use crate::atoms::{atoms_of, depth_of, larger};
use crate::semantics::{
    denote, finite_val, ahead, ahead_at, behind, behind_at, after, before, guarded_after,
    guarded_before, always, negate,
};
use crate::{Formula, Interval, Limits, OracleError};
use crate::sequence::cells_view;
use crate::lasso::sorted_vec;

verus! {

/// The refusal of an interval on a closed finite word, if any.
pub open spec fn finite_bounds(r: Interval, limits: Limits) -> Option<OracleError> {
    match r {
        Interval::Unbounded { .. } => Some(OracleError::UnboundedFiniteInterval),
        Interval::Closed { start, end } => if start > end {
            Some(OracleError::InvertedInterval)
        } else if end > limits.max_offset {
            Some(OracleError::ResourceIncomplete)
        } else {
            None
        },
    }
}

/// The first refused interval of `f`, each operator's interval before its operands, left operand first.
pub open spec fn preflight(f: Formula, limits: Limits) -> Option<OracleError>
    decreases f,
{
    match f {
        Formula::False | Formula::True | Formula::Atom(_) => None,
        Formula::Not(p) | Formula::StrongPrevious(p) => preflight(*p, limits),
        Formula::And(p, q) | Formula::Or(p, q) | Formula::Implies(p, q) | Formula::Equivalent(p, q) => {
            match preflight(*p, limits) {
                Some(e) => Some(e),
                None => preflight(*q, limits),
            }
        },
        Formula::Future(r, p) | Formula::Globally(r, p) | Formula::Once(r, p) | Formula::Historically(r, p) => {
            match finite_bounds(r, limits) {
                Some(e) => Some(e),
                None => preflight(*p, limits),
            }
        },
        Formula::Until(r, p, q) | Formula::Release(r, p, q) | Formula::Since(r, p, q) | Formula::Triggered(r, p, q) => {
            match finite_bounds(r, limits) {
                Some(e) => Some(e),
                None => match preflight(*p, limits) {
                    Some(e) => Some(e),
                    None => preflight(*q, limits),
                },
            }
        },
    }
}

/// The last offset of a closed interval.
pub open spec fn finite_end(r: Interval) -> nat {
    match r {
        Interval::Closed { end, .. } => end as nat,
        Interval::Unbounded { .. } => 0,
    }
}

/// Whether evaluating `f` at `time` meets a resource refusal before it settles:
/// an instant beyond the largest machine word, or a previous step when the
/// limits admit no offset. Operands are evaluated left to right, and a scan
/// stops at its first settling offset.
pub open spec fn finite_stops(f: Formula, cells: Seq<Map<u32, bool>>, time: nat, limits: Limits) -> bool
    decreases depth_of(f), 1nat, 0nat,
{
    match f {
        Formula::False | Formula::True | Formula::Atom(_) => false,
        Formula::Not(p) => finite_stops(*p, cells, time, limits),
        Formula::And(p, q) | Formula::Or(p, q) | Formula::Implies(p, q) | Formula::Equivalent(p, q) =>
            finite_stops(*p, cells, time, limits) || finite_stops(*q, cells, time, limits),
        Formula::Future(r, p) => ahead_stops(r.lower(), finite_end(r), *p, false, None, false, cells, time, limits, 0),
        Formula::Globally(r, p) => ahead_stops(r.lower(), finite_end(r), *p, true, None, false, cells, time, limits, 0),
        Formula::Until(r, p, q) => ahead_stops(r.lower(), finite_end(r), *q, false, Some(*p), false, cells, time, limits, 0),
        Formula::Release(r, p, q) => ahead_stops(r.lower(), finite_end(r), *q, true, Some(*p), true, cells, time, limits, 0),
        Formula::Once(r, p) => finite_bounds(r, limits) is Some
            || behind_stops(r.lower(), finite_end(r), *p, false, None, false, cells, time, limits, 0),
        Formula::Historically(r, p) => finite_bounds(r, limits) is Some
            || behind_stops(r.lower(), finite_end(r), *p, true, None, false, cells, time, limits, 0),
        Formula::Since(r, p, q) => finite_bounds(r, limits) is Some
            || behind_stops(r.lower(), finite_end(r), *q, false, Some(*p), false, cells, time, limits, 0),
        Formula::Triggered(r, p, q) => finite_bounds(r, limits) is Some
            || behind_stops(r.lower(), finite_end(r), *q, true, Some(*p), true, cells, time, limits, 0),
        Formula::StrongPrevious(p) => finite_bounds(Interval::Closed { start: 1, end: 1 }, limits) is Some
            || behind_stops(1, 1, *p, false, None, false, cells, time, limits, 0),
    }
}

/// Whether the future scan from offset `o` through `hi` meets a refusal: the
/// witness (negated when `wneg`) is read from offset `lo` on and settles the
/// scan true, the guard (negated when `gneg`) settles it false when it fails.
pub open spec fn ahead_stops(
    lo: nat,
    hi: nat,
    w: Formula,
    wneg: bool,
    g: Option<Formula>,
    gneg: bool,
    cells: Seq<Map<u32, bool>>,
    time: nat,
    limits: Limits,
    o: nat,
) -> bool
    decreases larger(depth_of(w), opt_depth(g)) + 1, 0nat, hi - o,
{
    if o > hi {
        false
    } else if time + o > usize::MAX {
        true
    } else if o >= lo && finite_stops(w, cells, time + o, limits) {
        true
    } else if o >= lo && finite_value(w, cells, time + o) != wneg {
        false
    } else {
        match g {
            Some(gf) => if finite_stops(gf, cells, time + o, limits) {
                true
            } else if finite_value(gf, cells, time + o) == gneg {
                false
            } else if o == hi {
                false
            } else {
                ahead_stops(lo, hi, w, wneg, g, gneg, cells, time, limits, o + 1)
            },
            None => if o == hi {
                false
            } else {
                ahead_stops(lo, hi, w, wneg, g, gneg, cells, time, limits, o + 1)
            },
        }
    }
}

/// Whether the past scan from offset `o` through the smaller of `hi` and
/// `time` meets a refusal, read as the future scan is.
pub open spec fn behind_stops(
    lo: nat,
    hi: nat,
    w: Formula,
    wneg: bool,
    g: Option<Formula>,
    gneg: bool,
    cells: Seq<Map<u32, bool>>,
    time: nat,
    limits: Limits,
    o: nat,
) -> bool
    decreases larger(depth_of(w), opt_depth(g)) + 1, 0nat, (if hi < time { hi } else { time }) - o,
{
    let ceiling = if hi < time { hi } else { time };
    if o > ceiling {
        false
    } else if o >= lo && finite_stops(w, cells, (time - o) as nat, limits) {
        true
    } else if o >= lo && finite_value(w, cells, (time - o) as nat) != wneg {
        false
    } else {
        match g {
            Some(gf) => if finite_stops(gf, cells, (time - o) as nat, limits) {
                true
            } else if finite_value(gf, cells, (time - o) as nat) == gneg {
                false
            } else if o == ceiling {
                false
            } else {
                behind_stops(lo, hi, w, wneg, g, gneg, cells, time, limits, o + 1)
            },
            None => if o == ceiling {
                false
            } else {
                behind_stops(lo, hi, w, wneg, g, gneg, cells, time, limits, o + 1)
            },
        }
    }
}

/// The value of `f` at `time` on the finite word `cells`.
pub open spec fn finite_value(f: Formula, cells: Seq<Map<u32, bool>>, time: nat) -> bool {
    denote(f, finite_val(cells))(time)
}

/// The admission checks of a finite evaluation, in order: the position, the
/// budget, every referenced proposition in every cell, then the intervals.
pub open spec fn finite_refusal(f: Formula, cells: Seq<Map<u32, bool>>, position: nat, limits: Limits) -> Option<OracleError> {
    if position >= cells.len() {
        Some(OracleError::FinitePositionAbsent)
    } else if depth_of(f) > limits.max_depth || cells.len() > limits.max_positions {
        Some(OracleError::ResourceIncomplete)
    } else if exists|i: int, a: u32| 0 <= i < cells.len() && atoms_of(f).contains(a) && !#[trigger] cells[i].contains_key(a) {
        Some(OracleError::FinitePropositionMissing)
    } else {
        preflight(f, limits)
    }
}


/// A value, or its negation when `neg` holds.
pub open spec fn signed(f: spec_fn(nat) -> bool, neg: bool) -> spec_fn(nat) -> bool {
    if neg {
        negate(f)
    } else {
        f
    }
}

/// The values of an optional guard on a finite word; a missing guard always holds.
pub open spec fn finite_guard(g: Option<Formula>, neg: bool, cells: Seq<Map<u32, bool>>) -> spec_fn(nat) -> bool {
    match g {
        Some(f) => signed(denote(f, finite_val(cells)), neg),
        None => always(),
    }
}

/// The formula an optional reference points to.
pub open spec fn owned(g: Option<&Formula>) -> Option<Formula> {
    match g {
        Some(f) => Some(*f),
        None => None,
    }
}

/// Depth of an optional formula; zero when absent.
pub open spec fn opt_depth(g: Option<Formula>) -> nat {
    match g {
        Some(f) => depth_of(f),
        None => 0,
    }
}

/// An optional formula has no refused interval.
pub open spec fn opt_preflight_ok(g: Option<Formula>, limits: Limits) -> bool {
    match g {
        Some(f) => preflight(f, limits) is None,
        None => true,
    }
}

/// Bounds of an interval admitted on a finite word.
pub(crate) fn finite_interval(range: Interval, limits: Limits) -> (r: Result<(usize, usize), OracleError>)
    ensures
        match finite_bounds(range, limits) {
            Some(e) => r == Err::<(usize, usize), OracleError>(e),
            None => r matches Ok((lo, hi)) && range == (Interval::Closed { start: lo, end: hi }),
        },
{
    match range {
        Interval::Unbounded { .. } => Err(OracleError::UnboundedFiniteInterval),
        Interval::Closed { start, end } => {
            if start > end {
                Err(OracleError::InvertedInterval)
            } else if end > limits.max_offset {
                Err(OracleError::ResourceIncomplete)
            } else {
                Ok((start, end))
            }
        },
    }
}

/// Checks every interval of `formula`.
fn check(formula: &Formula, limits: Limits) -> (r: Result<(), OracleError>)
    ensures
        match preflight(*formula, limits) {
            Some(e) => r == Err::<(), OracleError>(e),
            None => r == Ok::<(), OracleError>(()),
        },
    decreases formula,
{
    match formula {
        Formula::False | Formula::True | Formula::Atom(_) => Ok(()),
        Formula::Not(p) | Formula::StrongPrevious(p) => check(p, limits),
        Formula::And(p, q) | Formula::Or(p, q) | Formula::Implies(p, q) | Formula::Equivalent(p, q) => {
            check(p, limits)?;
            check(q, limits)
        },
        Formula::Future(range, p) | Formula::Globally(range, p) | Formula::Once(range, p)
        | Formula::Historically(range, p) => {
            finite_interval(*range, limits)?;
            check(p, limits)
        },
        Formula::Until(range, p, q) | Formula::Release(range, p, q) | Formula::Since(range, p, q)
        | Formula::Triggered(range, p, q) => {
            finite_interval(*range, limits)?;
            check(p, limits)?;
            check(q, limits)
        },
    }
}

/// The future clause at `time` over the closed interval `range`.
fn scan_future(
    range: Interval,
    witness: &Formula,
    neg_witness: bool,
    guard: Option<&Formula>,
    neg_guard: bool,
    cells: &[BTreeMap<u32, bool>],
    time: usize,
    limits: Limits,
) -> (r: Result<bool, OracleError>)
    requires
        finite_bounds(range, limits) is None,
        preflight(*witness, limits) is None,
        opt_preflight_ok(owned(guard), limits),
    ensures
        r == if ahead_stops(range.lower(), finite_end(range), *witness, neg_witness, owned(guard), neg_guard, cells_view(cells@), time as nat, limits, 0) {
            Err::<bool, OracleError>(OracleError::ResourceIncomplete)
        } else {
            Ok::<bool, OracleError>(ahead(
                range.lower(),
                range.upper(),
                signed(denote(*witness, finite_val(cells_view(cells@))), neg_witness),
                finite_guard(owned(guard), neg_guard, cells_view(cells@)),
                time as nat,
            ))
        },
    decreases larger(depth_of(*witness), opt_depth(owned(guard))) + 1, 0nat,
{
    let ghost cv = cells_view(cells@);
    let ghost w = signed(denote(*witness, finite_val(cv)), neg_witness);
    let ghost g = finite_guard(owned(guard), neg_guard, cv);
    let ghost lo = range.lower();
    let ghost hi = range.upper();
    let (lower, upper) = finite_interval(range, limits)?;
    let mut offset: usize = 0;
    loop
        invariant
            range == (Interval::Closed { start: lower, end: upper }),
            lo == lower as nat,
            hi == Some(upper as nat),
            preflight(*witness, limits) is None,
            opt_preflight_ok(owned(guard), limits),
            cv == cells_view(cells@),
            w == signed(denote(*witness, finite_val(cv)), neg_witness),
            g == finite_guard(owned(guard), neg_guard, cv),
            offset <= upper,
            upper <= limits.max_offset,
            guarded_after(g, time as nat, offset as nat),
            forall|d: nat| d < offset ==> !#[trigger] ahead_at(lo, hi, w, g, time as nat, d),
            ahead_stops(lo, upper as nat, *witness, neg_witness, owned(guard), neg_guard, cv, time as nat, limits, 0)
                == ahead_stops(lo, upper as nat, *witness, neg_witness, owned(guard), neg_guard, cv, time as nat, limits, offset as nat),
        decreases upper - offset,
    {
        let instant = match time.checked_add(offset) {
            Some(v) => v,
            None => return Err(OracleError::ResourceIncomplete),
        };
        if offset >= lower {
            let v = at(witness, cells, instant, limits)?;
            let v = if neg_witness { !v } else { v };
            if v {
                assert(ahead_at(lo, hi, w, g, time as nat, offset as nat));
                return Ok(true);
            }
        }
        assert(!ahead_at(lo, hi, w, g, time as nat, offset as nat));
        match guard {
            Some(gf) => {
                let v = at(gf, cells, instant, limits)?;
                let v = if neg_guard { !v } else { v };
                if !v {
                    assert forall|d: nat| #![trigger ahead_at(lo, hi, w, g, time as nat, d)] true implies !ahead_at(lo, hi, w, g, time as nat, d) by {
                        if d > offset {
                            assert(!after(g, time as nat, offset as nat));
                        }
                    }
                    return Ok(false);
                }
            },
            None => {},
        }
        assert(after(g, time as nat, offset as nat));
        if offset == upper {
            return Ok(false);
        }
        offset += 1;
    }
}

/// The past clause at `time` over the closed interval `range`, stopping at the origin.
fn scan_past(
    range: Interval,
    witness: &Formula,
    neg_witness: bool,
    guard: Option<&Formula>,
    neg_guard: bool,
    cells: &[BTreeMap<u32, bool>],
    time: usize,
    limits: Limits,
) -> (r: Result<bool, OracleError>)
    requires
        range matches Interval::Closed { start, end } && start <= end,
        preflight(*witness, limits) is None,
        opt_preflight_ok(owned(guard), limits),
    ensures
        r == if finite_bounds(range, limits) is Some || behind_stops(range.lower(), finite_end(range), *witness, neg_witness, owned(guard), neg_guard, cells_view(cells@), time as nat, limits, 0) {
            Err::<bool, OracleError>(OracleError::ResourceIncomplete)
        } else {
            Ok::<bool, OracleError>(behind(
                range.lower(),
                range.upper(),
                signed(denote(*witness, finite_val(cells_view(cells@))), neg_witness),
                finite_guard(owned(guard), neg_guard, cells_view(cells@)),
                time as nat,
            ))
        },
    decreases larger(depth_of(*witness), opt_depth(owned(guard))) + 1, 0nat,
{
    let ghost cv = cells_view(cells@);
    let ghost w = signed(denote(*witness, finite_val(cv)), neg_witness);
    let ghost g = finite_guard(owned(guard), neg_guard, cv);
    let ghost lo = range.lower();
    let ghost hi = range.upper();
    let (lower, upper) = finite_interval(range, limits)?;
    let ceiling = if upper < time { upper } else { time };
    let mut offset: usize = 0;
    loop
        invariant
            range == (Interval::Closed { start: lower, end: upper }),
            lo == lower as nat,
            hi == Some(upper as nat),
            ceiling == (if upper < time { upper } else { time }),
            preflight(*witness, limits) is None,
            opt_preflight_ok(owned(guard), limits),
            cv == cells_view(cells@),
            w == signed(denote(*witness, finite_val(cv)), neg_witness),
            g == finite_guard(owned(guard), neg_guard, cv),
            offset <= ceiling,
            guarded_before(g, time as nat, offset as nat),
            forall|d: nat| d < offset ==> !#[trigger] behind_at(lo, hi, w, g, time as nat, d),
            finite_bounds(range, limits) is None,
            behind_stops(lo, upper as nat, *witness, neg_witness, owned(guard), neg_guard, cv, time as nat, limits, 0)
                == behind_stops(lo, upper as nat, *witness, neg_witness, owned(guard), neg_guard, cv, time as nat, limits, offset as nat),
        decreases ceiling - offset,
    {
        let instant = time - offset;
        if offset >= lower {
            let v = at(witness, cells, instant, limits)?;
            let v = if neg_witness { !v } else { v };
            if v {
                assert(behind_at(lo, hi, w, g, time as nat, offset as nat));
                return Ok(true);
            }
        }
        assert(!behind_at(lo, hi, w, g, time as nat, offset as nat));
        match guard {
            Some(gf) => {
                let v = at(gf, cells, instant, limits)?;
                let v = if neg_guard { !v } else { v };
                if !v {
                    assert forall|d: nat| #![trigger behind_at(lo, hi, w, g, time as nat, d)] true implies !behind_at(lo, hi, w, g, time as nat, d) by {
                        if d > offset {
                            assert(!before(g, time as nat, offset as nat));
                        }
                    }
                    return Ok(false);
                }
            },
            None => {},
        }
        assert(before(g, time as nat, offset as nat));
        if offset == ceiling {
            return Ok(false);
        }
        offset += 1;
    }
}

/// The value of `formula` at `time` on the finite word `cells`.
fn at(formula: &Formula, cells: &[BTreeMap<u32, bool>], time: usize, limits: Limits) -> (r: Result<bool, OracleError>)
    requires
        preflight(*formula, limits) is None,
    ensures
        r == if finite_stops(*formula, cells_view(cells@), time as nat, limits) {
            Err::<bool, OracleError>(OracleError::ResourceIncomplete)
        } else {
            Ok::<bool, OracleError>(finite_value(*formula, cells_view(cells@), time as nat))
        },
    decreases depth_of(*formula), 1nat,
{
    let ghost cv = cells_view(cells@);
    let ghost f = *formula;
    match formula {
        Formula::False => Ok(false),
        Formula::True => Ok(true),
        Formula::Atom(id) => {
            if time < cells.len() {
                match cells[time].get(id) {
                    Some(v) => Ok(*v),
                    None => Ok(false),
                }
            } else {
                Ok(false)
            }
        },
        Formula::Not(p) => Ok(!at(p, cells, time, limits)?),
        Formula::And(p, q) => {
            let left = at(p, cells, time, limits)?;
            let right = at(q, cells, time, limits)?;
            Ok(left && right)
        },
        Formula::Or(p, q) => {
            let left = at(p, cells, time, limits)?;
            let right = at(q, cells, time, limits)?;
            Ok(left || right)
        },
        Formula::Implies(p, q) => {
            let left = at(p, cells, time, limits)?;
            let right = at(q, cells, time, limits)?;
            Ok(!left || right)
        },
        Formula::Equivalent(p, q) => {
            let left = at(p, cells, time, limits)?;
            let right = at(q, cells, time, limits)?;
            Ok(left == right)
        },
        Formula::Future(range, p) => scan_future(*range, p, false, None, false, cells, time, limits),
        Formula::Globally(range, p) => Ok(!scan_future(*range, p, true, None, false, cells, time, limits)?),
        Formula::Until(range, p, q) => scan_future(*range, q, false, Some(&**p), false, cells, time, limits),
        Formula::Release(range, p, q) => Ok(!scan_future(*range, q, true, Some(&**p), true, cells, time, limits)?),
        Formula::Once(range, p) => scan_past(*range, p, false, None, false, cells, time, limits),
        Formula::Historically(range, p) => Ok(!scan_past(*range, p, true, None, false, cells, time, limits)?),
        Formula::Since(range, p, q) => scan_past(*range, q, false, Some(&**p), false, cells, time, limits),
        Formula::Triggered(range, p, q) => Ok(!scan_past(*range, q, true, Some(&**p), true, cells, time, limits)?),
        Formula::StrongPrevious(p) => scan_past(Interval::Closed { start: 1, end: 1 }, p, false, None, false, cells, time, limits),
    }
}


/// Evaluates a complete finite word with the temporal clauses of the lasso semantics.
///
/// Atomic observations beyond the closed word are false; Boolean constants
/// keep their usual values. Every referenced atom in a materialized cell must
/// be present. Past windows stop at the origin and U/R/S/T guards begin at
/// offset zero. Open-upper intervals are refused. Use
/// [`crate::profile::evaluate_closed_trace_v1`] or
/// [`crate::profile::evaluate_origin_complete`] when comparing against those
/// owner profiles.
pub fn evaluate_finite(
    formula: &Formula,
    cells: &[BTreeMap<u32, bool>],
    position: usize,
    limits: Limits,
) -> (r: Result<bool, OracleError>)
    requires
        depth_of(*formula) < usize::MAX,
    ensures
        match finite_refusal(*formula, cells_view(cells@), position as nat, limits) {
            Some(e) => r == Err::<bool, OracleError>(e),
            None => r == if finite_stops(*formula, cells_view(cells@), position as nat, limits) {
                Err::<bool, OracleError>(OracleError::ResourceIncomplete)
            } else {
                Ok::<bool, OracleError>(finite_value(*formula, cells_view(cells@), position as nat))
            },
        },
{
    let ghost cv = cells_view(cells@);
    if position >= cells.len() {
        return Err(OracleError::FinitePositionAbsent);
    }
    let mut atoms: BTreeSet<u32> = BTreeSet::new();
    if formula.collect_atoms(&mut atoms, 1) > limits.max_depth || cells.len() > limits.max_positions {
        return Err(OracleError::ResourceIncomplete);
    }
    let order = sorted_vec(&atoms);
    let n = cells.len();
    let m = order.len();
    let mut i: usize = 0;
    while i < n
        invariant
            n == cells@.len(),
            cv == cells_view(cells@),
            m == order@.len(),
            order@.to_set() == atoms_of(*formula),
            i <= n,
            position < n,
            depth_of(*formula) <= limits.max_depth,
            n <= limits.max_positions,
            forall|j: int, a: u32| 0 <= j < i && atoms_of(*formula).contains(a) ==> #[trigger] cv[j].contains_key(a),
        decreases n - i,
    {
        let mut k: usize = 0;
        while k < m
            invariant
                n == cells@.len(),
                cv == cells_view(cells@),
                m == order@.len(),
                0 <= i < n,
                k <= m,
                order@.to_set() == atoms_of(*formula),
                position < n,
                depth_of(*formula) <= limits.max_depth,
                n <= limits.max_positions,
                forall|k2: int| 0 <= k2 < k ==> cv[i as int].contains_key(#[trigger] order@[k2]),
            decreases m - k,
        {
            if !cells[i].contains_key(&order[k]) {
                proof {
                    assert(order@.to_set().contains(order@[k as int]));
                    assert(!cv[i as int].contains_key(order@[k as int]));
                    assert(exists|j: int, a: u32| 0 <= j < cv.len() && atoms_of(*formula).contains(a) && !#[trigger] cv[j].contains_key(a));
                }
                return Err(OracleError::FinitePropositionMissing);
            }
            k += 1;
        }
        proof {
            assert forall|j: int, a: u32| 0 <= j < i + 1 && atoms_of(*formula).contains(a) implies #[trigger] cv[j].contains_key(a) by {
                if j == i {
                    assert(order@.to_set().contains(a));
                    let k2 = choose|k2: int| 0 <= k2 < order@.len() && order@[k2] == a;
                    assert(cv[i as int].contains_key(order@[k2]));
                }
            }
        }
        i += 1;
    }
    check(formula, limits)?;
    at(formula, cells, position, limits)
}

} // verus!
