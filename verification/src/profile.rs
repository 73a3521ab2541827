//! Small-scope reference interpretations for the two bounded owner profiles.
//!
//! Time runs over the integers: positions before the origin and after the last
//! cell exist, and an atom there is false. A witness at offset `d` of a closed
//! interval `[lo, hi]` needs the guard at every offset in `[lo, d)`. Each
//! visited subformula costs one unit of a budget of `max_positions`.

use vstd::prelude::*;
use std::collections::BTreeMap;
use crate::atoms::{depth_of, larger, atoms_of};
use crate::semantics::{always, denote, finite_val, lookup, negate};
use crate::sequence::cells_view;
use crate::finite::{finite_bounds, finite_interval, finite_refusal, finite_stops, finite_value, preflight};
use crate::{Formula, Interval, Limits, OracleError};

verus! {

/// Which bounded profile is evaluated.
#[derive(Clone, Copy)]
pub enum Domain {
    /// `mltl.closed-trace/v1`: future operators only.
    ClosedFuture,
    /// `mltl.origin-complete-history/v1`: past operators only.
    OriginPast,
}

/// Atom values at integer times; an atom outside the word or absent from its cell is false.
pub open spec fn pval(cells: Seq<Map<u32, bool>>) -> spec_fn(u32, int) -> bool {
    |a: u32, t: int| 0 <= t < cells.len() && lookup(cells[t], a)
}

/// The time `d` steps after `t`, or before it for a past operator.
pub open spec fn shift(t: int, d: nat, past: bool) -> int {
    if past {
        t - d
    } else {
        t + d
    }
}

/// The guard holds at every offset in `[lo, d)`.
pub open spec fn guards_hold(g: spec_fn(int) -> bool, t: int, lo: nat, d: nat, past: bool) -> bool {
    forall|e: nat| lo <= e < d ==> #[trigger] g(shift(t, e, past))
}

/// Offset `d` witnesses the clause at `t`.
pub open spec fn window_at(lo: nat, d: nat, g: spec_fn(int) -> bool, w: spec_fn(int) -> bool, t: int, past: bool) -> bool {
    w(shift(t, d, past)) && guards_hold(g, t, lo, d, past)
}

/// Some offset in `[lo, hi]` has the witness, with the guard from `lo` up to it.
pub open spec fn window(lo: nat, hi: nat, g: spec_fn(int) -> bool, w: spec_fn(int) -> bool, t: int, past: bool) -> bool {
    exists|d: nat| lo <= d <= hi && #[trigger] window_at(lo, d, g, w, t, past)
}

/// The value that holds at every time.
pub open spec fn ptrue() -> spec_fn(int) -> bool {
    |t: int| true
}

/// Pointwise negation.
pub open spec fn pnot(f: spec_fn(int) -> bool) -> spec_fn(int) -> bool {
    |t: int| !f(t)
}

/// The upper end of an interval; the lower one for an unbounded interval, which both profiles refuse.
pub open spec fn closed_end(r: Interval) -> nat {
    match r {
        Interval::Closed { end, .. } => end as nat,
        Interval::Unbounded { start } => start as nat,
    }
}

/// The truth of `f` at every integer time of the finite word `cells`, under the bounded profiles' clauses.
pub open spec fn pdenote(f: Formula, cells: Seq<Map<u32, bool>>) -> spec_fn(int) -> bool
    decreases f,
{
    match f {
        Formula::False => |t: int| false,
        Formula::True => |t: int| true,
        Formula::Atom(a) => |t: int| pval(cells)(a, t),
        Formula::Not(p) => pnot(pdenote(*p, cells)),
        Formula::And(p, q) => {
            let sp = pdenote(*p, cells);
            let sq = pdenote(*q, cells);
            |t: int| sp(t) && sq(t)
        },
        Formula::Or(p, q) => {
            let sp = pdenote(*p, cells);
            let sq = pdenote(*q, cells);
            |t: int| sp(t) || sq(t)
        },
        Formula::Implies(p, q) => {
            let sp = pdenote(*p, cells);
            let sq = pdenote(*q, cells);
            |t: int| !sp(t) || sq(t)
        },
        Formula::Equivalent(p, q) => {
            let sp = pdenote(*p, cells);
            let sq = pdenote(*q, cells);
            |t: int| sp(t) == sq(t)
        },
        Formula::Future(r, p) => {
            let sp = pdenote(*p, cells);
            |t: int| window(r.lower(), closed_end(r), ptrue(), sp, t, false)
        },
        Formula::Once(r, p) => {
            let sp = pdenote(*p, cells);
            |t: int| window(r.lower(), closed_end(r), ptrue(), sp, t, true)
        },
        Formula::Globally(r, p) => {
            let sp = pdenote(*p, cells);
            |t: int| !window(r.lower(), closed_end(r), ptrue(), pnot(sp), t, false)
        },
        Formula::Historically(r, p) => {
            let sp = pdenote(*p, cells);
            |t: int| !window(r.lower(), closed_end(r), ptrue(), pnot(sp), t, true)
        },
        Formula::Until(r, p, q) => {
            let sp = pdenote(*p, cells);
            let sq = pdenote(*q, cells);
            |t: int| window(r.lower(), closed_end(r), sp, sq, t, false)
        },
        Formula::Since(r, p, q) => {
            let sp = pdenote(*p, cells);
            let sq = pdenote(*q, cells);
            |t: int| window(r.lower(), closed_end(r), sp, sq, t, true)
        },
        Formula::Release(r, p, q) => {
            let sp = pdenote(*p, cells);
            let sq = pdenote(*q, cells);
            |t: int| !window(r.lower(), closed_end(r), pnot(sp), pnot(sq), t, false)
        },
        Formula::Triggered(r, p, q) => {
            let sp = pdenote(*p, cells);
            let sq = pdenote(*q, cells);
            |t: int| !window(r.lower(), closed_end(r), pnot(sp), pnot(sq), t, true)
        },
        Formula::StrongPrevious(p) => {
            let sp = pdenote(*p, cells);
            |t: int| sp(t - 1)
        },
    }
}

/// The value of `f`, or of its negation, at `t`.
pub open spec fn sval(f: Formula, neg: bool, cells: Seq<Map<u32, bool>>, t: int) -> bool {
    if neg {
        !pdenote(f, cells)(t)
    } else {
        pdenote(f, cells)(t)
    }
}

/// The optional guard's values; a missing guard always holds.
pub open spec fn guard_fn(g: Option<(Formula, bool)>, cells: Seq<Map<u32, bool>>) -> spec_fn(int) -> bool {
    match g {
        Some((f, neg)) => if neg {
            pnot(pdenote(f, cells))
        } else {
            pdenote(f, cells)
        },
        None => ptrue(),
    }
}

/// Depth of the optional guard's formula.
pub open spec fn guard_depth(g: Option<(Formula, bool)>) -> nat {
    match g {
        Some((f, _)) => depth_of(f),
        None => 0,
    }
}

/// Budget units spent evaluating `f` at `t`: one for `f` itself and the units
/// of every operand evaluation, operands visited in order and skipped when
/// the result is already known.
pub open spec fn cost(f: Formula, cells: Seq<Map<u32, bool>>, t: int) -> nat
    decreases depth_of(f), 2nat, 0nat,
{
    1 + match f {
        Formula::False | Formula::True | Formula::Atom(_) => 0nat,
        Formula::Not(p) => cost(*p, cells, t),
        Formula::And(p, q) => cost(*p, cells, t) + if pdenote(*p, cells)(t) {
            cost(*q, cells, t)
        } else {
            0nat
        },
        Formula::Or(p, q) => cost(*p, cells, t) + if !pdenote(*p, cells)(t) {
            cost(*q, cells, t)
        } else {
            0nat
        },
        Formula::Implies(p, q) => cost(*p, cells, t) + if pdenote(*p, cells)(t) {
            cost(*q, cells, t)
        } else {
            0nat
        },
        Formula::Equivalent(p, q) => cost(*p, cells, t) + cost(*q, cells, t),
        Formula::Future(r, p) => scan_cost(r.lower(), closed_end(r), None, *p, false, cells, t, false, r.lower()),
        Formula::Once(r, p) => scan_cost(r.lower(), closed_end(r), None, *p, false, cells, t, true, r.lower()),
        Formula::Globally(r, p) => scan_cost(r.lower(), closed_end(r), None, *p, true, cells, t, false, r.lower()),
        Formula::Historically(r, p) => scan_cost(r.lower(), closed_end(r), None, *p, true, cells, t, true, r.lower()),
        Formula::Until(r, p, q) => scan_cost(r.lower(), closed_end(r), Some((*p, false)), *q, false, cells, t, false, r.lower()),
        Formula::Since(r, p, q) => scan_cost(r.lower(), closed_end(r), Some((*p, false)), *q, false, cells, t, true, r.lower()),
        Formula::Release(r, p, q) => scan_cost(r.lower(), closed_end(r), Some((*p, true)), *q, true, cells, t, false, r.lower()),
        Formula::Triggered(r, p, q) => scan_cost(r.lower(), closed_end(r), Some((*p, true)), *q, true, cells, t, true, r.lower()),
        Formula::StrongPrevious(p) => cost(*p, cells, t - 1),
    }
}

/// Units spent evaluating `f`, or its negation, which costs one unit more.
pub open spec fn scost(f: Formula, neg: bool, cells: Seq<Map<u32, bool>>, t: int) -> nat
    decreases depth_of(f), 3nat, 0nat,
{
    if neg {
        1 + cost(f, cells, t)
    } else {
        cost(f, cells, t)
    }
}

/// Units spent on the guard at offsets `e..d`, stopping at the first that fails.
pub open spec fn guard_cost(
    g: Formula,
    gneg: bool,
    cells: Seq<Map<u32, bool>>,
    t: int,
    d: nat,
    past: bool,
    e: nat,
) -> nat
    decreases 1 + depth_of(g), 0nat, d - e,
{
    if e >= d {
        0
    } else {
        scost(g, gneg, cells, shift(t, e, past)) + if sval(g, gneg, cells, shift(t, e, past)) {
            guard_cost(g, gneg, cells, t, d, past, e + 1)
        } else {
            0nat
        }
    }
}

/// Units spent scanning witness offsets `w..=hi`, stopping at the first witness whose guard holds.
pub open spec fn scan_cost(
    lo: nat,
    hi: nat,
    g: Option<(Formula, bool)>,
    r: Formula,
    rneg: bool,
    cells: Seq<Map<u32, bool>>,
    t: int,
    past: bool,
    w: nat,
) -> nat
    decreases 1 + larger(depth_of(r), guard_depth(g)), 1nat, hi + 1 - w,
{
    if w > hi {
        0
    } else {
        let c = scost(r, rneg, cells, shift(t, w, past));
        if !sval(r, rneg, cells, shift(t, w, past)) {
            c + scan_cost(lo, hi, g, r, rneg, cells, t, past, w + 1)
        } else {
            match g {
                None => c,
                Some((gf, gneg)) => c + guard_cost(gf, gneg, cells, t, w, past, lo) + if guards_hold(
                    guard_fn(g, cells),
                    t,
                    lo,
                    w,
                    past,
                ) {
                    0nat
                } else {
                    scan_cost(lo, hi, g, r, rneg, cells, t, past, w + 1)
                },
            }
        }
    }
}

/// Whether `t` is an `i128` time.
pub open spec fn in_time(t: int) -> bool {
    i128::MIN <= t <= i128::MAX
}

/// Whether evaluating `f` at `t` reaches a time outside the `i128` range:
/// operands visited in order and skipped when the result is already known,
/// as [`cost`] counts them.
pub open spec fn leaves(f: Formula, cells: Seq<Map<u32, bool>>, t: int) -> bool
    decreases depth_of(f), 2nat, 0nat,
{
    match f {
        Formula::False | Formula::True | Formula::Atom(_) => false,
        Formula::Not(p) => leaves(*p, cells, t),
        Formula::And(p, q) => leaves(*p, cells, t) || (pdenote(*p, cells)(t) && leaves(*q, cells, t)),
        Formula::Or(p, q) => leaves(*p, cells, t) || (!pdenote(*p, cells)(t) && leaves(*q, cells, t)),
        Formula::Implies(p, q) => leaves(*p, cells, t) || (pdenote(*p, cells)(t) && leaves(*q, cells, t)),
        Formula::Equivalent(p, q) => leaves(*p, cells, t) || leaves(*q, cells, t),
        Formula::Future(r, p) => scan_leaves(r.lower(), closed_end(r), None, *p, false, cells, t, false, r.lower()),
        Formula::Once(r, p) => scan_leaves(r.lower(), closed_end(r), None, *p, false, cells, t, true, r.lower()),
        Formula::Globally(r, p) => scan_leaves(r.lower(), closed_end(r), None, *p, true, cells, t, false, r.lower()),
        Formula::Historically(r, p) => scan_leaves(r.lower(), closed_end(r), None, *p, true, cells, t, true, r.lower()),
        Formula::Until(r, p, q) => scan_leaves(r.lower(), closed_end(r), Some((*p, false)), *q, false, cells, t, false, r.lower()),
        Formula::Since(r, p, q) => scan_leaves(r.lower(), closed_end(r), Some((*p, false)), *q, false, cells, t, true, r.lower()),
        Formula::Release(r, p, q) => scan_leaves(r.lower(), closed_end(r), Some((*p, true)), *q, true, cells, t, false, r.lower()),
        Formula::Triggered(r, p, q) => scan_leaves(r.lower(), closed_end(r), Some((*p, true)), *q, true, cells, t, true, r.lower()),
        Formula::StrongPrevious(p) => !in_time(t - 1) || leaves(*p, cells, t - 1),
    }
}

/// Whether the guard at offsets `e..d` reaches a time outside the `i128` range
/// before the first offset where it fails.
pub open spec fn guard_leaves(
    g: Formula,
    gneg: bool,
    cells: Seq<Map<u32, bool>>,
    t: int,
    d: nat,
    past: bool,
    e: nat,
) -> bool
    decreases 1 + depth_of(g), 0nat, d - e,
{
    if e >= d {
        false
    } else {
        !in_time(shift(t, e, past)) || leaves(g, cells, shift(t, e, past)) || (sval(g, gneg, cells, shift(t, e, past))
            && guard_leaves(g, gneg, cells, t, d, past, e + 1))
    }
}

/// Whether scanning witness offsets `w..=hi` reaches a time outside the
/// `i128` range, visiting offsets and guards as [`scan_cost`] does.
pub open spec fn scan_leaves(
    lo: nat,
    hi: nat,
    g: Option<(Formula, bool)>,
    r: Formula,
    rneg: bool,
    cells: Seq<Map<u32, bool>>,
    t: int,
    past: bool,
    w: nat,
) -> bool
    decreases 1 + larger(depth_of(r), guard_depth(g)), 1nat, hi + 1 - w,
{
    if w > hi {
        false
    } else if !in_time(shift(t, w, past)) || leaves(r, cells, shift(t, w, past)) {
        true
    } else if !sval(r, rneg, cells, shift(t, w, past)) {
        scan_leaves(lo, hi, g, r, rneg, cells, t, past, w + 1)
    } else {
        match g {
            None => false,
            Some((gf, gneg)) => guard_leaves(gf, gneg, cells, t, w, past, lo) || (!guards_hold(guard_fn(g, cells), t, lo, w, past)
                && scan_leaves(lo, hi, g, r, rneg, cells, t, past, w + 1)),
        }
    }
}

/// The first refusal of `f` at nesting `depth` under `domain`: a depth beyond
/// the budget, an operator outside the profile, or a refused interval; each
/// operator before its interval, and both before its operands, left first.
pub open spec fn pcheck(f: Formula, depth: nat, limits: Limits, domain: Domain) -> Option<OracleError>
    decreases f,
{
    if depth > limits.max_depth || depth + 1 > usize::MAX {
        Some(OracleError::ResourceIncomplete)
    } else {
        let next = depth + 1;
        match f {
            Formula::False | Formula::True | Formula::Atom(_) => None,
            Formula::Not(p) => pcheck(*p, next, limits, domain),
            Formula::StrongPrevious(p) => if domain is ClosedFuture {
                Some(OracleError::ClosedTracePastUnsupported)
            } else {
                pcheck(*p, next, limits, domain)
            },
            Formula::And(p, q) | Formula::Or(p, q) | Formula::Implies(p, q) | Formula::Equivalent(p, q) => {
                match pcheck(*p, next, limits, domain) {
                    Some(e) => Some(e),
                    None => pcheck(*q, next, limits, domain),
                }
            },
            Formula::Future(r, p) | Formula::Globally(r, p) => if domain is OriginPast {
                Some(OracleError::OriginFutureUnsupported)
            } else {
                match finite_bounds(r, limits) {
                    Some(e) => Some(e),
                    None => pcheck(*p, next, limits, domain),
                }
            },
            Formula::Once(r, p) | Formula::Historically(r, p) => if domain is ClosedFuture {
                Some(OracleError::ClosedTracePastUnsupported)
            } else {
                match finite_bounds(r, limits) {
                    Some(e) => Some(e),
                    None => pcheck(*p, next, limits, domain),
                }
            },
            Formula::Until(r, p, q) | Formula::Release(r, p, q) => if domain is OriginPast {
                Some(OracleError::OriginFutureUnsupported)
            } else {
                match finite_bounds(r, limits) {
                    Some(e) => Some(e),
                    None => match pcheck(*p, next, limits, domain) {
                        Some(e) => Some(e),
                        None => pcheck(*q, next, limits, domain),
                    },
                }
            },
            Formula::Since(r, p, q) | Formula::Triggered(r, p, q) => if domain is ClosedFuture {
                Some(OracleError::ClosedTracePastUnsupported)
            } else {
                match finite_bounds(r, limits) {
                    Some(e) => Some(e),
                    None => match pcheck(*p, next, limits, domain) {
                        Some(e) => Some(e),
                        None => pcheck(*q, next, limits, domain),
                    },
                }
            },
        }
    }
}

/// An admitted formula has only admitted intervals.
proof fn lemma_pcheck_preflight(f: Formula, depth: nat, limits: Limits, domain: Domain)
    requires
        pcheck(f, depth, limits, domain) is None,
    ensures
        preflight(f, limits) is None,
    decreases f,
{
    match f {
        Formula::False | Formula::True | Formula::Atom(_) => {},
        Formula::Not(p) | Formula::StrongPrevious(p) => lemma_pcheck_preflight(*p, depth + 1, limits, domain),
        Formula::Future(_, p) | Formula::Globally(_, p) | Formula::Once(_, p) | Formula::Historically(_, p) => {
            lemma_pcheck_preflight(*p, depth + 1, limits, domain)
        },
        Formula::And(p, q) | Formula::Or(p, q) | Formula::Implies(p, q) | Formula::Equivalent(p, q)
        | Formula::Until(_, p, q) | Formula::Release(_, p, q) | Formula::Since(_, p, q)
        | Formula::Triggered(_, p, q) => {
            lemma_pcheck_preflight(*p, depth + 1, limits, domain);
            lemma_pcheck_preflight(*q, depth + 1, limits, domain);
        },
    }
}

/// Checks `formula` at nesting `depth` against the profile and the budget.
fn check(formula: &Formula, depth: usize, limits: Limits, domain: Domain) -> (r: Result<(), OracleError>)
    ensures
        match pcheck(*formula, depth as nat, limits, domain) {
            Some(e) => r == Err::<(), OracleError>(e),
            None => r == Ok::<(), OracleError>(()),
        },
    decreases formula,
{
    if depth > limits.max_depth {
        return Err(OracleError::ResourceIncomplete);
    }
    let next = match depth.checked_add(1) {
        Some(v) => v,
        None => return Err(OracleError::ResourceIncomplete),
    };
    match formula {
        Formula::False | Formula::True | Formula::Atom(_) => Ok(()),
        Formula::Not(p) => check(p, next, limits, domain),
        Formula::StrongPrevious(p) => {
            if matches!(domain, Domain::ClosedFuture) {
                return Err(OracleError::ClosedTracePastUnsupported);
            }
            check(p, next, limits, domain)
        },
        Formula::And(p, q) | Formula::Or(p, q) | Formula::Implies(p, q) | Formula::Equivalent(p, q) => {
            check(p, next, limits, domain)?;
            check(q, next, limits, domain)
        },
        Formula::Future(range, p) | Formula::Globally(range, p) => {
            if matches!(domain, Domain::OriginPast) {
                return Err(OracleError::OriginFutureUnsupported);
            }
            finite_interval(*range, limits)?;
            check(p, next, limits, domain)
        },
        Formula::Until(range, p, q) | Formula::Release(range, p, q) => {
            if matches!(domain, Domain::OriginPast) {
                return Err(OracleError::OriginFutureUnsupported);
            }
            finite_interval(*range, limits)?;
            check(p, next, limits, domain)?;
            check(q, next, limits, domain)
        },
        Formula::Once(range, p) | Formula::Historically(range, p) => {
            if matches!(domain, Domain::ClosedFuture) {
                return Err(OracleError::ClosedTracePastUnsupported);
            }
            finite_interval(*range, limits)?;
            check(p, next, limits, domain)
        },
        Formula::Since(range, p, q) | Formula::Triggered(range, p, q) => {
            if matches!(domain, Domain::ClosedFuture) {
                return Err(OracleError::ClosedTracePastUnsupported);
            }
            finite_interval(*range, limits)?;
            check(p, next, limits, domain)?;
            check(q, next, limits, domain)
        },
    }
}

/// Spends one budget unit.
fn tick(budget: &mut usize) -> (r: Result<(), OracleError>)
    ensures
        *old(budget) == 0 ==> r == Err::<(), OracleError>(OracleError::ResourceIncomplete) && *final(budget) == *old(budget),
        *old(budget) > 0 ==> r == Ok::<(), OracleError>(()) && *final(budget) == *old(budget) - 1,
{
    match budget.checked_sub(1) {
        Some(v) => {
            *budget = v;
            Ok(())
        },
        None => Err(OracleError::ResourceIncomplete),
    }
}

/// The time `offset` steps after `time`, or before it.
fn shifted(time: i128, offset: usize, past: bool) -> (r: Result<i128, OracleError>)
    ensures
        match r {
            Ok(v) => v == shift(time as int, offset as nat, past),
            Err(e) => e == OracleError::ResourceIncomplete && !(i128::MIN <= shift(time as int, offset as nat, past) <= i128::MAX),
        },
{
    let offset = offset as i128;
    let r = if past { time.checked_sub(offset) } else { time.checked_add(offset) };
    match r {
        Some(v) => Ok(v),
        None => Err(OracleError::ResourceIncomplete),
    }
}


/// The guard as a formula and sign.
pub open spec fn signed_guard(left: Option<&Formula>, neg: bool) -> Option<(Formula, bool)> {
    match left {
        Some(f) => Some((*f, neg)),
        None => None,
    }
}

/// The guard has only admitted intervals.
pub open spec fn guard_preflight(left: Option<&Formula>, limits: Limits) -> bool {
    match left {
        Some(f) => preflight(*f, limits) is None,
        None => true,
    }
}

/// The value of `f`, or of its negation, at `time`; a negation costs one unit more.
fn eval_signed(
    f: &Formula,
    neg: bool,
    cells: &[BTreeMap<u32, bool>],
    time: i128,
    limits: Limits,
    budget: &mut usize,
) -> (r: Result<bool, OracleError>)
    requires
        preflight(*f, limits) is None,
    ensures
        match r {
            Ok(v) => v == sval(*f, neg, cells_view(cells@), time as int) && *final(budget) == *old(budget) - scost(
                *f,
                neg,
                cells_view(cells@),
                time as int,
            ),
            Err(e) => e == OracleError::ResourceIncomplete && (scost(*f, neg, cells_view(cells@), time as int) > *old(
                budget,
            ) || leaves(*f, cells_view(cells@), time as int)),
        },
        r is Ok ==> scost(*f, neg, cells_view(cells@), time as int) <= *old(budget) && !leaves(*f, cells_view(cells@), time as int),
    decreases depth_of(*f), 3nat, 0nat,
{
    if neg {
        tick(budget)?;
        let v = at(f, cells, time, limits, budget)?;
        Ok(!v)
    } else {
        at(f, cells, time, limits, budget)
    }
}

/// Scans witness offsets of the closed interval `range` from its lower end,
/// checking the guard from the lower end up to each witness.
fn witness(
    range: Interval,
    left: Option<&Formula>,
    lneg: bool,
    right: &Formula,
    rneg: bool,
    cells: &[BTreeMap<u32, bool>],
    time: i128,
    past: bool,
    limits: Limits,
    budget: &mut usize,
) -> (r: Result<bool, OracleError>)
    requires
        finite_bounds(range, limits) is None,
        preflight(*right, limits) is None,
        guard_preflight(left, limits),
    ensures
        match r {
            Ok(v) => v == window(
                range.lower(),
                closed_end(range),
                guard_fn(signed_guard(left, lneg), cells_view(cells@)),
                guard_fn(Some((*right, rneg)), cells_view(cells@)),
                time as int,
                past,
            ) && *final(budget) == *old(budget) - scan_cost(
                range.lower(),
                closed_end(range),
                signed_guard(left, lneg),
                *right,
                rneg,
                cells_view(cells@),
                time as int,
                past,
                range.lower(),
            ) && !scan_leaves(range.lower(), closed_end(range), signed_guard(left, lneg), *right, rneg, cells_view(cells@), time as int, past, range.lower()),
            Err(e) => e == OracleError::ResourceIncomplete && (scan_cost(
                range.lower(),
                closed_end(range),
                signed_guard(left, lneg),
                *right,
                rneg,
                cells_view(cells@),
                time as int,
                past,
                range.lower(),
            ) > *old(budget) || scan_leaves(range.lower(), closed_end(range), signed_guard(left, lneg), *right, rneg, cells_view(cells@), time as int, past, range.lower())),
        },
    decreases 1 + larger(depth_of(*right), guard_depth(signed_guard(left, lneg))), 1nat, 0nat,
{
    let ghost cv = cells_view(cells@);
    let ghost gopt = signed_guard(left, lneg);
    let ghost g = guard_fn(gopt, cv);
    let ghost rs = guard_fn(Some((*right, rneg)), cv);
    let ghost lo = range.lower();
    let ghost hi = closed_end(range);
    let ghost t = time as int;
    let ghost total = scan_cost(lo, hi, gopt, *right, rneg, cv, t, past, lo);
    let ghost lv = scan_leaves(lo, hi, gopt, *right, rneg, cv, t, past, lo);
    let ghost b0 = *budget;
    let (start, end) = finite_interval(range, limits)?;
    let mut w = start;
    loop
        invariant
            range == (Interval::Closed { start, end }),
            lo == start,
            hi == end,
            start <= w <= end,
            cv == cells_view(cells@),
            gopt == signed_guard(left, lneg),
            g == guard_fn(gopt, cv),
            rs == guard_fn(Some((*right, rneg)), cv),
            t == time as int,
            preflight(*right, limits) is None,
            guard_preflight(left, limits),
            total == scan_cost(lo, hi, gopt, *right, rneg, cv, t, past, lo),
            lv == scan_leaves(lo, hi, gopt, *right, rneg, cv, t, past, lo),
            lv == scan_leaves(lo, hi, gopt, *right, rneg, cv, t, past, w as nat),
            b0 == *old(budget),
            b0 - *budget + scan_cost(lo, hi, gopt, *right, rneg, cv, t, past, w as nat) == total,
            forall|d: nat| lo <= d < w ==> !#[trigger] window_at(lo, d, g, rs, t, past),
        decreases end - w,
    {
        let ghost bw = *budget;
        let wt = match shifted(time, w, past) {
            Ok(v) => v,
            Err(e) => {
                return Err(e);
            },
        };
        let rv = match eval_signed(right, rneg, cells, wt, limits, budget) {
            Ok(v) => v,
            Err(e) => {
                return Err(e);
            },
        };
        assert(rv == rs(shift(t, w as nat, past)));
        if rv {
            match left {
                None => {
                    assert(scan_cost(lo, hi, gopt, *right, rneg, cv, t, past, w as nat) == scost(*right, rneg, cv, shift(t, w as nat, past)));
                    assert(window_at(lo, w as nat, g, rs, t, past));
                    return Ok(true);
                },
                Some(l) => {
                    let ghost bg = *budget;
                    let ghost gcost = guard_cost(*l, lneg, cv, t, w as nat, past, lo);
                    let ghost gl = guard_leaves(*l, lneg, cv, t, w as nat, past, lo);
                    let ghost sw = scan_cost(lo, hi, gopt, *right, rneg, cv, t, past, w as nat);
                    assert(gopt == Some((*l, lneg)));
                    assert(sw >= (bw - bg) + gcost);
                    assert(lv == (gl || (!guards_hold(g, t, lo, w as nat, past)
                        && scan_leaves(lo, hi, gopt, *right, rneg, cv, t, past, (w + 1) as nat))));
                    let mut all = true;
                    let mut e = start;
                    while all && e < w
                        invariant
                            start <= e <= w,
                            w <= end,
                            hi == end,
                            range == (Interval::Closed { start, end }),
                            gopt == signed_guard(left, lneg),
                            total == scan_cost(lo, hi, gopt, *right, rneg, cv, t, past, lo),
                            left == Some(l),
                            b0 == *old(budget),
                            b0 - bw + sw == total,
                            sw >= (bw - bg) + gcost,
                            bg <= bw,
                            lo == start,
                            t == time as int,
                            cv == cells_view(cells@),
                            preflight(*l, limits) is None,
                            gcost == guard_cost(*l, lneg, cv, t, w as nat, past, lo),
                            gl == guard_leaves(*l, lneg, cv, t, w as nat, past, lo),
                            lv == scan_leaves(lo, hi, gopt, *right, rneg, cv, t, past, lo),
                            lv == (gl || (!guards_hold(g, t, lo, w as nat, past)
                                && scan_leaves(lo, hi, gopt, *right, rneg, cv, t, past, (w + 1) as nat))),
                            g == guard_fn(Some((*l, lneg)), cv),
                            all ==> guards_hold(g, t, lo, e as nat, past),
                            all ==> bg - *budget + guard_cost(*l, lneg, cv, t, w as nat, past, e as nat) == gcost,
                            all ==> gl == guard_leaves(*l, lneg, cv, t, w as nat, past, e as nat),
                            !all ==> bg - *budget == gcost,
                            !all ==> !guards_hold(g, t, lo, w as nat, past),
                            !all ==> !gl,
                        decreases w - e + (if all { 1int } else { 0int }),
                    {
                        let et = match shifted(time, e, past) {
                            Ok(v) => v,
                            Err(err) => {
                                assert(guard_leaves(*l, lneg, cv, t, w as nat, past, e as nat));
                                return Err(err);
                            },
                        };
                        assert(guard_depth(signed_guard(left, lneg)) == depth_of(*l));
                        assert(guard_cost(*l, lneg, cv, t, w as nat, past, e as nat) >= scost(*l, lneg, cv, shift(t, e as nat, past)));
                        let ghost be = *budget;
                        let gv = match eval_signed(l, lneg, cells, et, limits, budget) {
                            Ok(v) => v,
                            Err(err) => {
                                proof {
                                    if scost(*l, lneg, cv, shift(t, e as nat, past)) > be {
                                        assert(total > b0);
                                    } else {
                                        assert(guard_leaves(*l, lneg, cv, t, w as nat, past, e as nat));
                                    }
                                }
                                return Err(err);
                            },
                        };
                        assert(gv == g(shift(t, e as nat, past)));
                        if !gv {
                            all = false;
                        } else {
                            e += 1;
                        }
                    }
                    if all {
                        assert(window_at(lo, w as nat, g, rs, t, past));
                        return Ok(true);
                    }
                },
            }
        }
        assert(!window_at(lo, w as nat, g, rs, t, past));
        assert(scan_cost(lo, hi, gopt, *right, rneg, cv, t, past, w as nat) == (bw - *budget) + scan_cost(lo, hi, gopt, *right, rneg, cv, t, past, (w + 1) as nat));
        assert(lv == scan_leaves(lo, hi, gopt, *right, rneg, cv, t, past, (w + 1) as nat));
        if w == end {
            assert(!scan_leaves(lo, hi, gopt, *right, rneg, cv, t, past, (w + 1) as nat));
            return Ok(false);
        }
        w += 1;
    }
}

/// The value of `formula` at `time`, spending its cost from `budget`.
fn at(formula: &Formula, cells: &[BTreeMap<u32, bool>], time: i128, limits: Limits, budget: &mut usize) -> (r: Result<bool, OracleError>)
    requires
        preflight(*formula, limits) is None,
    ensures
        match r {
            Ok(v) => v == pdenote(*formula, cells_view(cells@))(time as int) && *final(budget) == *old(budget) - cost(
                *formula,
                cells_view(cells@),
                time as int,
            ),
            Err(e) => e == OracleError::ResourceIncomplete && (cost(*formula, cells_view(cells@), time as int) > *old(
                budget,
            ) || leaves(*formula, cells_view(cells@), time as int)),
        },
        r is Ok ==> cost(*formula, cells_view(cells@), time as int) <= *old(budget) && !leaves(*formula, cells_view(cells@), time as int),
    decreases depth_of(*formula), 2nat, 0nat,
{
    tick(budget)?;
    match formula {
        Formula::False => Ok(false),
        Formula::True => Ok(true),
        Formula::Atom(id) => {
            if time >= 0 && time < cells.len() as i128 {
                let index = time as usize;
                match cells[index].get(id) {
                    Some(v) => Ok(*v),
                    None => Ok(false),
                }
            } else {
                Ok(false)
            }
        },
        Formula::Not(p) => Ok(!at(p, cells, time, limits, budget)?),
        Formula::And(p, q) => {
            if !at(p, cells, time, limits, budget)? {
                return Ok(false);
            }
            at(q, cells, time, limits, budget)
        },
        Formula::Or(p, q) => {
            if at(p, cells, time, limits, budget)? {
                return Ok(true);
            }
            at(q, cells, time, limits, budget)
        },
        Formula::Implies(p, q) => {
            if !at(p, cells, time, limits, budget)? {
                return Ok(true);
            }
            at(q, cells, time, limits, budget)
        },
        Formula::Equivalent(p, q) => {
            let a = at(p, cells, time, limits, budget)?;
            let b = at(q, cells, time, limits, budget)?;
            Ok(a == b)
        },
        Formula::Future(range, p) => witness(*range, None, false, p, false, cells, time, false, limits, budget),
        Formula::Once(range, p) => witness(*range, None, false, p, false, cells, time, true, limits, budget),
        Formula::Globally(range, p) => Ok(!witness(*range, None, false, p, true, cells, time, false, limits, budget)?),
        Formula::Historically(range, p) => Ok(!witness(*range, None, false, p, true, cells, time, true, limits, budget)?),
        Formula::Until(range, p, q) => witness(*range, Some(&**p), false, q, false, cells, time, false, limits, budget),
        Formula::Since(range, p, q) => witness(*range, Some(&**p), false, q, false, cells, time, true, limits, budget),
        Formula::Release(range, p, q) => Ok(!witness(*range, Some(&**p), true, q, true, cells, time, false, limits, budget)?),
        Formula::Triggered(range, p, q) => Ok(!witness(*range, Some(&**p), true, q, true, cells, time, true, limits, budget)?),
        Formula::StrongPrevious(p) => {
            let earlier = shifted(time, 1, true)?;
            at(p, cells, earlier, limits, budget)
        },
    }
}


/// The refusal of a bounded-profile evaluation before any value is read: the
/// position, the position budget, then the formula's depth, operators and intervals.
pub open spec fn profile_refusal(
    f: Formula,
    cells: Seq<Map<u32, bool>>,
    position: nat,
    limits: Limits,
    domain: Domain,
) -> Option<OracleError> {
    if position >= cells.len() {
        Some(OracleError::FinitePositionAbsent)
    } else if cells.len() > limits.max_positions {
        Some(OracleError::ResourceIncomplete)
    } else {
        pcheck(f, 1, limits, domain)
    }
}

/// The value of `f` at `position` under `domain`, or its refusal; the budget of
/// `max_positions` units runs out exactly when the evaluation costs more.
pub open spec fn profile_result(
    r: Result<bool, OracleError>,
    f: Formula,
    cells: Seq<Map<u32, bool>>,
    position: nat,
    limits: Limits,
    domain: Domain,
) -> bool {
    match profile_refusal(f, cells, position, limits, domain) {
        Some(e) => r == Err::<bool, OracleError>(e),
        None => match r {
            Ok(v) => v == pdenote(f, cells)(position as int) && cost(f, cells, position as int) <= limits.max_positions
                && !leaves(f, cells, position as int),
            Err(e) => e == OracleError::ResourceIncomplete && (cost(f, cells, position as int) > limits.max_positions
                || leaves(f, cells, position as int)),
        },
    }
}

fn evaluate_profile(
    formula: &Formula,
    cells: &[BTreeMap<u32, bool>],
    position: usize,
    limits: Limits,
    domain: Domain,
) -> (r: Result<bool, OracleError>)
    ensures
        profile_result(r, *formula, cells_view(cells@), position as nat, limits, domain),
{
    if position >= cells.len() {
        return Err(OracleError::FinitePositionAbsent);
    }
    if cells.len() > limits.max_positions {
        return Err(OracleError::ResourceIncomplete);
    }
    let mut budget = limits.max_positions;
    let position = position as i128;
    check(formula, 1, limits, domain)?;
    proof {
        lemma_pcheck_preflight(*formula, 1, limits, domain);
    }
    at(formula, cells, position, limits, &mut budget)
}

/// Evaluates a complete finite word under `mltl.closed-trace/v1`.
///
/// Missing or out-of-word atomic observations are false, while Boolean
/// constants remain time independent. For bounded U/R, the left guard starts
/// at the interval's lower endpoint. Past operators are refused.
pub fn evaluate_closed_trace_v1(
    formula: &Formula,
    cells: &[BTreeMap<u32, bool>],
    position: usize,
    limits: Limits,
) -> (r: Result<bool, OracleError>)
    ensures
        profile_result(r, *formula, cells_view(cells@), position as nat, limits, Domain::ClosedFuture),
{
    evaluate_profile(formula, cells, position, limits, Domain::ClosedFuture)
}

/// Evaluates a finite history under `mltl.origin-complete-history/v1`.
///
/// Atomic observations before the origin are false; Boolean constants and
/// connectives still evaluate normally there. O/H/Y/S/T visit the full closed
/// interval, including negative positions. Missing atoms in a history cell
/// are false. Future operators are refused.
pub fn evaluate_origin_complete(
    formula: &Formula,
    cells: &[BTreeMap<u32, bool>],
    position: usize,
    limits: Limits,
) -> (r: Result<bool, OracleError>)
    ensures
        profile_result(r, *formula, cells_view(cells@), position as nat, limits, Domain::OriginPast),
{
    evaluate_profile(formula, cells, position, limits, Domain::OriginPast)
}

/// A formula on which the closed-trace profile and plain finite evaluation
/// read the same clauses: no past operator, closed intervals, and every
/// until or release interval starting at offset zero, where the guard of both
/// starts.
pub open spec fn closed_future_shape(f: Formula) -> bool
    decreases f,
{
    match f {
        Formula::False | Formula::True | Formula::Atom(_) => true,
        Formula::Not(p) => closed_future_shape(*p),
        Formula::And(p, q) | Formula::Or(p, q) | Formula::Implies(p, q) | Formula::Equivalent(p, q) => {
            closed_future_shape(*p) && closed_future_shape(*q)
        },
        Formula::Future(r, p) | Formula::Globally(r, p) => r is Closed && closed_future_shape(*p),
        Formula::Until(r, p, q) | Formula::Release(r, p, q) => {
            r is Closed && r.lower() == 0 && closed_future_shape(*p) && closed_future_shape(*q)
        },
        _ => false,
    }
}

/// A closed future window of the profile is the future clause of the denotation.
proof fn lemma_window_is_ahead(
    lo: nat,
    hi: nat,
    sg: spec_fn(int) -> bool,
    sw: spec_fn(int) -> bool,
    dg: spec_fn(nat) -> bool,
    dw: spec_fn(nat) -> bool,
    t: nat,
)
    requires
        forall|x: nat| #[trigger] sg(x as int) == dg(x),
        forall|x: nat| #[trigger] sw(x as int) == dw(x),
        lo == 0 || forall|x: nat| #[trigger] dg(x),
    ensures
        window(lo, hi, sg, sw, t as int, false) == crate::semantics::ahead(lo, Some(hi), dw, dg, t),
{
    if window(lo, hi, sg, sw, t as int, false) {
        let d = choose|d: nat| lo <= d <= hi && #[trigger] window_at(lo, d, sg, sw, t as int, false);
        assert(sw((t + d) as nat as int) == dw((t + d) as nat));
        assert forall|e: nat| e < d implies #[trigger] crate::semantics::after(dg, t, e) by {
            assert(sg((t + e) as nat as int) == dg((t + e) as nat));
            if lo != 0 {
                assert(dg((t + e) as nat));
            } else {
                assert(sg(shift(t as int, e, false)));
            }
        }
        assert(crate::semantics::ahead_at(lo, Some(hi), dw, dg, t, d));
    }
    if crate::semantics::ahead(lo, Some(hi), dw, dg, t) {
        let d = choose|d: nat| #[trigger] crate::semantics::ahead_at(lo, Some(hi), dw, dg, t, d);
        assert(sw((t + d) as nat as int) == dw((t + d) as nat));
        assert forall|e: nat| lo <= e < d implies #[trigger] sg(shift(t as int, e, false)) by {
            assert(crate::semantics::after(dg, t, e));
            assert(sg((t + e) as nat as int) == dg((t + e) as nat));
        }
        assert(window_at(lo, d, sg, sw, t as int, false));
    }
}

/// On a formula of [`closed_future_shape`], the closed-trace profile's
/// meaning is the finite denotation at every position of the word and after it.
proof fn lemma_closed_profile_is_finite(f: Formula, cells: Seq<Map<u32, bool>>)
    requires
        closed_future_shape(f),
    ensures
        forall|t: nat| #[trigger] pdenote(f, cells)(t as int) == denote(f, finite_val(cells))(t),
    decreases f,
{
    match f {
        Formula::False => {
            assert forall|t: nat| #[trigger] pdenote(f, cells)(t as int) == denote(f, finite_val(cells))(t) by {
                assert(!pdenote(f, cells)(t as int));
                assert(!denote(f, finite_val(cells))(t));
            }
        },
        Formula::True => {
            assert forall|t: nat| #[trigger] pdenote(f, cells)(t as int) == denote(f, finite_val(cells))(t) by {
                assert(pdenote(f, cells)(t as int));
                assert(denote(f, finite_val(cells))(t));
            }
        },
        Formula::Atom(a) => {
            assert forall|t: nat| #[trigger] pdenote(f, cells)(t as int) == denote(f, finite_val(cells))(t) by {
                assert(pdenote(f, cells)(t as int) == pval(cells)(a, t as int));
                assert(denote(f, finite_val(cells))(t) == finite_val(cells)(a, t));
            }
        },
        Formula::Not(p) => {
            lemma_closed_profile_is_finite(*p, cells);
            assert forall|t: nat| #[trigger] pdenote(f, cells)(t as int) == denote(f, finite_val(cells))(t) by {
                assert(pdenote(*p, cells)(t as int) == denote(*p, finite_val(cells))(t));
            }
        },
        Formula::And(p, q) => {
            lemma_closed_profile_is_finite(*p, cells);
            lemma_closed_profile_is_finite(*q, cells);
            assert forall|t: nat| #[trigger] pdenote(f, cells)(t as int) == denote(f, finite_val(cells))(t) by {
                assert(pdenote(*p, cells)(t as int) == denote(*p, finite_val(cells))(t));
                assert(pdenote(*q, cells)(t as int) == denote(*q, finite_val(cells))(t));
            }
        },
        Formula::Or(p, q) => {
            lemma_closed_profile_is_finite(*p, cells);
            lemma_closed_profile_is_finite(*q, cells);
            assert forall|t: nat| #[trigger] pdenote(f, cells)(t as int) == denote(f, finite_val(cells))(t) by {
                assert(pdenote(*p, cells)(t as int) == denote(*p, finite_val(cells))(t));
                assert(pdenote(*q, cells)(t as int) == denote(*q, finite_val(cells))(t));
            }
        },
        Formula::Implies(p, q) => {
            lemma_closed_profile_is_finite(*p, cells);
            lemma_closed_profile_is_finite(*q, cells);
            assert forall|t: nat| #[trigger] pdenote(f, cells)(t as int) == denote(f, finite_val(cells))(t) by {
                assert(pdenote(*p, cells)(t as int) == denote(*p, finite_val(cells))(t));
                assert(pdenote(*q, cells)(t as int) == denote(*q, finite_val(cells))(t));
            }
        },
        Formula::Equivalent(p, q) => {
            lemma_closed_profile_is_finite(*p, cells);
            lemma_closed_profile_is_finite(*q, cells);
            assert forall|t: nat| #[trigger] pdenote(f, cells)(t as int) == denote(f, finite_val(cells))(t) by {
                assert(pdenote(*p, cells)(t as int) == denote(*p, finite_val(cells))(t));
                assert(pdenote(*q, cells)(t as int) == denote(*q, finite_val(cells))(t));
            }
        },
        Formula::Future(r, p) => {
            lemma_closed_profile_is_finite(*p, cells);
            assert forall|t: nat| #[trigger] pdenote(f, cells)(t as int) == denote(f, finite_val(cells))(t) by {
                lemma_window_is_ahead(r.lower(), closed_end(r), ptrue(), pdenote(*p, cells), always(), denote(*p, finite_val(cells)), t);
            }
        },
        Formula::Globally(r, p) => {
            lemma_closed_profile_is_finite(*p, cells);
            assert forall|t: nat| #[trigger] pdenote(f, cells)(t as int) == denote(f, finite_val(cells))(t) by {
                lemma_window_is_ahead(
                    r.lower(),
                    closed_end(r),
                    ptrue(),
                    pnot(pdenote(*p, cells)),
                    always(),
                    negate(denote(*p, finite_val(cells))),
                    t,
                );
            }
        },
        Formula::Until(r, p, q) => {
            lemma_closed_profile_is_finite(*p, cells);
            lemma_closed_profile_is_finite(*q, cells);
            assert forall|t: nat| #[trigger] pdenote(f, cells)(t as int) == denote(f, finite_val(cells))(t) by {
                lemma_window_is_ahead(
                    r.lower(),
                    closed_end(r),
                    pdenote(*p, cells),
                    pdenote(*q, cells),
                    denote(*p, finite_val(cells)),
                    denote(*q, finite_val(cells)),
                    t,
                );
            }
        },
        Formula::Release(r, p, q) => {
            lemma_closed_profile_is_finite(*p, cells);
            lemma_closed_profile_is_finite(*q, cells);
            assert forall|t: nat| #[trigger] pdenote(f, cells)(t as int) == denote(f, finite_val(cells))(t) by {
                lemma_window_is_ahead(
                    r.lower(),
                    closed_end(r),
                    pnot(pdenote(*p, cells)),
                    pnot(pdenote(*q, cells)),
                    negate(denote(*p, finite_val(cells))),
                    negate(denote(*q, finite_val(cells))),
                    t,
                );
            }
        },
        _ => {
            assert(!closed_future_shape(f));
        },
    }
}

/// Where a formula has no past operator, closed intervals, and until and
/// release intervals starting at offset zero, an evaluation under the
/// closed-trace profile and a plain finite evaluation that both give a value
/// give the same value: the two differ only in where an until or release
/// guard starts.
pub proof fn law_closed_profile_agrees_with_finite(
    f: Formula,
    cells: Seq<Map<u32, bool>>,
    position: nat,
    limits: Limits,
    closed: Result<bool, OracleError>,
    finite: Result<bool, OracleError>,
)
    requires
        closed_future_shape(f),
        profile_result(closed, f, cells, position, limits, Domain::ClosedFuture),
        finite == (match finite_refusal(f, cells, position, limits) {
            Some(e) => Err::<bool, OracleError>(e),
            None => if finite_stops(f, cells, position, limits) {
                Err::<bool, OracleError>(OracleError::ResourceIncomplete)
            } else {
                Ok::<bool, OracleError>(finite_value(f, cells, position))
            },
        }),
        closed is Ok,
        finite is Ok,
    ensures
        closed == finite,
{
    lemma_closed_profile_is_finite(f, cells);
    assert(pdenote(f, cells)(position as int) == denote(f, finite_val(cells))(position));
}

/// Under both bounded profiles a previous step reads the time before, where
/// atoms are false and constants and connectives keep their meaning, also at
/// the origin: the previous step of a negation is the negation of the
/// previous step, and the previous step of `true` holds at every time.
pub proof fn law_previous_step_is_total(f: Formula, cells: Seq<Map<u32, bool>>)
    ensures
        forall|t: int| #[trigger] pdenote(Formula::StrongPrevious(Box::new(Formula::Not(Box::new(f)))), cells)(t)
            == !pdenote(Formula::StrongPrevious(Box::new(f)), cells)(t),
        forall|t: int| #[trigger] pdenote(Formula::StrongPrevious(Box::new(Formula::True)), cells)(t),
        forall|t: int| t <= 0 ==> !#[trigger] pdenote(Formula::StrongPrevious(Box::new(Formula::Atom(0))), cells)(t),
{
    let yn = Formula::StrongPrevious(Box::new(Formula::Not(Box::new(f))));
    let y = Formula::StrongPrevious(Box::new(f));
    let yt = Formula::StrongPrevious(Box::new(Formula::True));
    let ya = Formula::StrongPrevious(Box::new(Formula::Atom(0)));
    assert forall|t: int| #[trigger] pdenote(yn, cells)(t) == !pdenote(y, cells)(t) by {
        assert(pdenote(yn, cells)(t) == pdenote(Formula::Not(Box::new(f)), cells)(t - 1));
        assert(pdenote(Formula::Not(Box::new(f)), cells)(t - 1) == !pdenote(f, cells)(t - 1));
    }
    assert forall|t: int| #[trigger] pdenote(yt, cells)(t) by {
        assert(pdenote(yt, cells)(t) == pdenote(Formula::True, cells)(t - 1));
    }
    assert forall|t: int| t <= 0 implies !#[trigger] pdenote(ya, cells)(t) by {
        assert(pdenote(ya, cells)(t) == pdenote(Formula::Atom(0), cells)(t - 1));
    }
}

/// Evaluations under the origin-complete profile of the previous step of a
/// negation and of the negated previous step give the same value at every
/// position, the origin included, wherever both give one.
pub proof fn law_origin_previous_of_negation(
    f: Formula,
    cells: Seq<Map<u32, bool>>,
    position: nat,
    limits: Limits,
    of_negation: Result<bool, OracleError>,
    negated: Result<bool, OracleError>,
)
    requires
        profile_result(of_negation, Formula::StrongPrevious(Box::new(Formula::Not(Box::new(f)))), cells, position, limits, Domain::OriginPast),
        profile_result(negated, Formula::Not(Box::new(Formula::StrongPrevious(Box::new(f)))), cells, position, limits, Domain::OriginPast),
        of_negation is Ok,
        negated is Ok,
    ensures
        of_negation == negated,
{
    law_previous_step_is_total(f, cells);
    assert(pdenote(Formula::StrongPrevious(Box::new(Formula::Not(Box::new(f)))), cells)(position as int)
        == !pdenote(Formula::StrongPrevious(Box::new(f)), cells)(position as int));
}

/// Under both bounded profiles a closed window reaches times before the
/// origin and after the word, where atoms are false and constants keep their
/// meaning: a window over `true` always holds, a window over a negation is
/// the negated dual window, and an atom outside the word is false.
pub proof fn law_windows_reach_beyond_the_word(r: Interval, f: Formula, a: u32, cells: Seq<Map<u32, bool>>)
    requires
        r is Closed,
        r.lower() <= closed_end(r),
    ensures
        forall|t: int| #[trigger] pdenote(Formula::Once(r, Box::new(Formula::True)), cells)(t),
        forall|t: int| #[trigger] pdenote(Formula::Future(r, Box::new(Formula::True)), cells)(t),
        forall|t: int| #[trigger] pdenote(Formula::Once(r, Box::new(Formula::Not(Box::new(f)))), cells)(t)
            == !pdenote(Formula::Historically(r, Box::new(f)), cells)(t),
        forall|t: int| #[trigger] pdenote(Formula::Future(r, Box::new(Formula::Not(Box::new(f)))), cells)(t)
            == !pdenote(Formula::Globally(r, Box::new(f)), cells)(t),
        forall|t: int| (t < 0 || t >= cells.len()) ==> !#[trigger] pdenote(Formula::Atom(a), cells)(t),
        forall|t: int| #[trigger] pdenote(Formula::StrongPrevious(Box::new(f)), cells)(t) == pdenote(f, cells)(t - 1),
{
    let lo = r.lower();
    let hi = closed_end(r);
    let o = Formula::Once(r, Box::new(Formula::True));
    let fu = Formula::Future(r, Box::new(Formula::True));
    assert forall|t: int| #[trigger] pdenote(o, cells)(t) by {
        assert(window_at(lo, lo, ptrue(), pdenote(Formula::True, cells), t, true));
    }
    assert forall|t: int| #[trigger] pdenote(fu, cells)(t) by {
        assert(window_at(lo, lo, ptrue(), pdenote(Formula::True, cells), t, false));
    }
    assert forall|t: int| #[trigger] pdenote(Formula::Once(r, Box::new(Formula::Not(Box::new(f)))), cells)(t)
        == !pdenote(Formula::Historically(r, Box::new(f)), cells)(t) by {
        assert(pdenote(Formula::Not(Box::new(f)), cells) == pnot(pdenote(f, cells)));
    }
    assert forall|t: int| #[trigger] pdenote(Formula::Future(r, Box::new(Formula::Not(Box::new(f)))), cells)(t)
        == !pdenote(Formula::Globally(r, Box::new(f)), cells)(t) by {
        assert(pdenote(Formula::Not(Box::new(f)), cells) == pnot(pdenote(f, cells)));
    }
    assert forall|t: int| (t < 0 || t >= cells.len()) implies !#[trigger] pdenote(Formula::Atom(a), cells)(t) by {
        assert(pdenote(Formula::Atom(a), cells)(t) == pval(cells)(a, t));
    }
    assert forall|t: int| #[trigger] pdenote(Formula::StrongPrevious(Box::new(f)), cells)(t) == pdenote(f, cells)(t - 1) by {}
}

} // verus!
