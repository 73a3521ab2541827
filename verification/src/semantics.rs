//! The meaning of a formula on an ultimately periodic word.
//!
//! A word is a sequence of cells, each mapping propositions to Boolean values;
//! positions at or after the end of the cells repeat the loop that begins at
//! the loop entry. An atom absent from its cell is false. Every temporal
//! operator is read off its clause: a witness offset within the interval, with
//! the guard holding at every smaller offset.

use vstd::prelude::*;
use crate::{Formula, Interval};

verus! {

/// The cell that supplies position `t` of a lasso of `len` cells whose loop starts at `entry`.
pub open spec fn cell_of(len: nat, entry: nat, t: nat) -> nat {
    if t < len {
        t
    } else {
        (entry + (t - entry) % (len - entry)) as nat
    }
}

/// The value of atom `a` in one Boolean cell; an absent atom is false.
pub open spec fn lookup(cell: Map<u32, bool>, a: u32) -> bool {
    cell.contains_key(a) && cell[a]
}

/// Whether offset `d` lies in the interval with lower bound `lo` and optional upper bound `hi`.
pub open spec fn in_range(lo: nat, hi: Option<nat>, d: nat) -> bool {
    lo <= d && match hi {
        Some(h) => d <= h,
        None => true,
    }
}

/// `f` at `e` positions after `t`.
pub open spec fn after(f: spec_fn(nat) -> bool, t: nat, e: nat) -> bool {
    f(t + e)
}

/// `f` at `e` positions before `t` (only meaningful for `e <= t`).
pub open spec fn before(f: spec_fn(nat) -> bool, t: nat, e: nat) -> bool {
    f((t - e) as nat)
}

/// The guard holds at every offset after `t` below `d`.
pub open spec fn guarded_after(g: spec_fn(nat) -> bool, t: nat, d: nat) -> bool {
    forall|e: nat| e < d ==> #[trigger] after(g, t, e)
}

/// The guard holds at every offset before `t` below `d`.
pub open spec fn guarded_before(g: spec_fn(nat) -> bool, t: nat, d: nat) -> bool {
    forall|e: nat| e < d ==> #[trigger] before(g, t, e)
}

/// Offset `d` witnesses the future clause at `t`.
pub open spec fn ahead_at(
    lo: nat,
    hi: Option<nat>,
    w: spec_fn(nat) -> bool,
    g: spec_fn(nat) -> bool,
    t: nat,
    d: nat,
) -> bool {
    in_range(lo, hi, d) && after(w, t, d) && guarded_after(g, t, d)
}

/// Future clause: some offset in the interval has the witness, and the guard holds before it.
pub open spec fn ahead(
    lo: nat,
    hi: Option<nat>,
    w: spec_fn(nat) -> bool,
    g: spec_fn(nat) -> bool,
    t: nat,
) -> bool {
    exists|d: nat| #[trigger] ahead_at(lo, hi, w, g, t, d)
}

/// Offset `d` witnesses the past clause at `t`.
pub open spec fn behind_at(
    lo: nat,
    hi: Option<nat>,
    w: spec_fn(nat) -> bool,
    g: spec_fn(nat) -> bool,
    t: nat,
    d: nat,
) -> bool {
    in_range(lo, hi, d) && d <= t && before(w, t, d) && guarded_before(g, t, d)
}

/// Past clause: some offset in the interval, not before the origin, has the
/// witness, and the guard holds at every smaller offset.
pub open spec fn behind(
    lo: nat,
    hi: Option<nat>,
    w: spec_fn(nat) -> bool,
    g: spec_fn(nat) -> bool,
    t: nat,
) -> bool {
    exists|d: nat| #[trigger] behind_at(lo, hi, w, g, t, d)
}

/// The future clause at every position.
pub open spec fn ahead_fn(
    lo: nat,
    hi: Option<nat>,
    w: spec_fn(nat) -> bool,
    g: spec_fn(nat) -> bool,
) -> spec_fn(nat) -> bool {
    |t: nat| ahead(lo, hi, w, g, t)
}

/// The past clause at every position.
pub open spec fn behind_fn(
    lo: nat,
    hi: Option<nat>,
    w: spec_fn(nat) -> bool,
    g: spec_fn(nat) -> bool,
) -> spec_fn(nat) -> bool {
    |t: nat| behind(lo, hi, w, g, t)
}

/// The guard that always holds.
pub open spec fn always() -> spec_fn(nat) -> bool {
    |t: nat| true
}

/// Pointwise negation.
pub open spec fn negate(f: spec_fn(nat) -> bool) -> spec_fn(nat) -> bool {
    |t: nat| !f(t)
}

/// The truth of `f` at every position, given the value of each atom at each position.
pub open spec fn denote(f: Formula, val: spec_fn(u32, nat) -> bool) -> spec_fn(nat) -> bool
    decreases f,
{
    match f {
        Formula::False => |t: nat| false,
        Formula::True => |t: nat| true,
        Formula::Atom(a) => |t: nat| val(a, t),
        Formula::Not(p) => negate(denote(*p, val)),
        Formula::And(p, q) => {
            let sp = denote(*p, val);
            let sq = denote(*q, val);
            |t: nat| sp(t) && sq(t)
        },
        Formula::Or(p, q) => {
            let sp = denote(*p, val);
            let sq = denote(*q, val);
            |t: nat| sp(t) || sq(t)
        },
        Formula::Implies(p, q) => {
            let sp = denote(*p, val);
            let sq = denote(*q, val);
            |t: nat| !sp(t) || sq(t)
        },
        Formula::Equivalent(p, q) => {
            let sp = denote(*p, val);
            let sq = denote(*q, val);
            |t: nat| sp(t) == sq(t)
        },
        Formula::Future(r, p) => ahead_fn(r.lower(), r.upper(), denote(*p, val), always()),
        Formula::Globally(r, p) => negate(
            ahead_fn(r.lower(), r.upper(), negate(denote(*p, val)), always()),
        ),
        Formula::Until(r, p, q) => ahead_fn(r.lower(), r.upper(), denote(*q, val), denote(*p, val)),
        Formula::Release(r, p, q) => negate(
            ahead_fn(r.lower(), r.upper(), negate(denote(*q, val)), negate(denote(*p, val))),
        ),
        Formula::Once(r, p) => behind_fn(r.lower(), r.upper(), denote(*p, val), always()),
        Formula::Historically(r, p) => negate(
            behind_fn(r.lower(), r.upper(), negate(denote(*p, val)), always()),
        ),
        Formula::Since(r, p, q) => behind_fn(r.lower(), r.upper(), denote(*q, val), denote(*p, val)),
        Formula::Triggered(r, p, q) => negate(
            behind_fn(r.lower(), r.upper(), negate(denote(*q, val)), negate(denote(*p, val))),
        ),
        Formula::StrongPrevious(p) => behind_fn(1, Some(1), denote(*p, val), always()),
    }
}

/// Atom values on the ultimately periodic word with Boolean `cells` whose loop starts at `entry`.
pub open spec fn lasso_val(cells: Seq<Map<u32, bool>>, entry: nat) -> spec_fn(u32, nat) -> bool {
    |a: u32, t: nat| lookup(cells[cell_of(cells.len(), entry, t) as int], a)
}

/// The truth of `f` at every position of the word with Boolean `cells` whose loop starts at `entry`.
pub open spec fn sem(f: Formula, cells: Seq<Map<u32, bool>>, entry: nat) -> spec_fn(nat) -> bool {
    denote(f, lasso_val(cells, entry))
}

/// Atom values on the finite word `cells`; every atom is false after its last cell.
pub open spec fn finite_val(cells: Seq<Map<u32, bool>>) -> spec_fn(u32, nat) -> bool {
    |a: u32, t: nat| t < cells.len() && lookup(cells[t as int], a)
}

/// `f` repeats with period `p` from position `s` on.
pub open spec fn periodic_from(f: spec_fn(nat) -> bool, s: nat, p: nat) -> bool {
    forall|t: nat| s <= t ==> #[trigger] f(t + p) == f(t)
}

/// `f` holds at some position not before `n`.
pub open spec fn occurs_from(f: spec_fn(nat) -> bool, n: nat) -> bool {
    exists|t: nat| n <= t && #[trigger] f(t)
}

/// `f` holds at infinitely many positions.
pub open spec fn recurs(f: spec_fn(nat) -> bool) -> bool {
    forall|n: nat| #[trigger] occurs_from(f, n)
}

/// `f` at `t + p` equals `f` at `t`, for a function periodic from `s` and `s <= t`.
pub proof fn lemma_step(f: spec_fn(nat) -> bool, s: nat, p: nat, t: nat)
    requires
        periodic_from(f, s, p),
        s <= t,
    ensures
        f(t + p) == f(t),
{
}

/// Negation keeps periodicity.
pub proof fn lemma_negate_periodic(f: spec_fn(nat) -> bool, s: nat, p: nat)
    requires
        periodic_from(f, s, p),
    ensures
        periodic_from(negate(f), s, p),
{
    assert forall|t: nat| s <= t implies #[trigger] negate(f)(t + p) == negate(f)(t) by {
        lemma_step(f, s, p, t);
    }
}

/// The future clause over operands periodic from `c` is periodic from `c`.
pub proof fn lemma_ahead_periodic(
    lo: nat,
    hi: Option<nat>,
    w: spec_fn(nat) -> bool,
    g: spec_fn(nat) -> bool,
    c: nat,
    p: nat,
)
    requires
        periodic_from(w, c, p),
        periodic_from(g, c, p),
    ensures
        periodic_from(ahead_fn(lo, hi, w, g), c, p),
{
    assert forall|t: nat| c <= t implies #[trigger] ahead_fn(lo, hi, w, g)(t + p) == ahead_fn(
        lo,
        hi,
        w,
        g,
    )(t) by {
        if ahead(lo, hi, w, g, t + p) {
            let d = choose|d: nat| #[trigger] ahead_at(lo, hi, w, g, t + p, d);
            lemma_step(w, c, p, t + d);
            assert(t + p + d == (t + d) + p);
            assert forall|e: nat| e < d implies #[trigger] after(g, t, e) by {
                assert(after(g, t + p, e));
                lemma_step(g, c, p, t + e);
                assert(t + p + e == (t + e) + p);
            }
            assert(ahead_at(lo, hi, w, g, t, d));
        }
        if ahead(lo, hi, w, g, t) {
            let d = choose|d: nat| #[trigger] ahead_at(lo, hi, w, g, t, d);
            lemma_step(w, c, p, t + d);
            assert(t + p + d == (t + d) + p);
            assert forall|e: nat| e < d implies #[trigger] after(g, t + p, e) by {
                assert(after(g, t, e));
                lemma_step(g, c, p, t + e);
                assert(t + p + e == (t + e) + p);
            }
            assert(ahead_at(lo, hi, w, g, t + p, d));
        }
    }
}

/// A future witness beyond `lo + (s - t) + p` can be moved one period
/// earlier, when the witness operand is periodic from `s`; so some witness lies at or below that ceiling.
pub proof fn lemma_ahead_ceiling(
    lo: nat,
    hi: Option<nat>,
    w: spec_fn(nat) -> bool,
    g: spec_fn(nat) -> bool,
    s: nat,
    p: nat,
    t: nat,
    d: nat,
)
    requires
        p > 0,
        periodic_from(w, s, p),
        ahead_at(lo, hi, w, g, t, d),
    ensures
        exists|d2: nat|
            d2 <= lo + (if t < s {
                (s - t) as nat
            } else {
                0nat
            }) + p && #[trigger] ahead_at(lo, hi, w, g, t, d2),
    decreases d,
{
    let ceiling: nat = lo + (if t < s {
        (s - t) as nat
    } else {
        0nat
    }) + p;
    if d <= ceiling {
        assert(ahead_at(lo, hi, w, g, t, d));
    } else {
        let d2 = (d - p) as nat;
        assert(t + d2 >= s);
        lemma_step(w, s, p, t + d2);
        assert(t + d2 + p == t + d);
        assert(after(w, t, d2));
        assert forall|e: nat| e < d2 implies #[trigger] after(g, t, e) by {
            assert(e < d);
        }
        assert(ahead_at(lo, hi, w, g, t, d2));
        lemma_ahead_ceiling(lo, hi, w, g, s, p, t, d2);
    }
}

/// The past clause with a closed interval ending at `b`, over operands periodic
/// from `c`, is periodic from `c + b`.
pub proof fn lemma_behind_periodic_closed(
    lo: nat,
    b: nat,
    w: spec_fn(nat) -> bool,
    g: spec_fn(nat) -> bool,
    c: nat,
    p: nat,
)
    requires
        periodic_from(w, c, p),
        periodic_from(g, c, p),
    ensures
        periodic_from(behind_fn(lo, Some(b), w, g), c + b, p),
{
    let hi = Some(b);
    assert forall|t: nat| c + b <= t implies #[trigger] behind_fn(lo, hi, w, g)(t + p)
        == behind_fn(lo, hi, w, g)(t) by {
        if behind(lo, hi, w, g, t + p) {
            let d = choose|d: nat| #[trigger] behind_at(lo, hi, w, g, t + p, d);
            lemma_step(w, c, p, (t - d) as nat);
            assert((t + p - d) as nat == (t - d) as nat + p);
            assert forall|e: nat| e < d implies #[trigger] before(g, t, e) by {
                assert(before(g, t + p, e));
                lemma_step(g, c, p, (t - e) as nat);
                assert((t + p - e) as nat == (t - e) as nat + p);
            }
            assert(behind_at(lo, hi, w, g, t, d));
        }
        if behind(lo, hi, w, g, t) {
            let d = choose|d: nat| #[trigger] behind_at(lo, hi, w, g, t, d);
            lemma_step(w, c, p, (t - d) as nat);
            assert((t + p - d) as nat == (t - d) as nat + p);
            assert forall|e: nat| e < d implies #[trigger] before(g, t + p, e) by {
                assert(before(g, t, e));
                lemma_step(g, c, p, (t - e) as nat);
                assert((t + p - e) as nat == (t - e) as nat + p);
            }
            assert(behind_at(lo, hi, w, g, t + p, d));
        }
    }
}

/// The part of the unbounded past clause at `t + p` whose witness lies within the last period.
pub open spec fn past_local(lo: nat, w: spec_fn(nat) -> bool, g: spec_fn(nat) -> bool, p: nat, t: nat) -> bool {
    exists|d: nat| d < lo + p && #[trigger] behind_at(lo, None, w, g, t + p, d)
}

/// The unbounded past clause one period later: a witness within the last
/// period, or the guard over the whole last period and the clause one period earlier.
pub proof fn lemma_behind_recurrence(
    lo: nat,
    w: spec_fn(nat) -> bool,
    g: spec_fn(nat) -> bool,
    p: nat,
    t: nat,
)
    requires
        p > 0,
        lo <= t,
    ensures
        behind(lo, None, w, g, t + p) == (past_local(lo, w, g, p, t) || (guarded_before(g, t + p, p)
            && behind(lo, None, w, g, t))),
{
    if behind(lo, None, w, g, t + p) {
        let d = choose|d: nat| #[trigger] behind_at(lo, None, w, g, t + p, d);
        if d < lo + p {
            assert(past_local(lo, w, g, p, t));
        } else {
            let d2 = (d - p) as nat;
            assert((t + p - d) as nat == (t - d2) as nat);
            assert forall|e: nat| e < d2 implies #[trigger] before(g, t, e) by {
                assert(before(g, t + p, e + p));
                assert((t + p - (e + p)) as nat == (t - e) as nat);
            }
            assert(behind_at(lo, None, w, g, t, d2));
            assert forall|e: nat| e < p implies #[trigger] before(g, t + p, e) by {
                assert(e < d);
            }
        }
    }
    if past_local(lo, w, g, p, t) {
        let d = choose|d: nat| d < lo + p && #[trigger] behind_at(lo, None, w, g, t + p, d);
        assert(behind_at(lo, None, w, g, t + p, d));
    }
    if guarded_before(g, t + p, p) && behind(lo, None, w, g, t) {
        let d2 = choose|d: nat| #[trigger] behind_at(lo, None, w, g, t, d);
        let d = d2 + p;
        assert((t + p - d) as nat == (t - d2) as nat);
        assert forall|e: nat| e < d implies #[trigger] before(g, t + p, e) by {
            if e >= p {
                let e2 = (e - p) as nat;
                assert(before(g, t, e2));
                assert((t + p - e) as nat == (t - e2) as nat);
            }
        }
        assert(behind_at(lo, None, w, g, t + p, d));
    }
}

/// The unbounded past clause over operands periodic from `c` is periodic from `c + lo + p`.
pub proof fn lemma_behind_periodic_unbounded(
    lo: nat,
    w: spec_fn(nat) -> bool,
    g: spec_fn(nat) -> bool,
    c: nat,
    p: nat,
)
    requires
        p > 0,
        periodic_from(w, c, p),
        periodic_from(g, c, p),
    ensures
        periodic_from(behind_fn(lo, None, w, g), c + lo + p, p),
{
    assert forall|t: nat| c + lo + p <= t implies #[trigger] behind_fn(lo, None, w, g)(t + p)
        == behind_fn(lo, None, w, g)(t) by {
        let u = (t - p) as nat;
        lemma_behind_recurrence(lo, w, g, p, t);
        lemma_behind_recurrence(lo, w, g, p, u);
        assert(u + p == t);
        lemma_past_local_periodic(lo, w, g, c, p, u);
        lemma_carry_periodic(g, c, p, u);
    }
}

proof fn lemma_past_local_periodic(
    lo: nat,
    w: spec_fn(nat) -> bool,
    g: spec_fn(nat) -> bool,
    c: nat,
    p: nat,
    t: nat,
)
    requires
        p > 0,
        periodic_from(w, c, p),
        periodic_from(g, c, p),
        c + lo <= t,
    ensures
        past_local(lo, w, g, p, t + p) == past_local(lo, w, g, p, t),
{
    if past_local(lo, w, g, p, t + p) {
        let d = choose|d: nat| d < lo + p && #[trigger] behind_at(lo, None, w, g, t + p + p, d);
        lemma_step(w, c, p, (t + p - d) as nat);
        assert((t + p + p - d) as nat == (t + p - d) as nat + p);
        assert forall|e: nat| e < d implies #[trigger] before(g, t + p, e) by {
            assert(before(g, t + p + p, e));
            lemma_step(g, c, p, (t + p - e) as nat);
            assert((t + p + p - e) as nat == (t + p - e) as nat + p);
        }
        assert(behind_at(lo, None, w, g, t + p, d));
    }
    if past_local(lo, w, g, p, t) {
        let d = choose|d: nat| d < lo + p && #[trigger] behind_at(lo, None, w, g, t + p, d);
        lemma_step(w, c, p, (t + p - d) as nat);
        assert((t + p + p - d) as nat == (t + p - d) as nat + p);
        assert forall|e: nat| e < d implies #[trigger] before(g, t + p + p, e) by {
            assert(before(g, t + p, e));
            lemma_step(g, c, p, (t + p - e) as nat);
            assert((t + p + p - e) as nat == (t + p - e) as nat + p);
        }
        assert(behind_at(lo, None, w, g, t + p + p, d));
    }
}

proof fn lemma_carry_periodic(g: spec_fn(nat) -> bool, c: nat, p: nat, t: nat)
    requires
        periodic_from(g, c, p),
        c <= t,
    ensures
        guarded_before(g, t + p + p, p) == guarded_before(g, t + p, p),
{
    if guarded_before(g, t + p + p, p) {
        assert forall|e: nat| e < p implies #[trigger] before(g, t + p, e) by {
            assert(before(g, t + p + p, e));
            lemma_step(g, c, p, (t + p - e) as nat);
            assert((t + p + p - e) as nat == (t + p - e) as nat + p);
        }
    }
    if guarded_before(g, t + p, p) {
        assert forall|e: nat| e < p implies #[trigger] before(g, t + p + p, e) by {
            assert(before(g, t + p, e));
            lemma_step(g, c, p, (t + p - e) as nat);
            assert((t + p + p - e) as nat == (t + p - e) as nat + p);
        }
    }
}

/// The past clause over operands periodic from `c` is periodic from `c + offset + p`,
/// where `offset` is the upper bound of a closed interval and the lower bound otherwise.
pub proof fn lemma_behind_periodic(
    lo: nat,
    hi: Option<nat>,
    w: spec_fn(nat) -> bool,
    g: spec_fn(nat) -> bool,
    c: nat,
    p: nat,
)
    requires
        p > 0,
        periodic_from(w, c, p),
        periodic_from(g, c, p),
    ensures
        periodic_from(
            behind_fn(lo, hi, w, g),
            c + match hi {
                Some(b) => b,
                None => lo,
            } + p,
            p,
        ),
{
    match hi {
        Some(b) => {
            lemma_behind_periodic_closed(lo, b, w, g, c, p);
        },
        None => {
            lemma_behind_periodic_unbounded(lo, w, g, c, p);
        },
    }
}

} // verus!
