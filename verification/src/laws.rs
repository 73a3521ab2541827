//! Laws of the semantics and of the evaluators: dualities, lasso unrolling,
//! ultimate periodicity, and what fairness premises and known observations
//! can and cannot change in an outcome.

use vstd::prelude::*;
use vstd::arithmetic::div_mod::{lemma_mod_add_multiples_vanish, lemma_small_mod};
use crate::{Evidence, Formula, Interval, Limits, Verdict};
use crate::atoms::atoms_of;
use crate::lasso::{
    admission, cell_keys, completion, deepest, evaluation, evidence_of, fill, has_kind, is_unknown, known,
    offset_of, premise_atoms, row_of, step, tally, universe,
};
use crate::atoms::depth_of;
use crate::semantics::{
    cell_of, denote, lasso_val, negate, periodic_from, sem, lemma_ahead_periodic,
    lemma_behind_periodic, lemma_negate_periodic,
};
use crate::sequence::{lemma_periodic_later, plan};

verus! {

proof fn lemma_double_negate(f: spec_fn(nat) -> bool)
    ensures
        negate(negate(f)) == f,
{
    assert(negate(negate(f)) =~= f);
}

/// Double negation changes nothing: `!!p` means `p`.
pub proof fn law_double_negation(p: Formula, val: spec_fn(u32, nat) -> bool)
    ensures
        denote(Formula::Not(Box::new(Formula::Not(Box::new(p)))), val) == denote(p, val),
{
    assert(denote(Formula::Not(Box::new(p)), val) == negate(denote(p, val)));
    lemma_double_negate(denote(p, val));
}

/// `F[r] p` means `!G[r] !p`.
pub proof fn law_future_globally_duality(r: Interval, p: Formula, val: spec_fn(u32, nat) -> bool)
    ensures
        denote(Formula::Future(r, Box::new(p)), val)
            == denote(Formula::Not(Box::new(Formula::Globally(r, Box::new(Formula::Not(Box::new(p)))))), val),
{
    let np = Formula::Not(Box::new(p));
    assert(denote(np, val) == negate(denote(p, val)));
    lemma_double_negate(denote(p, val));
    let g = Formula::Globally(r, Box::new(np));
    assert(denote(g, val) == negate(denote(Formula::Future(r, Box::new(p)), val)));
    lemma_double_negate(denote(Formula::Future(r, Box::new(p)), val));
}

/// `p U[r] q` means `!(!p R[r] !q)`.
pub proof fn law_until_release_duality(r: Interval, p: Formula, q: Formula, val: spec_fn(u32, nat) -> bool)
    ensures
        denote(Formula::Until(r, Box::new(p), Box::new(q)), val) == denote(
            Formula::Not(Box::new(Formula::Release(r, Box::new(Formula::Not(Box::new(p))), Box::new(Formula::Not(Box::new(q)))))),
            val,
        ),
{
    let np = Formula::Not(Box::new(p));
    let nq = Formula::Not(Box::new(q));
    assert(denote(np, val) == negate(denote(p, val)));
    assert(denote(nq, val) == negate(denote(q, val)));
    lemma_double_negate(denote(p, val));
    lemma_double_negate(denote(q, val));
    let rel = Formula::Release(r, Box::new(np), Box::new(nq));
    assert(denote(rel, val) == negate(denote(Formula::Until(r, Box::new(p), Box::new(q)), val)));
    lemma_double_negate(denote(Formula::Until(r, Box::new(p), Box::new(q)), val));
}

/// `O[r] p` means `!H[r] !p`.
pub proof fn law_once_historically_duality(r: Interval, p: Formula, val: spec_fn(u32, nat) -> bool)
    ensures
        denote(Formula::Once(r, Box::new(p)), val)
            == denote(Formula::Not(Box::new(Formula::Historically(r, Box::new(Formula::Not(Box::new(p)))))), val),
{
    let np = Formula::Not(Box::new(p));
    assert(denote(np, val) == negate(denote(p, val)));
    lemma_double_negate(denote(p, val));
    let h = Formula::Historically(r, Box::new(np));
    assert(denote(h, val) == negate(denote(Formula::Once(r, Box::new(p)), val)));
    lemma_double_negate(denote(Formula::Once(r, Box::new(p)), val));
}

/// `p S[r] q` means `!(!p T[r] !q)`.
pub proof fn law_since_triggered_duality(r: Interval, p: Formula, q: Formula, val: spec_fn(u32, nat) -> bool)
    ensures
        denote(Formula::Since(r, Box::new(p), Box::new(q)), val) == denote(
            Formula::Not(Box::new(Formula::Triggered(r, Box::new(Formula::Not(Box::new(p))), Box::new(Formula::Not(Box::new(q)))))),
            val,
        ),
{
    let np = Formula::Not(Box::new(p));
    let nq = Formula::Not(Box::new(q));
    assert(denote(np, val) == negate(denote(p, val)));
    assert(denote(nq, val) == negate(denote(q, val)));
    lemma_double_negate(denote(p, val));
    lemma_double_negate(denote(q, val));
    let trig = Formula::Triggered(r, Box::new(np), Box::new(nq));
    assert(denote(trig, val) == negate(denote(Formula::Since(r, Box::new(p), Box::new(q)), val)));
    lemma_double_negate(denote(Formula::Since(r, Box::new(p), Box::new(q)), val));
}

/// The lasso with one more lap of its loop moved into the prefix.
pub open spec fn unrolled<T>(cells: Seq<T>, entry: nat) -> Seq<T> {
    cells + cells.subrange(entry as int, cells.len() as int)
}

/// Moving one lap of the loop into the prefix describes the same infinite word.
pub proof fn law_unrolling_keeps_word(cells: Seq<Map<u32, bool>>, entry: nat)
    requires
        entry < cells.len(),
    ensures
        lasso_val(unrolled(cells, entry), cells.len()) == lasso_val(cells, entry),
{
    let n = cells.len();
    let lap = (n - entry) as nat;
    let u = unrolled(cells, entry);
    assert(u.len() == n + lap);
    assert forall|t: nat| #[trigger] cell_of(u.len(), n, t) < u.len()
        && u[cell_of(u.len(), n, t) as int] == cells[cell_of(n, entry, t) as int] by {
        if t < n {
        } else if t < n + lap {
            let x = (t - n) as nat;
            lemma_mod_add_multiples_vanish(x as int, lap as int);
            lemma_small_mod(x, lap);
            assert((t - entry) as nat == x + lap);
        } else {
            let x = ((t - n) as nat % lap) as nat;
            lemma_mod_add_multiples_vanish((t - n) as int, lap as int);
            assert((t - entry) as int == (t - n) as int + lap);
            assert(x < lap) by {
                vstd::arithmetic::div_mod::lemma_mod_bound((t - n) as int, lap as int);
            }
        }
    }
    assert(lasso_val(u, n) =~= lasso_val(cells, entry)) by {
        assert forall|a: u32, t: nat| #[trigger] lasso_val(u, n)(a, t) == lasso_val(cells, entry)(a, t) by {
            assert(cell_of(u.len(), n, t) < u.len());
        }
    }
}

/// Every formula means the same on a lasso and on its unrolling.
pub proof fn law_unrolling_keeps_meaning(f: Formula, cells: Seq<Map<u32, bool>>, entry: nat)
    requires
        entry < cells.len(),
    ensures
        sem(f, unrolled(cells, entry), cells.len()) == sem(f, cells, entry),
{
    law_unrolling_keeps_word(cells, entry);
}

/// A position from which the denotation of `f` on a lasso of `len` cells repeats with the loop.
pub open spec fn settles(f: Formula, len: nat) -> nat
    decreases f,
{
    match f {
        Formula::False | Formula::True | Formula::Atom(_) => len,
        Formula::Not(p) => settles(*p, len),
        Formula::And(p, q) | Formula::Or(p, q) | Formula::Implies(p, q) | Formula::Equivalent(p, q) => {
            let a = settles(*p, len);
            let b = settles(*q, len);
            if a >= b { a } else { b }
        },
        Formula::Future(_, p) | Formula::Globally(_, p) => settles(*p, len),
        Formula::Until(_, p, q) | Formula::Release(_, p, q) => {
            let a = settles(*p, len);
            let b = settles(*q, len);
            if a >= b { a } else { b }
        },
        Formula::Once(r, p) | Formula::Historically(r, p) => settles(*p, len) + match r.upper() {
            Some(b) => b,
            None => r.lower(),
        } + len,
        Formula::Since(r, p, q) | Formula::Triggered(r, p, q) => {
            let a = settles(*p, len);
            let b = settles(*q, len);
            (if a >= b { a } else { b }) + match r.upper() {
                Some(b) => b,
                None => r.lower(),
            } + len
        },
        Formula::StrongPrevious(p) => settles(*p, len) + 1 + len,
    }
}

/// The denotation of every formula on a lasso repeats with the length of the
/// loop from [`settles`] on: the semantics never needs more than a bounded
/// number of laps to reach its steady state.
pub proof fn law_ultimately_periodic(f: Formula, cells: Seq<Map<u32, bool>>, entry: nat)
    requires
        entry < cells.len(),
    ensures
        periodic_from(sem(f, cells, entry), settles(f, cells.len()), (cells.len() - entry) as nat),
    decreases f,
{
    let n = cells.len();
    let lap = (n - entry) as nat;
    let val = lasso_val(cells, entry);
    assert(settles(f, n) >= n) by {
        lemma_settles_floor(f, n);
    }
    match f {
        Formula::False | Formula::True => {},
        Formula::Atom(a) => {
            assert forall|t: nat| n <= t implies #[trigger] sem(f, cells, entry)(t + lap) == sem(f, cells, entry)(t) by {
                lemma_mod_add_multiples_vanish((t - entry) as int, lap as int);
                assert((t + lap - entry) as int == (t - entry) as int + lap);
            }
        },
        Formula::Not(p) => {
            law_ultimately_periodic(*p, cells, entry);
            lemma_negate_periodic(sem(*p, cells, entry), settles(*p, n), lap);
        },
        Formula::And(p, q) | Formula::Or(p, q) | Formula::Implies(p, q) | Formula::Equivalent(p, q) => {
            law_ultimately_periodic(*p, cells, entry);
            law_ultimately_periodic(*q, cells, entry);
            let s = settles(f, n);
            lemma_periodic_later(sem(*p, cells, entry), settles(*p, n), s, lap);
            lemma_periodic_later(sem(*q, cells, entry), settles(*q, n), s, lap);
            assert forall|t: nat| s <= t implies #[trigger] sem(f, cells, entry)(t + lap) == sem(f, cells, entry)(t) by {
                assert(sem(*p, cells, entry)(t + lap) == sem(*p, cells, entry)(t));
                assert(sem(*q, cells, entry)(t + lap) == sem(*q, cells, entry)(t));
            }
        },
        Formula::Future(r, p) => {
            law_ultimately_periodic(*p, cells, entry);
            let s = settles(*p, n);
            lemma_ahead_periodic(r.lower(), r.upper(), denote(*p, val), crate::semantics::always(), s, lap);
        },
        Formula::Globally(r, p) => {
            law_ultimately_periodic(*p, cells, entry);
            let s = settles(*p, n);
            lemma_negate_periodic(denote(*p, val), s, lap);
            lemma_ahead_periodic(r.lower(), r.upper(), negate(denote(*p, val)), crate::semantics::always(), s, lap);
            lemma_negate_periodic(crate::semantics::ahead_fn(r.lower(), r.upper(), negate(denote(*p, val)), crate::semantics::always()), s, lap);
        },
        Formula::Until(r, p, q) => {
            law_ultimately_periodic(*p, cells, entry);
            law_ultimately_periodic(*q, cells, entry);
            let s = settles(f, n);
            lemma_periodic_later(sem(*p, cells, entry), settles(*p, n), s, lap);
            lemma_periodic_later(sem(*q, cells, entry), settles(*q, n), s, lap);
            lemma_ahead_periodic(r.lower(), r.upper(), denote(*q, val), denote(*p, val), s, lap);
        },
        Formula::Release(r, p, q) => {
            law_ultimately_periodic(*p, cells, entry);
            law_ultimately_periodic(*q, cells, entry);
            let s = settles(f, n);
            lemma_periodic_later(sem(*p, cells, entry), settles(*p, n), s, lap);
            lemma_periodic_later(sem(*q, cells, entry), settles(*q, n), s, lap);
            lemma_negate_periodic(denote(*p, val), s, lap);
            lemma_negate_periodic(denote(*q, val), s, lap);
            lemma_ahead_periodic(r.lower(), r.upper(), negate(denote(*q, val)), negate(denote(*p, val)), s, lap);
            lemma_negate_periodic(
                crate::semantics::ahead_fn(r.lower(), r.upper(), negate(denote(*q, val)), negate(denote(*p, val))),
                s,
                lap,
            );
        },
        Formula::Once(r, p) => {
            law_ultimately_periodic(*p, cells, entry);
            let s = settles(*p, n);
            assert(periodic_from(crate::semantics::always(), s, lap));
            lemma_behind_periodic(r.lower(), r.upper(), denote(*p, val), crate::semantics::always(), s, lap);
            lemma_periodic_later(
                crate::semantics::behind_fn(r.lower(), r.upper(), denote(*p, val), crate::semantics::always()),
                s + match r.upper() { Some(b) => b, None => r.lower() } + lap,
                settles(f, n),
                lap,
            );
        },
        Formula::Historically(r, p) => {
            law_ultimately_periodic(*p, cells, entry);
            let s = settles(*p, n);
            assert(periodic_from(crate::semantics::always(), s, lap));
            lemma_negate_periodic(denote(*p, val), s, lap);
            let b = crate::semantics::behind_fn(r.lower(), r.upper(), negate(denote(*p, val)), crate::semantics::always());
            lemma_behind_periodic(r.lower(), r.upper(), negate(denote(*p, val)), crate::semantics::always(), s, lap);
            lemma_periodic_later(b, s + match r.upper() { Some(b) => b, None => r.lower() } + lap, settles(f, n), lap);
            lemma_negate_periodic(b, settles(f, n), lap);
        },
        Formula::Since(r, p, q) => {
            law_ultimately_periodic(*p, cells, entry);
            law_ultimately_periodic(*q, cells, entry);
            let a = settles(*p, n);
            let c = settles(*q, n);
            let s = if a >= c { a } else { c };
            lemma_periodic_later(sem(*p, cells, entry), a, s, lap);
            lemma_periodic_later(sem(*q, cells, entry), c, s, lap);
            let b = crate::semantics::behind_fn(r.lower(), r.upper(), denote(*q, val), denote(*p, val));
            lemma_behind_periodic(r.lower(), r.upper(), denote(*q, val), denote(*p, val), s, lap);
            lemma_periodic_later(b, s + match r.upper() { Some(b) => b, None => r.lower() } + lap, settles(f, n), lap);
        },
        Formula::Triggered(r, p, q) => {
            law_ultimately_periodic(*p, cells, entry);
            law_ultimately_periodic(*q, cells, entry);
            let a = settles(*p, n);
            let c = settles(*q, n);
            let s = if a >= c { a } else { c };
            lemma_periodic_later(sem(*p, cells, entry), a, s, lap);
            lemma_periodic_later(sem(*q, cells, entry), c, s, lap);
            lemma_negate_periodic(denote(*p, val), s, lap);
            lemma_negate_periodic(denote(*q, val), s, lap);
            let b = crate::semantics::behind_fn(r.lower(), r.upper(), negate(denote(*q, val)), negate(denote(*p, val)));
            lemma_behind_periodic(r.lower(), r.upper(), negate(denote(*q, val)), negate(denote(*p, val)), s, lap);
            lemma_periodic_later(b, s + match r.upper() { Some(b) => b, None => r.lower() } + lap, settles(f, n), lap);
            lemma_negate_periodic(b, settles(f, n), lap);
        },
        Formula::StrongPrevious(p) => {
            law_ultimately_periodic(*p, cells, entry);
            let s = settles(*p, n);
            assert(periodic_from(crate::semantics::always(), s, lap));
            lemma_behind_periodic(1, Some(1), denote(*p, val), crate::semantics::always(), s, lap);
            lemma_periodic_later(
                crate::semantics::behind_fn(1, Some(1), denote(*p, val), crate::semantics::always()),
                s + 1 + lap,
                settles(f, n),
                lap,
            );
        },
    }
}

proof fn lemma_settles_floor(f: Formula, len: nat)
    ensures
        settles(f, len) >= len,
    decreases f,
{
    match f {
        Formula::False | Formula::True | Formula::Atom(_) => {},
        Formula::Not(p) | Formula::Future(_, p) | Formula::Globally(_, p) | Formula::Once(_, p)
        | Formula::Historically(_, p) | Formula::StrongPrevious(p) => lemma_settles_floor(*p, len),
        Formula::And(p, q) | Formula::Or(p, q) | Formula::Implies(p, q) | Formula::Equivalent(p, q)
        | Formula::Until(_, p, q) | Formula::Release(_, p, q) | Formula::Since(_, p, q)
        | Formula::Triggered(_, p, q) => {
            lemma_settles_floor(*p, len);
            lemma_settles_floor(*q, len);
        },
    }
}

/// Two tallies that agree on every completion that both reach agree.
proof fn lemma_tally_congruent(
    c1: Formula,
    c2: Formula,
    fs: Seq<Formula>,
    cells: Seq<Map<u32, Evidence>>,
    atoms: Seq<u32>,
    entry: nat,
    limits: Limits,
    position: nat,
    m: nat,
)
    requires
        forall|val: spec_fn(u32, nat) -> bool| #[trigger] denote(c1, val) == denote(c2, val),
        tally(c1, fs, cells, atoms, entry, limits, position, m) is Ok,
        tally(c2, fs, cells, atoms, entry, limits, position, m) is Ok,
    ensures
        tally(c1, fs, cells, atoms, entry, limits, position, m) == tally(c2, fs, cells, atoms, entry, limits, position, m),
    decreases m,
{
    reveal(tally);
    if m > 0 {
        let k = (m - 1) as nat;
        lemma_tally_congruent(c1, c2, fs, cells, atoms, entry, limits, position, k);
        let w = completion(cells, atoms, k as usize);
        assert(denote(c1, lasso_val(w, entry)) == denote(c2, lasso_val(w, entry)));
    }
}

/// Two claims that mean the same on every word and reference the same
/// propositions receive the same outcome whenever both are evaluated: the
/// outcome depends on a claim only through its meaning and its propositions.
pub proof fn law_same_meaning_same_outcome(
    c1: Formula,
    c2: Formula,
    fs: Seq<Formula>,
    cells: Seq<Map<u32, Evidence>>,
    entry: nat,
    position: nat,
    limits: Limits,
)
    requires
        forall|val: spec_fn(u32, nat) -> bool| #[trigger] denote(c1, val) == denote(c2, val),
        atoms_of(c1) == atoms_of(c2),
        evaluation(c1, fs, cells, entry, position, limits) is Ok,
        evaluation(c2, fs, cells, entry, position, limits) is Ok,
    ensures
        evaluation(c1, fs, cells, entry, position, limits) == evaluation(c2, fs, cells, entry, position, limits),
{
    assert(universe(c1, fs, cells) == universe(c2, fs, cells));
    let atoms = crate::atoms::sorted(universe(c1, fs, cells));
    let n = crate::lasso::offset_of(atoms, cells, cells.len());
    if n < usize::BITS {
        let m = (1usize << (n as usize)) as nat;
        lemma_tally_congruent(c1, c2, fs, cells, atoms, entry, limits, position, m);
    }
}

/// `F[r] p` and `!G[r] !p` receive the same outcome whenever both are evaluated.
pub proof fn law_future_globally_outcome(
    r: Interval,
    p: Formula,
    fs: Seq<Formula>,
    cells: Seq<Map<u32, Evidence>>,
    entry: nat,
    position: nat,
    limits: Limits,
)
    requires
        evaluation(Formula::Future(r, Box::new(p)), fs, cells, entry, position, limits) is Ok,
        evaluation(Formula::Not(Box::new(Formula::Globally(r, Box::new(Formula::Not(Box::new(p)))))), fs, cells, entry, position, limits) is Ok,
    ensures
        evaluation(Formula::Future(r, Box::new(p)), fs, cells, entry, position, limits)
            == evaluation(Formula::Not(Box::new(Formula::Globally(r, Box::new(Formula::Not(Box::new(p)))))), fs, cells, entry, position, limits),
{
    let c1 = Formula::Future(r, Box::new(p));
    let c2 = Formula::Not(Box::new(Formula::Globally(r, Box::new(Formula::Not(Box::new(p))))));
    assert forall|val: spec_fn(u32, nat) -> bool| #[trigger] denote(c1, val) == denote(c2, val) by {
        law_future_globally_duality(r, p, val);
    }
    let np = Formula::Not(Box::new(p));
    assert(atoms_of(np) == atoms_of(p));
    assert(atoms_of(Formula::Globally(r, Box::new(np))) == atoms_of(np));
    law_same_meaning_same_outcome(c1, c2, fs, cells, entry, position, limits);
}

/// `p U[r] q` and `!(!p R[r] !q)` receive the same outcome whenever both are evaluated.
pub proof fn law_until_release_outcome(
    r: Interval,
    p: Formula,
    q: Formula,
    fs: Seq<Formula>,
    cells: Seq<Map<u32, Evidence>>,
    entry: nat,
    position: nat,
    limits: Limits,
)
    requires
        evaluation(Formula::Until(r, Box::new(p), Box::new(q)), fs, cells, entry, position, limits) is Ok,
        evaluation(
            Formula::Not(Box::new(Formula::Release(r, Box::new(Formula::Not(Box::new(p))), Box::new(Formula::Not(Box::new(q)))))),
            fs, cells, entry, position, limits,
        ) is Ok,
    ensures
        evaluation(Formula::Until(r, Box::new(p), Box::new(q)), fs, cells, entry, position, limits) == evaluation(
            Formula::Not(Box::new(Formula::Release(r, Box::new(Formula::Not(Box::new(p))), Box::new(Formula::Not(Box::new(q)))))),
            fs, cells, entry, position, limits,
        ),
{
    let c1 = Formula::Until(r, Box::new(p), Box::new(q));
    let c2 = Formula::Not(Box::new(Formula::Release(r, Box::new(Formula::Not(Box::new(p))), Box::new(Formula::Not(Box::new(q))))));
    assert forall|val: spec_fn(u32, nat) -> bool| #[trigger] denote(c1, val) == denote(c2, val) by {
        law_until_release_duality(r, p, q, val);
    }
    let np = Formula::Not(Box::new(p));
    let nq = Formula::Not(Box::new(q));
    assert(atoms_of(np) == atoms_of(p));
    assert(atoms_of(nq) == atoms_of(q));
    assert(atoms_of(Formula::Release(r, Box::new(np), Box::new(nq))) == atoms_of(np) + atoms_of(nq));
    law_same_meaning_same_outcome(c1, c2, fs, cells, entry, position, limits);
}

/// `O[r] p` and `!H[r] !p` receive the same outcome whenever both are evaluated.
pub proof fn law_once_historically_outcome(
    r: Interval,
    p: Formula,
    fs: Seq<Formula>,
    cells: Seq<Map<u32, Evidence>>,
    entry: nat,
    position: nat,
    limits: Limits,
)
    requires
        evaluation(Formula::Once(r, Box::new(p)), fs, cells, entry, position, limits) is Ok,
        evaluation(Formula::Not(Box::new(Formula::Historically(r, Box::new(Formula::Not(Box::new(p)))))), fs, cells, entry, position, limits) is Ok,
    ensures
        evaluation(Formula::Once(r, Box::new(p)), fs, cells, entry, position, limits)
            == evaluation(Formula::Not(Box::new(Formula::Historically(r, Box::new(Formula::Not(Box::new(p)))))), fs, cells, entry, position, limits),
{
    let c1 = Formula::Once(r, Box::new(p));
    let c2 = Formula::Not(Box::new(Formula::Historically(r, Box::new(Formula::Not(Box::new(p))))));
    assert forall|val: spec_fn(u32, nat) -> bool| #[trigger] denote(c1, val) == denote(c2, val) by {
        law_once_historically_duality(r, p, val);
    }
    let np = Formula::Not(Box::new(p));
    assert(atoms_of(np) == atoms_of(p));
    assert(atoms_of(Formula::Historically(r, Box::new(np))) == atoms_of(np));
    law_same_meaning_same_outcome(c1, c2, fs, cells, entry, position, limits);
}

/// `p S[r] q` and `!(!p T[r] !q)` receive the same outcome whenever both are evaluated.
pub proof fn law_since_triggered_outcome(
    r: Interval,
    p: Formula,
    q: Formula,
    fs: Seq<Formula>,
    cells: Seq<Map<u32, Evidence>>,
    entry: nat,
    position: nat,
    limits: Limits,
)
    requires
        evaluation(Formula::Since(r, Box::new(p), Box::new(q)), fs, cells, entry, position, limits) is Ok,
        evaluation(
            Formula::Not(Box::new(Formula::Triggered(r, Box::new(Formula::Not(Box::new(p))), Box::new(Formula::Not(Box::new(q)))))),
            fs, cells, entry, position, limits,
        ) is Ok,
    ensures
        evaluation(Formula::Since(r, Box::new(p), Box::new(q)), fs, cells, entry, position, limits) == evaluation(
            Formula::Not(Box::new(Formula::Triggered(r, Box::new(Formula::Not(Box::new(p))), Box::new(Formula::Not(Box::new(q)))))),
            fs, cells, entry, position, limits,
        ),
{
    let c1 = Formula::Since(r, Box::new(p), Box::new(q));
    let c2 = Formula::Not(Box::new(Formula::Triggered(r, Box::new(Formula::Not(Box::new(p))), Box::new(Formula::Not(Box::new(q))))));
    assert forall|val: spec_fn(u32, nat) -> bool| #[trigger] denote(c1, val) == denote(c2, val) by {
        law_since_triggered_duality(r, p, q, val);
    }
    let np = Formula::Not(Box::new(p));
    let nq = Formula::Not(Box::new(q));
    assert(atoms_of(np) == atoms_of(p));
    assert(atoms_of(nq) == atoms_of(q));
    assert(atoms_of(Formula::Triggered(r, Box::new(np), Box::new(nq))) == atoms_of(np) + atoms_of(nq));
    law_same_meaning_same_outcome(c1, c2, fs, cells, entry, position, limits);
}

/// `!!p` and `p` receive the same outcome whenever both are evaluated.
pub proof fn law_double_negation_outcome(
    p: Formula,
    fs: Seq<Formula>,
    cells: Seq<Map<u32, Evidence>>,
    entry: nat,
    position: nat,
    limits: Limits,
)
    requires
        evaluation(Formula::Not(Box::new(Formula::Not(Box::new(p)))), fs, cells, entry, position, limits) is Ok,
        evaluation(p, fs, cells, entry, position, limits) is Ok,
    ensures
        evaluation(Formula::Not(Box::new(Formula::Not(Box::new(p)))), fs, cells, entry, position, limits)
            == evaluation(p, fs, cells, entry, position, limits),
{
    let c1 = Formula::Not(Box::new(Formula::Not(Box::new(p))));
    assert forall|val: spec_fn(u32, nat) -> bool| #[trigger] denote(c1, val) == denote(p, val) by {
        law_double_negation(p, val);
    }
    assert(atoms_of(Formula::Not(Box::new(p))) == atoms_of(p));
    law_same_meaning_same_outcome(c1, p, fs, cells, entry, position, limits);
}

/// The first `k` premises of a longer list contribute the same propositions.
proof fn lemma_premise_atoms_prefix(fs: Seq<Formula>, f: Formula, k: nat)
    requires
        k <= fs.len(),
    ensures
        premise_atoms(fs.push(f), k) == premise_atoms(fs, k),
    decreases k,
{
    if k > 0 {
        lemma_premise_atoms_prefix(fs, f, (k - 1) as nat);
        assert(fs.push(f)[k - 1] == fs[k - 1]);
    }
}

/// The first `k` premises of a longer list admit the same completions.
proof fn lemma_admission_prefix(fs: Seq<Formula>, f: Formula, k: nat, word: Seq<Map<u32, bool>>, entry: nat, limits: Limits)
    requires
        k <= fs.len(),
    ensures
        admission(fs.push(f), k, word, entry, limits) == admission(fs, k, word, entry, limits),
    decreases k,
{
    if k > 0 {
        lemma_admission_prefix(fs, f, (k - 1) as nat, word, entry, limits);
        assert(fs.push(f)[k - 1] == fs[k - 1]);
    }
}

/// With one more premise a tally admits no value the shorter list did not, and no more completions.
proof fn lemma_tally_premise(
    claim: Formula,
    fs: Seq<Formula>,
    f: Formula,
    cells: Seq<Map<u32, Evidence>>,
    atoms: Seq<u32>,
    entry: nat,
    limits: Limits,
    position: nat,
    m: nat,
)
    requires
        tally(claim, fs, cells, atoms, entry, limits, position, m) is Ok,
        tally(claim, fs.push(f), cells, atoms, entry, limits, position, m) is Ok,
    ensures
        ({
            let a = tally(claim, fs.push(f), cells, atoms, entry, limits, position, m)->Ok_0;
            let b = tally(claim, fs, cells, atoms, entry, limits, position, m)->Ok_0;
            &&& a.0 ==> b.0
            &&& a.1 ==> b.1
            &&& a.2 <= b.2
            &&& b.2 <= m
        }),
    decreases m,
{
    reveal(tally);
    if m > 0 {
        let k = (m - 1) as nat;
        lemma_tally_premise(claim, fs, f, cells, atoms, entry, limits, position, k);
        let w = completion(cells, atoms, k as usize);
        lemma_admission_prefix(fs, f, fs.len(), w, entry, limits);
        assert(fs.push(f).len() == fs.len() + 1);
    }
}

/// A fairness premise whose propositions the evaluation already enumerates
/// only removes admitted completions: with it, no claim value becomes possible
/// that was not possible without it, and no more completions are admitted.
pub proof fn law_premise_only_removes(
    claim: Formula,
    fs: Seq<Formula>,
    f: Formula,
    cells: Seq<Map<u32, Evidence>>,
    entry: nat,
    position: nat,
    limits: Limits,
)
    requires
        atoms_of(f).subset_of(universe(claim, fs, cells)),
        evaluation(claim, fs, cells, entry, position, limits) is Ok,
        evaluation(claim, fs.push(f), cells, entry, position, limits) is Ok,
    ensures
        ({
            let a = evaluation(claim, fs.push(f), cells, entry, position, limits)->Ok_0;
            let b = evaluation(claim, fs, cells, entry, position, limits)->Ok_0;
            &&& a.possible_true ==> b.possible_true
            &&& a.possible_false ==> b.possible_false
            &&& a.fair_completions <= b.fair_completions
        }),
{
    lemma_premise_atoms_prefix(fs, f, fs.len());
    assert(fs.push(f).len() == fs.len() + 1);
    assert(fs.push(f)[fs.len() as int] == f);
    assert(premise_atoms(fs.push(f), fs.push(f).len()) == premise_atoms(fs, fs.len()) + atoms_of(f));
    assert(universe(claim, fs.push(f), cells) =~= universe(claim, fs, cells));
    let atoms = crate::atoms::sorted(universe(claim, fs, cells));
    let n = crate::lasso::offset_of(atoms, cells, cells.len());
    if n < usize::BITS {
        let m = (1usize << (n as usize)) as nat;
        lemma_tally_premise(claim, fs, f, cells, atoms, entry, limits, position, m);
    }
}

/// Adding a premise that the limits admit keeps an evaluation concluded: if
/// the evaluation without it has an outcome, and the premise is no deeper than
/// the depth limit, mentions only enumerated propositions and materializes on
/// every completion, then with it the evaluation has an outcome or is refused
/// for want of admitted completions, never for anything else.
pub proof fn law_premise_keeps_conclusion(
    claim: Formula,
    fs: Seq<Formula>,
    f: Formula,
    cells: Seq<Map<u32, Evidence>>,
    entry: nat,
    position: nat,
    limits: Limits,
)
    requires
        atoms_of(f).subset_of(universe(claim, fs, cells)),
        depth_of(f) <= limits.max_depth,
        forall|m: nat| m < (1usize << (crate::census::open_observations(claim, fs, cells) as usize)) as nat
            ==> #[trigger] plan(f, completion(cells, crate::atoms::sorted(universe(claim, fs, cells)), m as usize), entry, limits) is Ok,
        evaluation(claim, fs, cells, entry, position, limits) is Ok,
    ensures
        evaluation(claim, fs.push(f), cells, entry, position, limits) is Ok
            || evaluation(claim, fs.push(f), cells, entry, position, limits)
                == Err::<crate::Outcome, crate::OracleError>(crate::OracleError::EmptyFairAdmission),
{
    let g = fs.push(f);
    lemma_premise_atoms_prefix(fs, f, fs.len());
    assert(g.len() == fs.len() + 1);
    assert(g[fs.len() as int] == f);
    assert(premise_atoms(g, g.len()) == premise_atoms(fs, fs.len()) + atoms_of(f));
    assert(universe(claim, g, cells) =~= universe(claim, fs, cells));
    lemma_deepest_prefix(claim, fs, f, fs.len());
    assert(deepest(claim, g, g.len()) == crate::atoms::larger(deepest(claim, g, fs.len()), depth_of(f)));
    let atoms = crate::atoms::sorted(universe(claim, fs, cells));
    let n = offset_of(atoms, cells, cells.len());
    let mm = (1usize << (n as usize)) as nat;
    crate::refinement::lemma_tally_steps(claim, fs, cells, atoms, entry, limits, position, mm);
    assert forall|m: nat| m < mm implies #[trigger] step(claim, g, completion(cells, atoms, m as usize), entry, limits, position) is Ok by {
        let w = completion(cells, atoms, m as usize);
        assert(step(claim, fs, w, entry, limits, position) is Ok);
        lemma_admission_prefix(fs, f, fs.len(), w, entry, limits);
        assert(plan(f, w, entry, limits) is Ok);
    }
    crate::agreement::lemma_tally_ok(claim, g, cells, atoms, entry, limits, position, mm);
}

/// The deepest of the claim and the first `k` premises is unchanged by a premise added after them.
proof fn lemma_deepest_prefix(claim: Formula, fs: Seq<Formula>, f: Formula, k: nat)
    requires
        k <= fs.len(),
    ensures
        deepest(claim, fs.push(f), k) == deepest(claim, fs, k),
    decreases k,
{
    if k > 0 {
        lemma_deepest_prefix(claim, fs, f, (k - 1) as nat);
        assert(fs.push(f)[k - 1] == fs[k - 1]);
    }
}

/// The unknown propositions of a cell are unknown in it.
proof fn lemma_row_unknown(atoms: Seq<u32>, cell: Map<u32, Evidence>, a: u32)
    requires
        row_of(atoms, cell).contains(a),
    ensures
        is_unknown(evidence_of(cell, a)),
    decreases atoms.len(),
{
    if atoms.len() > 0 {
        let r = row_of(atoms.drop_last(), cell);
        if r.contains(a) {
            lemma_row_unknown(atoms.drop_last(), cell, a);
        } else {
            assert(is_unknown(evidence_of(cell, atoms.last())) && a == atoms.last()) by {
                if !is_unknown(evidence_of(cell, atoms.last())) {
                    assert(row_of(atoms, cell) == r);
                } else {
                    assert(row_of(atoms, cell) == r.push(atoms.last()));
                    let j = choose|j: int| 0 <= j < r.len() + 1 && r.push(atoms.last())[j] == a;
                    if j < r.len() {
                        assert(r[j] == a);
                    }
                }
            }
        }
    }
}

/// A completion keeps every value its cell knows.
proof fn lemma_fill_keeps_known(cell: Map<u32, Evidence>, row: Seq<u32>, mask: usize, base: nat, a: u32)
    requires
        !row.contains(a),
    ensures
        fill(cell, row, mask, base).contains_key(a) == known(cell).contains_key(a),
        known(cell).contains_key(a) ==> fill(cell, row, mask, base)[a] == known(cell)[a],
    decreases row.len(),
{
    if row.len() > 0 {
        assert(!row.drop_last().contains(a)) by {
            if row.drop_last().contains(a) {
                let j = choose|j: int| 0 <= j < row.drop_last().len() && row.drop_last()[j] == a;
                assert(row[j] == a);
            }
        }
        assert(row.last() != a) by {
            assert(row[row.len() - 1] == row.last());
        }
        lemma_fill_keeps_known(cell, row.drop_last(), mask, base, a);
    }
}

/// A completion of a cell that knows `a` false has `a` false.
proof fn lemma_completion_keeps_false(cells: Seq<Map<u32, Evidence>>, atoms: Seq<u32>, mask: usize, i: nat, a: u32)
    requires
        i < cells.len(),
        evidence_of(cells[i as int], a) == Evidence::False,
    ensures
        !crate::semantics::lookup(completion(cells, atoms, mask)[i as int], a),
{
    let cell = cells[i as int];
    let row = row_of(atoms, cell);
    if row.contains(a) {
        lemma_row_unknown(atoms, cell, a);
    }
    lemma_fill_keeps_known(cell, row, mask, crate::lasso::offset_of(atoms, cells, i), a);
}

/// No admitted completion makes `G[0,) a` true at `position` when `a` is known false at a later cell.
proof fn lemma_tally_violation(
    a: u32,
    fs: Seq<Formula>,
    cells: Seq<Map<u32, Evidence>>,
    atoms: Seq<u32>,
    entry: nat,
    limits: Limits,
    position: nat,
    i: nat,
    m: nat,
)
    requires
        position <= i < cells.len(),
        entry < cells.len(),
        evidence_of(cells[i as int], a) == Evidence::False,
        tally(Formula::Globally(Interval::Unbounded { start: 0 }, Box::new(Formula::Atom(a))), fs, cells, atoms, entry, limits, position, m) is Ok,
    ensures
        !tally(Formula::Globally(Interval::Unbounded { start: 0 }, Box::new(Formula::Atom(a))), fs, cells, atoms, entry, limits, position, m)->Ok_0.0,
    decreases m,
{
    reveal(tally);
    let g = Formula::Globally(Interval::Unbounded { start: 0 }, Box::new(Formula::Atom(a)));
    if m > 0 {
        let k = (m - 1) as nat;
        lemma_tally_violation(a, fs, cells, atoms, entry, limits, position, i, k);
        let w = completion(cells, atoms, k as usize);
        lemma_completion_keeps_false(cells, atoms, k as usize, i, a);
        let val = lasso_val(w, entry);
        let p = denote(Formula::Atom(a), val);
        let d = (i - position) as nat;
        assert(w.len() == cells.len());
        assert(!p(i));
        assert(crate::semantics::ahead_at(0, None, negate(p), crate::semantics::always(), position, d));
        assert(!sem(g, w, entry)(position));
    }
}

/// An observation known false refutes "always" from every earlier position:
/// no later loop behaviour and no fairness premise repairs a bad prefix.
pub proof fn law_known_violation_refutes_globally(
    a: u32,
    fs: Seq<Formula>,
    cells: Seq<Map<u32, Evidence>>,
    entry: nat,
    position: nat,
    limits: Limits,
    i: nat,
)
    requires
        position <= i < cells.len(),
        entry < cells.len(),
        evidence_of(cells[i as int], a) == Evidence::False,
        evaluation(Formula::Globally(Interval::Unbounded { start: 0 }, Box::new(Formula::Atom(a))), fs, cells, entry, position, limits) is Ok,
    ensures
        evaluation(Formula::Globally(Interval::Unbounded { start: 0 }, Box::new(Formula::Atom(a))), fs, cells, entry, position, limits)
            matches Ok(o) && o.verdict == Verdict::Refuted && !o.possible_true,
{
    let g = Formula::Globally(Interval::Unbounded { start: 0 }, Box::new(Formula::Atom(a)));
    let atoms = crate::atoms::sorted(universe(g, fs, cells));
    let n = crate::lasso::offset_of(atoms, cells, cells.len());
    if n < usize::BITS {
        let m = (1usize << (n as usize)) as nat;
        lemma_tally_violation(a, fs, cells, atoms, entry, limits, position, i, m);
    }
}

pub(crate) proof fn lemma_atoms_finite(f: Formula)
    ensures
        atoms_of(f).finite(),
    decreases f,
{
    match f {
        Formula::False | Formula::True => {},
        Formula::Atom(a) => {
            assert(set![a].finite());
        },
        Formula::Not(p) | Formula::Future(_, p) | Formula::Globally(_, p) | Formula::Once(_, p)
        | Formula::Historically(_, p) | Formula::StrongPrevious(p) => lemma_atoms_finite(*p),
        Formula::And(p, q) | Formula::Or(p, q) | Formula::Implies(p, q) | Formula::Equivalent(p, q)
        | Formula::Until(_, p, q) | Formula::Release(_, p, q) | Formula::Since(_, p, q)
        | Formula::Triggered(_, p, q) => {
            lemma_atoms_finite(*p);
            lemma_atoms_finite(*q);
        },
    }
}

pub(crate) proof fn lemma_premise_atoms_finite(fs: Seq<Formula>, k: nat)
    ensures
        premise_atoms(fs, k).finite(),
    decreases k,
{
    if k > 0 && k <= fs.len() {
        lemma_premise_atoms_finite(fs, (k - 1) as nat);
        lemma_atoms_finite(fs[k - 1]);
    }
}

/// The propositions observed in any cell, as membership.
pub(crate) proof fn lemma_cell_keys(cells: Seq<Map<u32, Evidence>>, a: u32)
    ensures
        cell_keys(cells).contains(a) <==> exists|i: int| 0 <= i < cells.len() && #[trigger] cells[i].contains_key(a),
    decreases cells.len(),
{
    if cells.len() > 0 {
        lemma_cell_keys(cells.drop_last(), a);
        if exists|i: int| 0 <= i < cells.len() && #[trigger] cells[i].contains_key(a) {
            let i = choose|i: int| 0 <= i < cells.len() && #[trigger] cells[i].contains_key(a);
            if i < cells.len() - 1 {
                assert(cells.drop_last()[i].contains_key(a));
            }
        }
        if exists|i: int| 0 <= i < cells.drop_last().len() && #[trigger] cells.drop_last()[i].contains_key(a) {
            let i = choose|i: int| 0 <= i < cells.drop_last().len() && #[trigger] cells.drop_last()[i].contains_key(a);
            assert(cells[i].contains_key(a));
        }
    }
}

pub(crate) proof fn lemma_cell_keys_finite(cells: Seq<Map<u32, Evidence>>)
    requires
        forall|i: int| 0 <= i < cells.len() ==> #[trigger] cells[i].dom().finite(),
    ensures
        cell_keys(cells).finite(),
    decreases cells.len(),
{
    if cells.len() > 0 {
        lemma_cell_keys_finite(cells.drop_last());
        assert(cells[cells.len() - 1].dom().finite());
    }
}

/// A cell with no open observation among `atoms` has no unknown row.
proof fn lemma_row_empty(atoms: Seq<u32>, cell: Map<u32, Evidence>)
    requires
        forall|k: int| 0 <= k < atoms.len() ==> !is_unknown(#[trigger] evidence_of(cell, atoms[k])),
    ensures
        row_of(atoms, cell) == Seq::<u32>::empty(),
    decreases atoms.len(),
{
    if atoms.len() > 0 {
        assert forall|k: int| 0 <= k < atoms.drop_last().len() implies !is_unknown(#[trigger] evidence_of(cell, atoms.drop_last()[k])) by {
            assert(atoms.drop_last()[k] == atoms[k]);
        }
        lemma_row_empty(atoms.drop_last(), cell);
        assert(!is_unknown(evidence_of(cell, atoms[atoms.len() - 1])));
    }
}

/// With no open observation among `atoms`, no cell uses a completion bit.
proof fn lemma_offsets_zero(atoms: Seq<u32>, cells: Seq<Map<u32, Evidence>>, i: nat)
    requires
        i <= cells.len(),
        forall|j: int| 0 <= j < cells.len() ==> #[trigger] row_of(atoms, cells[j]) == Seq::<u32>::empty(),
    ensures
        offset_of(atoms, cells, i) == 0,
    decreases i,
{
    if i > 0 {
        lemma_offsets_zero(atoms, cells, (i - 1) as nat);
        assert(row_of(atoms, cells[i - 1]) == Seq::<u32>::empty());
    }
}

/// Premises that mean the same on two words admit them alike, whenever both are decided.
proof fn lemma_admission_same_meaning(
    fs: Seq<Formula>,
    k: nat,
    w1: Seq<Map<u32, bool>>,
    e1: nat,
    w2: Seq<Map<u32, bool>>,
    e2: nat,
    limits: Limits,
)
    requires
        forall|j: int| 0 <= j < fs.len() ==> sem(#[trigger] fs[j], w1, e1) == sem(fs[j], w2, e2),
        admission(fs, k, w1, e1, limits) is Ok,
        admission(fs, k, w2, e2, limits) is Ok,
    ensures
        admission(fs, k, w1, e1, limits) == admission(fs, k, w2, e2, limits),
    decreases k,
{
    if k > 0 && k <= fs.len() {
        lemma_admission_same_meaning(fs, (k - 1) as nat, w1, e1, w2, e2, limits);
        assert(sem(fs[k - 1], w1, e1) == sem(fs[k - 1], w2, e2));
    }
}

/// On a lasso whose cells leave no proposition the evaluation enumerates open,
/// moving one lap of the loop into the prefix keeps the outcome whenever both
/// lassos are evaluated: the word, and so every verdict, is the same.
pub proof fn law_unrolling_keeps_outcome(
    claim: Formula,
    fs: Seq<Formula>,
    cells: Seq<Map<u32, Evidence>>,
    entry: nat,
    position: nat,
    limits: Limits,
)
    requires
        entry < cells.len(),
        forall|i: int| 0 <= i < cells.len() ==> #[trigger] cells[i].dom().finite(),
        forall|i: int, a: u32| 0 <= i < cells.len() && universe(claim, fs, cells).contains(a)
            ==> !is_unknown(#[trigger] evidence_of(cells[i], a)),
        evaluation(claim, fs, cells, entry, position, limits) is Ok,
        evaluation(claim, fs, unrolled(cells, entry), cells.len(), position, limits) is Ok,
    ensures
        evaluation(claim, fs, unrolled(cells, entry), cells.len(), position, limits)
            == evaluation(claim, fs, cells, entry, position, limits),
{
    let n = cells.len();
    let u = unrolled(cells, entry);
    let lap = (n - entry) as nat;
    assert(u.len() == n + lap);
    assert forall|j: int| 0 <= j < u.len() implies #[trigger] u[j] == cells[if j < n { j } else { entry + (j - n) }] by {}
    // The two lassos observe the same propositions.
    assert(cell_keys(u) =~= cell_keys(cells)) by {
        assert forall|a: u32| cell_keys(u).contains(a) <==> cell_keys(cells).contains(a) by {
            lemma_cell_keys(u, a);
            lemma_cell_keys(cells, a);
            if exists|i: int| 0 <= i < u.len() && #[trigger] u[i].contains_key(a) {
                let i = choose|i: int| 0 <= i < u.len() && #[trigger] u[i].contains_key(a);
                let j = if i < n { i } else { entry + (i - n) };
                assert(cells[j].contains_key(a));
            }
            if exists|i: int| 0 <= i < cells.len() && #[trigger] cells[i].contains_key(a) {
                let i = choose|i: int| 0 <= i < cells.len() && #[trigger] cells[i].contains_key(a);
                assert(u[i].contains_key(a));
            }
        }
    }
    let set = universe(claim, fs, cells);
    assert(universe(claim, fs, u) == set);
    lemma_atoms_finite(claim);
    lemma_premise_atoms_finite(fs, fs.len());
    lemma_cell_keys_finite(cells);
    crate::atoms::lemma_sorted_exists(set);
    let atoms = crate::atoms::sorted(set);
    assert forall|j: int| 0 <= j < cells.len() implies #[trigger] row_of(atoms, cells[j]) == Seq::<u32>::empty() by {
        assert forall|k: int| 0 <= k < atoms.len() implies !is_unknown(#[trigger] evidence_of(cells[j], atoms[k])) by {
            assert(atoms.to_set().contains(atoms[k]));
        }
        lemma_row_empty(atoms, cells[j]);
    }
    assert forall|j: int| 0 <= j < u.len() implies #[trigger] row_of(atoms, u[j]) == Seq::<u32>::empty() by {
        let i = if j < n { j } else { entry + (j - n) };
        assert(row_of(atoms, cells[i]) == Seq::<u32>::empty());
    }
    lemma_offsets_zero(atoms, cells, n);
    lemma_offsets_zero(atoms, u, u.len());
    assert((1usize << 0usize) == 1usize) by (bit_vector);
    // The single completion of each lasso is its known cells.
    let w = completion(cells, atoms, 0usize);
    let w2 = completion(u, atoms, 0usize);
    assert forall|j: int| 0 <= j < n implies #[trigger] w[j] == known(cells[j]) by {
        lemma_offsets_zero(atoms, cells, j as nat);
    }
    assert(w2 =~= unrolled(w, entry)) by {
        assert forall|j: int| 0 <= j < u.len() implies #[trigger] w2[j] == unrolled(w, entry)[j] by {
            lemma_offsets_zero(atoms, u, j as nat);
            let i = if j < n { j } else { entry + (j - n) };
            assert(w[i] == known(cells[i]));
        }
    }
    assert(w.len() == n);
    assert forall|j: int| 0 <= j < fs.len() implies sem(#[trigger] fs[j], w, entry) == sem(fs[j], w2, n) by {
        law_unrolling_keeps_meaning(fs[j], w, entry);
    }
    law_unrolling_keeps_meaning(claim, w, entry);
    reveal(tally);
    let t1 = tally(claim, fs, cells, atoms, entry, limits, position, 1);
    let t2 = tally(claim, fs, u, atoms, n, limits, position, 1);
    assert(tally(claim, fs, cells, atoms, entry, limits, position, 0) == Ok::<(bool, bool, nat), crate::OracleError>((false, false, 0)));
    assert(tally(claim, fs, u, atoms, n, limits, position, 0) == Ok::<(bool, bool, nat), crate::OracleError>((false, false, 0)));
    if admission(fs, fs.len(), w, entry, limits) is Ok && admission(fs, fs.len(), w2, n, limits) is Ok {
        lemma_admission_same_meaning(fs, fs.len(), w, entry, w2, n, limits);
    }
    assert(!has_kind(cells, atoms, Evidence::Missing));
    assert(!has_kind(cells, atoms, Evidence::Conflicting));
    assert(!has_kind(u, atoms, Evidence::Missing)) by {
        if has_kind(u, atoms, Evidence::Missing) {
            let (i, k) = choose|i: int, k: int| 0 <= i < u.len() && 0 <= k < atoms.len() && evidence_of(u[i], atoms[k]) == Evidence::Missing;
            let j = if i < n { i } else { entry + (i - n) };
            assert(atoms.to_set().contains(atoms[k]));
            assert(!is_unknown(evidence_of(cells[j], atoms[k])));
        }
    }
    assert(!has_kind(u, atoms, Evidence::Conflicting)) by {
        if has_kind(u, atoms, Evidence::Conflicting) {
            let (i, k) = choose|i: int, k: int| 0 <= i < u.len() && 0 <= k < atoms.len() && evidence_of(u[i], atoms[k]) == Evidence::Conflicting;
            let j = if i < n { i } else { entry + (i - n) };
            assert(atoms.to_set().contains(atoms[k]));
            assert(!is_unknown(evidence_of(cells[j], atoms[k])));
        }
    }
    assert(has_kind(cells, atoms, Evidence::Missing) == false) by {
        if has_kind(cells, atoms, Evidence::Missing) {
            let (i, k) = choose|i: int, k: int| 0 <= i < cells.len() && 0 <= k < atoms.len() && evidence_of(cells[i], atoms[k]) == Evidence::Missing;
            assert(atoms.to_set().contains(atoms[k]));
        }
    }
}

} // verus!
