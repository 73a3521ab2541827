//! Which Boolean completions an evaluation tallies, and how many a premise
//! admits.
//!
//! A concluded evaluation tallied every completion of the open observations,
//! so its verdict speaks for all of them.
//!
//! An atomic premise recurs on a completion exactly when its proposition is
//! true in some loop cell. Every completion is admitted when the loop already
//! observes it true; otherwise all are admitted but those whose open loop
//! observations of it are all false.

use vstd::prelude::*;
use crate::{Evidence, Formula, Limits, OracleError, Outcome, Uncertainty, Verdict};
use crate::atoms::{increasing, lemma_sorted_exists, sorted};
use crate::lasso::{
    admission, completion, evaluation, evidence_of, has_impossible, is_unknown, known, mask_bit,
    offset_of, premise_atoms, row_of, step, tally, universe, has_kind, uncertainty_of,
};
use crate::sequence::plan;
use crate::laws::{lemma_atoms_finite, lemma_cell_keys_finite, lemma_premise_atoms_finite};
use crate::refinement::{admitted_masks, lemma_fill, lemma_offset_step, lemma_row_of, lemma_tally_census, lemma_tally_steps};
use crate::semantics::{cell_of, lasso_val, lookup, occurs_from, recurs, sem};

verus! {

/// The masks below `2^n` whose bits at `bits` are all clear.
pub open spec fn clear_masks(n: nat, bits: Set<nat>) -> Set<nat> {
    Set::new(|m: nat| m < (1usize << (n as usize)) as nat && forall|b: nat| #[trigger] bits.contains(b) ==> !mask_bit(m as usize, b))
}

proof fn lemma_bits_below(m: usize, h: usize)
    by (bit_vector)
    requires
        h + 1 < usize::BITS,
        m < (1usize << h),
    ensures
        (m & (1usize << h)) == 0usize,
        ((m + (1usize << h)) as usize & (1usize << h)) != 0usize,
        (1usize << (h + 1)) == 2 * (1usize << h),
{
}

proof fn lemma_bits_shifted(m: usize, h: usize, b: usize)
    by (bit_vector)
    requires
        h + 1 < usize::BITS,
        m < (1usize << h),
        b < h,
    ensures
        ((m + (1usize << h)) as usize & (1usize << b)) == (m & (1usize << b)),
{
}

proof fn lemma_top_bit(m: usize, h: usize)
    by (bit_vector)
    requires
        h + 1 < usize::BITS,
        (1usize << h) <= m < (1usize << (h + 1)),
    ensures
        (m & (1usize << h)) != 0usize,
        m - (1usize << h) < (1usize << h),
{
}

proof fn lemma_double(x: usize)
    by (bit_vector)
    requires
        x + 1 < usize::BITS,
    ensures
        (1usize << (x + 1)) == 2 * (1usize << x),
{
}

/// Each bit set cleared halves the masks: `2^(n - |bits|)` of the `2^n` masks
/// have every bit of `bits` clear.
pub proof fn lemma_clear_masks(n: nat, bits: Set<nat>)
    requires
        n < usize::BITS,
        bits.finite(),
        forall|b: nat| #[trigger] bits.contains(b) ==> b < n,
    ensures
        bits.len() <= n,
        clear_masks(n, bits).finite(),
        clear_masks(n, bits).len() == (1usize << ((n - bits.len()) as usize)) as nat,
    decreases n,
{
    broadcast use vstd::set_lib::group_set_properties;
    let all = clear_masks(n, bits);
    if n == 0 {
        assert(bits =~= Set::<nat>::empty());
        assert((1usize << 0usize) == 1usize) by (bit_vector);
        assert(all =~= set![0nat]);
    } else {
        let h = (n - 1) as nat;
        let big = (1usize << (h as usize)) as nat;
        lemma_double(h as usize);
        let rest = bits.remove(h);
        lemma_clear_masks(h, rest);
        let low = clear_masks(h, rest);
        assert forall|b: nat| #[trigger] rest.contains(b) implies b < h by {}
        // The lower half: bit h is clear there, the other bits decide.
        let lower = all.filter(|m: nat| m < big);
        assert(lower =~= low) by {
            assert forall|m: nat| lower.contains(m) <==> low.contains(m) by {
                if m < big {
                    lemma_bits_below(m as usize, h as usize);
                    if low.contains(m) {
                        assert forall|b: nat| #[trigger] bits.contains(b) implies !mask_bit(m as usize, b) by {
                            if b != h {
                                assert(rest.contains(b));
                            }
                        }
                    }
                }
            }
        }
        let upper = all.filter(|m: nat| m >= big);
        assert(all =~= lower + upper);
        assert(lower.disjoint(upper));
        if bits.contains(h) {
            assert(upper =~= Set::<nat>::empty()) by {
                assert forall|m: nat| !upper.contains(m) by {
                    if m >= big && m < (1usize << (n as usize)) as nat {
                        lemma_top_bit(m as usize, h as usize);
                    }
                }
            }
            vstd::set_lib::lemma_set_disjoint_lens(lower, upper);
            assert(rest.len() + 1 == bits.len());
            assert((n - bits.len()) == (h - rest.len()));
        } else {
            assert(rest =~= bits);
            let shift = |m: nat| m + big;
            assert(low.map(shift) =~= upper) by {
                assert forall|m: nat| low.map(shift).contains(m) <==> upper.contains(m) by {
                    if low.map(shift).contains(m) {
                        let x = choose|x: nat| low.contains(x) && shift(x) == m;
                        lemma_bits_below(x as usize, h as usize);
                        assert forall|b: nat| #[trigger] bits.contains(b) implies !mask_bit(m as usize, b) by {
                            lemma_bits_shifted(x as usize, h as usize, b as usize);
                        }
                    }
                    if upper.contains(m) {
                        lemma_top_bit(m as usize, h as usize);
                        let x = (m - big) as nat;
                        lemma_bits_below(x as usize, h as usize);
                        assert forall|b: nat| #[trigger] bits.contains(b) implies !mask_bit(x as usize, b) by {
                            lemma_bits_shifted(x as usize, h as usize, b as usize);
                        }
                        assert(low.contains(x));
                        assert(shift(x) == m);
                    }
                }
            }
            assert(vstd::relations::injective_on(shift, low));
            vstd::set_lib::lemma_map_size(low, upper, shift);
            vstd::set_lib::lemma_set_disjoint_lens(lower, upper);
            lemma_double((h - bits.len()) as usize);
            assert((n - bits.len()) as usize == ((h - bits.len()) + 1) as usize);
        }
    }
}

/// An atom recurs on a lasso exactly when some loop cell holds it.
pub proof fn lemma_atom_recurs(w: Seq<Map<u32, bool>>, entry: nat, k: u32)
    requires
        entry < w.len(),
    ensures
        recurs(sem(Formula::Atom(k), w, entry)) <==> exists|j: int| entry <= j < w.len() && lookup(#[trigger] w[j], k),
{
    let n = w.len();
    let lap = (n - entry) as nat;
    let f = sem(Formula::Atom(k), w, entry);
    if exists|j: int| entry <= j < w.len() && lookup(#[trigger] w[j], k) {
        let j = choose|j: int| entry <= j < w.len() && lookup(#[trigger] w[j], k);
        assert forall|from: nat| #[trigger] occurs_from(f, from) by {
            let c = from + 1;
            let t = (j + c * lap) as nat;
            assert(c * lap >= c && c * lap >= lap) by (nonlinear_arith)
                requires
                    lap >= 1,
                    c >= 1,
            ;
            assert(t >= n);
            vstd::arithmetic::div_mod::lemma_fundamental_div_mod_converse((t - entry) as int, lap as int, c as int, j - entry);
            assert(cell_of(n, entry, t) == j);
            assert(f(t));
        }
    }
    if recurs(f) {
        assert(occurs_from(f, n));
        let t = choose|t: nat| n <= t && #[trigger] f(t);
        let j = cell_of(n, entry, t);
        vstd::arithmetic::div_mod::lemma_mod_bound((t - entry) as int, lap as int);
        assert(lookup(w[j as int], k));
    }
}

/// Loop cells whose observation of `k` is open.
pub open spec fn open_loop_cells(cells: Seq<Map<u32, Evidence>>, entry: nat, k: u32) -> Set<int> {
    Set::new(|j: int| entry <= j < cells.len() && is_unknown(evidence_of(cells[j], k)))
}

/// Some loop cell observes `k` true.
pub open spec fn known_true_in_loop(cells: Seq<Map<u32, Evidence>>, entry: nat, k: u32) -> bool {
    exists|j: int| entry <= j < cells.len() && evidence_of(#[trigger] cells[j], k) == Evidence::True
}

/// The open observations an evaluation enumerates: one completion bit each.
pub open spec fn open_observations(claim: Formula, fs: Seq<Formula>, cells: Seq<Map<u32, Evidence>>) -> nat {
    offset_of(sorted(universe(claim, fs, cells)), cells, cells.len())
}

/// Of the `2^n` completions of `n` open observations, those an atomic premise
/// admits: all when the loop observes it true, else all but the `2^(n - open)`
/// that make each of its `open` loop observations false.
pub open spec fn atomic_admitted(n: nat, known_true: bool, open: nat) -> nat {
    if known_true {
        (1usize << (n as usize)) as nat
    } else {
        ((1usize << (n as usize)) - (1usize << ((n - open) as usize))) as nat
    }
}

/// The completion bit of the open observation of `k` in cell `j`.
pub open spec fn open_bit(atoms: Seq<u32>, cells: Seq<Map<u32, Evidence>>, j: int, k: u32) -> nat {
    offset_of(atoms, cells, j as nat) + (choose|t: int| 0 <= t < row_of(atoms, cells[j]).len() && row_of(atoms, cells[j])[t] == k) as nat
}

/// A completion holds `k` in cell `j` when the cell knows it true, or leaves
/// it open and the mask sets its bit.
proof fn lemma_completion_lookup(cells: Seq<Map<u32, Evidence>>, atoms: Seq<u32>, m: usize, j: int, k: u32)
    requires
        increasing(atoms),
        atoms.contains(k),
        0 <= j < cells.len(),
        evidence_of(cells[j], k) != Evidence::Impossible,
    ensures
        lookup(completion(cells, atoms, m)[j], k) == (evidence_of(cells[j], k) == Evidence::True
            || (is_unknown(evidence_of(cells[j], k)) && mask_bit(m, open_bit(atoms, cells, j, k)))),
        is_unknown(evidence_of(cells[j], k)) ==> offset_of(atoms, cells, j as nat) <= open_bit(atoms, cells, j, k)
            < offset_of(atoms, cells, j as nat) + row_of(atoms, cells[j]).len(),
{
    let cell = cells[j];
    let row = row_of(atoms, cell);
    let off = offset_of(atoms, cells, j as nat);
    lemma_row_of(atoms, cell);
    lemma_fill(cell, row, m, off, k);
    if is_unknown(evidence_of(cell, k)) {
        assert(row.contains(k));
        let t = choose|t: int| 0 <= t < row.len() && row[t] == k;
        assert(open_bit(atoms, cells, j, k) == off + t);
    } else {
        assert(!row.contains(k));
    }
}

/// Counting masks by their bits: those with `t`, or with some bit of `bit(jset)` set.
proof fn lemma_count_admitted(n: nat, adm: Set<nat>, t: bool, jset: Set<int>, bit: spec_fn(int) -> nat)
    requires
        n < usize::BITS,
        jset.finite(),
        vstd::relations::injective_on(bit, jset),
        forall|j: int| #[trigger] jset.contains(j) ==> bit(j) < n,
        forall|m: nat| #[trigger] adm.contains(m) <==> (m < (1usize << (n as usize)) as nat
            && (t || exists|j: int| jset.contains(j) && mask_bit(m as usize, bit(j)))),
    ensures
        adm.finite(),
        adm.len() == atomic_admitted(n, t, jset.len()),
{
    let none = Set::<nat>::empty();
    lemma_clear_masks(n, none);
    let every = clear_masks(n, none);
    if t {
        assert(adm =~= every);
    } else {
        let bits = jset.map(bit);
        vstd::set_lib::lemma_map_size(jset, bits, bit);
        assert forall|b: nat| #[trigger] bits.contains(b) implies b < n by {
            let j = choose|j: int| jset.contains(j) && bit(j) == b;
        }
        lemma_clear_masks(n, bits);
        let clear = clear_masks(n, bits);
        assert(every =~= adm + clear) by {
            assert forall|m: nat| every.contains(m) <==> (adm + clear).contains(m) by {
                if every.contains(m) && !adm.contains(m) {
                    assert forall|b: nat| #[trigger] bits.contains(b) implies !mask_bit(m as usize, b) by {
                        let j = choose|j: int| jset.contains(j) && bit(j) == b;
                    }
                }
            }
        }
        assert(adm.disjoint(clear)) by {
            assert forall|m: nat| !(adm.contains(m) && clear.contains(m)) by {
                if adm.contains(m) && clear.contains(m) {
                    let j = choose|j: int| jset.contains(j) && mask_bit(m as usize, bit(j));
                    assert(bits.contains(bit(j)));
                }
            }
        }
        vstd::set_lib::lemma_set_subset_finite(every, adm);
        vstd::set_lib::lemma_set_disjoint_lens(adm, clear);
    }
}

/// The open loop observations of `k` take distinct completion bits below the total.
proof fn lemma_open_bits(cells: Seq<Map<u32, Evidence>>, atoms: Seq<u32>, entry: nat, k: u32)
    requires
        increasing(atoms),
        atoms.contains(k),
        entry <= cells.len(),
        forall|j: int| 0 <= j < cells.len() ==> evidence_of(#[trigger] cells[j], k) != Evidence::Impossible,
    ensures
        open_loop_cells(cells, entry, k).finite(),
        open_loop_cells(cells, entry, k).len() <= cells.len(),
        vstd::relations::injective_on(|j: int| open_bit(atoms, cells, j, k), open_loop_cells(cells, entry, k)),
        forall|j: int| #[trigger] open_loop_cells(cells, entry, k).contains(j) ==> open_bit(atoms, cells, j, k) < offset_of(atoms, cells, cells.len()),
{
    let jset = open_loop_cells(cells, entry, k);
    let bit = |j: int| open_bit(atoms, cells, j, k);
    let range = vstd::set_lib::set_int_range(entry as int, cells.len() as int);
    assert(jset.subset_of(range));
    vstd::set_lib::lemma_int_range(entry as int, cells.len() as int);
    vstd::set_lib::lemma_len_subset(jset, range);
    assert forall|j1: int, j2: int| jset.contains(j1) && jset.contains(j2) && #[trigger] bit(j1) == #[trigger] bit(j2) implies j1 == j2 by {
        lemma_completion_lookup(cells, atoms, 0, j1, k);
        lemma_completion_lookup(cells, atoms, 0, j2, k);
        if j1 < j2 {
            lemma_offset_step(atoms, cells, j1 as nat, j2 as nat);
        } else if j2 < j1 {
            lemma_offset_step(atoms, cells, j2 as nat, j1 as nat);
        }
    }
    assert forall|j: int| #[trigger] jset.contains(j) implies bit(j) < offset_of(atoms, cells, cells.len()) by {
        lemma_completion_lookup(cells, atoms, 0, j, k);
        lemma_offset_step(atoms, cells, j as nat, (j + 1) as nat);
        lemma_offset_step(atoms, cells, (j + 1) as nat, cells.len());
    }
}

/// A completion is admitted by the premise on `k` iff some loop cell holds `k`.
proof fn lemma_admitted_iff(
    claim: Formula,
    k: u32,
    cells: Seq<Map<u32, Evidence>>,
    atoms: Seq<u32>,
    entry: nat,
    position: nat,
    limits: Limits,
    mm: nat,
)
    requires
        increasing(atoms),
        atoms.contains(k),
        entry < cells.len(),
        forall|j: int| 0 <= j < cells.len() ==> evidence_of(#[trigger] cells[j], k) != Evidence::Impossible,
        forall|m: nat| m < mm ==> #[trigger] step(claim, seq![Formula::Atom(k)], completion(cells, atoms, m as usize), entry, limits, position) is Ok,
    ensures
        forall|m: nat| #[trigger] admitted_masks(claim, seq![Formula::Atom(k)], cells, atoms, entry, limits, position, mm).contains(m)
            <==> (m < mm && (known_true_in_loop(cells, entry, k) || exists|j: int|
                open_loop_cells(cells, entry, k).contains(j) && mask_bit(m as usize, open_bit(atoms, cells, j, k)))),
{
    let fs = seq![Formula::Atom(k)];
    let adm = admitted_masks(claim, fs, cells, atoms, entry, limits, position, mm);
    let jset = open_loop_cells(cells, entry, k);
    let t = known_true_in_loop(cells, entry, k);
    assert forall|m: nat| #[trigger] adm.contains(m)
        <==> (m < mm && (t || exists|j: int| jset.contains(j) && mask_bit(m as usize, open_bit(atoms, cells, j, k)))) by {
        if m < mm {
            let w = completion(cells, atoms, m as usize);
            assert(step(claim, fs, w, entry, limits, position) is Ok);
            assert(fs[0] == Formula::Atom(k));
            assert(fs.len() == 1);
            assert(admission(fs, 0, w, entry, limits) == Ok::<bool, crate::OracleError>(true));
            let ad = admission(fs, 1, w, entry, limits);
            assert(ad is Ok);
            assert(ad == Ok::<bool, crate::OracleError>(recurs(sem(Formula::Atom(k), w, entry))));
            assert(adm.contains(m) == recurs(sem(Formula::Atom(k), w, entry)));
            lemma_atom_recurs(w, entry, k);
            if exists|j: int| entry <= j < w.len() && lookup(#[trigger] w[j], k) {
                let j = choose|j: int| entry <= j < w.len() && lookup(#[trigger] w[j], k);
                lemma_completion_lookup(cells, atoms, m as usize, j, k);
                if !t {
                    assert(jset.contains(j));
                }
            }
            if t {
                let j = choose|j: int| entry <= j < cells.len() && evidence_of(#[trigger] cells[j], k) == Evidence::True;
                lemma_completion_lookup(cells, atoms, m as usize, j, k);
                assert(lookup(w[j], k));
            }
            if exists|j: int| jset.contains(j) && mask_bit(m as usize, open_bit(atoms, cells, j, k)) {
                let j = choose|j: int| jset.contains(j) && mask_bit(m as usize, open_bit(atoms, cells, j, k));
                lemma_completion_lookup(cells, atoms, m as usize, j, k);
                assert(lookup(w[j], k));
            }
        }
    }
}

/// The refusal for want of admitted completions comes from no plan.
proof fn lemma_plan_not_empty(f: Formula, w: Seq<Map<u32, bool>>, entry: nat, limits: Limits)
    ensures
        plan(f, w, entry, limits) != Err::<nat, OracleError>(OracleError::EmptyFairAdmission),
    decreases f,
{
    match f {
        Formula::Not(a) => lemma_plan_not_empty(*a, w, entry, limits),
        Formula::And(a, b) | Formula::Or(a, b) | Formula::Implies(a, b) | Formula::Equivalent(a, b) => {
            lemma_plan_not_empty(*a, w, entry, limits);
            lemma_plan_not_empty(*b, w, entry, limits);
        },
        Formula::Until(_, a, b) | Formula::Release(_, a, b) | Formula::Since(_, a, b) | Formula::Triggered(_, a, b) => {
            lemma_plan_not_empty(*a, w, entry, limits);
            lemma_plan_not_empty(*b, w, entry, limits);
        },
        Formula::Future(_, a) | Formula::Globally(_, a) | Formula::Once(_, a) | Formula::Historically(_, a) => {
            lemma_plan_not_empty(*a, w, entry, limits);
        },
        Formula::StrongPrevious(a) => lemma_plan_not_empty(*a, w, entry, limits),
        _ => {},
    }
}

proof fn lemma_admission_not_empty(fs: Seq<Formula>, k: nat, w: Seq<Map<u32, bool>>, entry: nat, limits: Limits)
    ensures
        admission(fs, k, w, entry, limits) != Err::<bool, OracleError>(OracleError::EmptyFairAdmission),
    decreases k,
{
    if k > 0 && k <= fs.len() {
        lemma_admission_not_empty(fs, (k - 1) as nat, w, entry, limits);
        lemma_plan_not_empty(fs[k - 1], w, entry, limits);
    }
}

proof fn lemma_tally_not_empty(
    claim: Formula,
    fs: Seq<Formula>,
    cells: Seq<Map<u32, Evidence>>,
    atoms: Seq<u32>,
    entry: nat,
    limits: Limits,
    position: nat,
    m: nat,
)
    ensures
        tally(claim, fs, cells, atoms, entry, limits, position, m) is Ok
            || tally(claim, fs, cells, atoms, entry, limits, position, m)->Err_0 != OracleError::EmptyFairAdmission,
    decreases m,
{
    reveal(tally);
    if m > 0 {
        lemma_tally_not_empty(claim, fs, cells, atoms, entry, limits, position, (m - 1) as nat);
        let w = completion(cells, atoms, (m - 1) as usize);
        lemma_admission_not_empty(fs, fs.len(), w, entry, limits);
        lemma_plan_not_empty(claim, w, entry, limits);
    }
}

/// An evaluation that concludes, with an outcome or for want of admitted
/// completions, tallied every completion: it concludes with an outcome
/// exactly when the premises admitted some, and counts those.
proof fn lemma_concluded(
    claim: Formula,
    fs: Seq<Formula>,
    cells: Seq<Map<u32, Evidence>>,
    entry: nat,
    position: nat,
    limits: Limits,
)
    requires
        forall|j: int| 0 <= j < cells.len() ==> #[trigger] cells[j].dom().finite(),
        evaluation(claim, fs, cells, entry, position, limits) is Ok
            || evaluation(claim, fs, cells, entry, position, limits) == Err::<Outcome, OracleError>(OracleError::EmptyFairAdmission),
    ensures
        !has_impossible(cells),
        universe(claim, fs, cells).finite(),
        increasing(sorted(universe(claim, fs, cells))),
        sorted(universe(claim, fs, cells)).to_set() == universe(claim, fs, cells),
        open_observations(claim, fs, cells) < usize::BITS,
        ({
            let atoms = sorted(universe(claim, fs, cells));
            let mm = (1usize << (open_observations(claim, fs, cells) as usize)) as nat;
            let adm = admitted_masks(claim, fs, cells, atoms, entry, limits, position, mm);
            &&& adm.finite()
            &&& forall|m: nat| m < mm ==> #[trigger] step(claim, fs, completion(cells, atoms, m as usize), entry, limits, position) is Ok
            &&& (evaluation(claim, fs, cells, entry, position, limits) is Ok <==> adm.len() > 0)
            &&& (evaluation(claim, fs, cells, entry, position, limits) is Ok
                ==> evaluation(claim, fs, cells, entry, position, limits)->Ok_0.fair_completions == adm.len())
        }),
{
    let u = universe(claim, fs, cells);
    lemma_atoms_finite(claim);
    lemma_premise_atoms_finite(fs, fs.len());
    lemma_cell_keys_finite(cells);
    lemma_sorted_exists(u);
    let atoms = sorted(u);
    let n = offset_of(atoms, cells, cells.len());
    let mm = (1usize << (n as usize)) as nat;
    lemma_tally_not_empty(claim, fs, cells, atoms, entry, limits, position, mm);
    let t = tally(claim, fs, cells, atoms, entry, limits, position, mm);
    assert(t is Ok);
    lemma_tally_census(claim, fs, cells, atoms, entry, limits, position, mm);
    lemma_tally_steps(claim, fs, cells, atoms, entry, limits, position, mm);
    let adm = admitted_masks(claim, fs, cells, atoms, entry, limits, position, mm);
    if adm.len() > 0 {
        vstd::set_lib::lemma_set_empty_equivalency_len(adm);
        let m = adm.choose();
        assert(adm.contains(m));
        let st = step(claim, fs, completion(cells, atoms, m as usize), entry, limits, position);
        if st == Ok::<Option<bool>, OracleError>(Some(true)) {
            assert(t->Ok_0.0);
        } else {
            assert(st == Ok::<Option<bool>, OracleError>(Some(false)));
            assert(t->Ok_0.1);
        }
    }
}

/// An atomic fairness premise on `k` admits exactly [`atomic_admitted`]
/// completions: every one when a loop cell observes `k` true, otherwise all
/// but those that make every open loop observation of `k` false. An
/// evaluation that concludes does so with an outcome exactly when that count
/// is positive, and reports it.
pub proof fn law_atomic_premise_count(
    claim: Formula,
    k: u32,
    cells: Seq<Map<u32, Evidence>>,
    entry: nat,
    position: nat,
    limits: Limits,
)
    requires
        entry < cells.len(),
        forall|j: int| 0 <= j < cells.len() ==> #[trigger] cells[j].dom().finite(),
        evaluation(claim, seq![Formula::Atom(k)], cells, entry, position, limits) is Ok
            || evaluation(claim, seq![Formula::Atom(k)], cells, entry, position, limits)
                == Err::<Outcome, OracleError>(OracleError::EmptyFairAdmission),
    ensures
        evaluation(claim, seq![Formula::Atom(k)], cells, entry, position, limits) is Ok <==> atomic_admitted(
            open_observations(claim, seq![Formula::Atom(k)], cells),
            known_true_in_loop(cells, entry, k),
            open_loop_cells(cells, entry, k).len(),
        ) > 0,
        evaluation(claim, seq![Formula::Atom(k)], cells, entry, position, limits) is Ok
            ==> evaluation(claim, seq![Formula::Atom(k)], cells, entry, position, limits)->Ok_0.fair_completions == atomic_admitted(
            open_observations(claim, seq![Formula::Atom(k)], cells),
            known_true_in_loop(cells, entry, k),
            open_loop_cells(cells, entry, k).len(),
        ),
{
    let fs = seq![Formula::Atom(k)];
    lemma_concluded(claim, fs, cells, entry, position, limits);
    let u = universe(claim, fs, cells);
    let atoms = sorted(u);
    assert(premise_atoms(fs, 1) == premise_atoms(fs, 0) + crate::atoms::atoms_of(fs[0]));
    assert(u.contains(k));
    assert(atoms.contains(k)) by {
        assert(atoms.to_set().contains(k));
    }
    assert forall|j: int| 0 <= j < cells.len() implies evidence_of(#[trigger] cells[j], k) != Evidence::Impossible by {
        if evidence_of(cells[j], k) == Evidence::Impossible {
            assert(cells[j].contains_key(k) && cells[j][k] == Evidence::Impossible);
        }
    }
    let n = offset_of(atoms, cells, cells.len());
    let mm = (1usize << (n as usize)) as nat;
    lemma_admitted_iff(claim, k, cells, atoms, entry, position, limits, mm);
    lemma_open_bits(cells, atoms, entry, k);
    let adm = admitted_masks(claim, fs, cells, atoms, entry, limits, position, mm);
    lemma_count_admitted(
        n,
        adm,
        known_true_in_loop(cells, entry, k),
        open_loop_cells(cells, entry, k),
        |j: int| open_bit(atoms, cells, j, k),
    );
}

/// With no fairness premise every completion is admitted: all `2^n` of the
/// `n` open observations. An evaluation that concludes does so with an
/// outcome, and reports that count.
pub proof fn law_unconstrained_count(
    claim: Formula,
    cells: Seq<Map<u32, Evidence>>,
    entry: nat,
    position: nat,
    limits: Limits,
)
    requires
        forall|j: int| 0 <= j < cells.len() ==> #[trigger] cells[j].dom().finite(),
        evaluation(claim, Seq::<Formula>::empty(), cells, entry, position, limits) is Ok
            || evaluation(claim, Seq::<Formula>::empty(), cells, entry, position, limits)
                == Err::<Outcome, OracleError>(OracleError::EmptyFairAdmission),
    ensures
        evaluation(claim, Seq::<Formula>::empty(), cells, entry, position, limits) is Ok,
        evaluation(claim, Seq::<Formula>::empty(), cells, entry, position, limits)->Ok_0.fair_completions
            == (1usize << (open_observations(claim, Seq::<Formula>::empty(), cells) as usize)) as nat,
{
    let fs = Seq::<Formula>::empty();
    lemma_concluded(claim, fs, cells, entry, position, limits);
    let atoms = sorted(universe(claim, fs, cells));
    let n = offset_of(atoms, cells, cells.len());
    let mm = (1usize << (n as usize)) as nat;
    let none = Set::<nat>::empty();
    lemma_clear_masks(n, none);
    let adm = admitted_masks(claim, fs, cells, atoms, entry, limits, position, mm);
    assert(adm =~= clear_masks(n, none)) by {
        assert forall|m: nat| adm.contains(m) <==> #[trigger] clear_masks(n, none).contains(m) by {
            if m < mm {
                assert(step(claim, fs, completion(cells, atoms, m as usize), entry, limits, position) is Ok);
                assert(admission(fs, 0, completion(cells, atoms, m as usize), entry, limits) == Ok::<bool, OracleError>(true));
            }
        }
    }
    let nu = n as usize;
    assert((1usize << nu) > 0) by (bit_vector)
        requires
            nu < usize::BITS,
    ;
}

/// A verdict speaks for every Boolean completion of the open observations:
/// each was tallied without a refusal; where the claim is proved no admitted
/// completion makes it false, where it is refuted none makes it true, and
/// where it is inconclusive admitted completions give it both values. A limit
/// that would stop the enumeration short refuses instead of concluding.
pub proof fn law_verdict_covers_every_completion(
    claim: Formula,
    fs: Seq<Formula>,
    cells: Seq<Map<u32, Evidence>>,
    entry: nat,
    position: nat,
    limits: Limits,
)
    requires
        forall|j: int| 0 <= j < cells.len() ==> #[trigger] cells[j].dom().finite(),
        evaluation(claim, fs, cells, entry, position, limits) is Ok,
    ensures
        ({
            let atoms = sorted(universe(claim, fs, cells));
            let mm = (1usize << (open_observations(claim, fs, cells) as usize)) as nat;
            let o = evaluation(claim, fs, cells, entry, position, limits)->Ok_0;
            &&& mm <= limits.max_completions
            &&& forall|m: nat| m < mm ==> #[trigger] step(claim, fs, completion(cells, atoms, m as usize), entry, limits, position) is Ok
            &&& o.verdict == Verdict::Proved ==> forall|m: nat| m < mm
                ==> #[trigger] step(claim, fs, completion(cells, atoms, m as usize), entry, limits, position) != Ok::<Option<bool>, OracleError>(Some(false))
            &&& o.verdict == Verdict::Refuted ==> forall|m: nat| m < mm
                ==> #[trigger] step(claim, fs, completion(cells, atoms, m as usize), entry, limits, position) != Ok::<Option<bool>, OracleError>(Some(true))
            &&& o.verdict == Verdict::Inconclusive ==> (exists|m: nat| m < mm
                && #[trigger] step(claim, fs, completion(cells, atoms, m as usize), entry, limits, position) == Ok::<Option<bool>, OracleError>(Some(true)))
                && (exists|m: nat| m < mm
                && #[trigger] step(claim, fs, completion(cells, atoms, m as usize), entry, limits, position) == Ok::<Option<bool>, OracleError>(Some(false)))
        }),
{
    lemma_concluded(claim, fs, cells, entry, position, limits);
    let atoms = sorted(universe(claim, fs, cells));
    let mm = (1usize << (open_observations(claim, fs, cells) as usize)) as nat;
    lemma_tally_census(claim, fs, cells, atoms, entry, limits, position, mm);
}

/// The shape of every outcome: at least one and at most all `2^n` completions
/// of the `n` open observations were admitted, within the completion limit;
/// the verdict is proved, refuted or inconclusive exactly as the admitted
/// completions made the claim only true, only false, or both; and the
/// uncertainty names the kinds of unknown evidence among the enumerated
/// propositions, an absent observation counting as missing.
pub proof fn law_outcome_shape(
    claim: Formula,
    fs: Seq<Formula>,
    cells: Seq<Map<u32, Evidence>>,
    entry: nat,
    position: nat,
    limits: Limits,
)
    requires
        forall|j: int| 0 <= j < cells.len() ==> #[trigger] cells[j].dom().finite(),
        evaluation(claim, fs, cells, entry, position, limits) is Ok,
    ensures
        ({
            let atoms = sorted(universe(claim, fs, cells));
            let mm = (1usize << (open_observations(claim, fs, cells) as usize)) as nat;
            let o = evaluation(claim, fs, cells, entry, position, limits)->Ok_0;
            &&& 1 <= o.fair_completions <= mm <= limits.max_completions
            &&& (o.verdict == Verdict::Proved <==> o.possible_true && !o.possible_false)
            &&& (o.verdict == Verdict::Refuted <==> !o.possible_true && o.possible_false)
            &&& (o.verdict == Verdict::Inconclusive <==> o.possible_true && o.possible_false)
            &&& o.uncertainty == uncertainty_of(
                has_kind(cells, atoms, Evidence::Missing),
                has_kind(cells, atoms, Evidence::Conflicting),
            )
        }),
{
    lemma_concluded(claim, fs, cells, entry, position, limits);
    let atoms = sorted(universe(claim, fs, cells));
    let mm = (1usize << (open_observations(claim, fs, cells) as usize)) as nat;
    lemma_tally_census(claim, fs, cells, atoms, entry, limits, position, mm);
}

/// The reported uncertainty names exactly the kinds of open evidence among the
/// propositions the evaluation enumerates (those of the claim, the premises
/// and every cell), an absent observation counting as missing: certain when
/// every such observation in every cell is known true or false, missing
/// (alone or mixed) when one is missing, conflicting (alone or mixed) when one
/// is conflicting.
pub proof fn law_uncertainty_reports_open_evidence(
    claim: Formula,
    fs: Seq<Formula>,
    cells: Seq<Map<u32, Evidence>>,
    entry: nat,
    position: nat,
    limits: Limits,
)
    requires
        forall|j: int| 0 <= j < cells.len() ==> #[trigger] cells[j].dom().finite(),
        evaluation(claim, fs, cells, entry, position, limits) is Ok,
    ensures
        (evaluation(claim, fs, cells, entry, position, limits)->Ok_0.uncertainty == Uncertainty::Certain) <==> (forall|i: int, a: u32|
            0 <= i < cells.len() && universe(claim, fs, cells).contains(a)
                ==> (#[trigger] evidence_of(cells[i], a) == Evidence::True || evidence_of(cells[i], a) == Evidence::False)),
        (evaluation(claim, fs, cells, entry, position, limits)->Ok_0.uncertainty == Uncertainty::Missing
            || evaluation(claim, fs, cells, entry, position, limits)->Ok_0.uncertainty == Uncertainty::Mixed) <==> (exists|i: int, a: u32|
            0 <= i < cells.len() && universe(claim, fs, cells).contains(a) && #[trigger] evidence_of(cells[i], a) == Evidence::Missing),
        (evaluation(claim, fs, cells, entry, position, limits)->Ok_0.uncertainty == Uncertainty::Conflicting
            || evaluation(claim, fs, cells, entry, position, limits)->Ok_0.uncertainty == Uncertainty::Mixed) <==> (exists|i: int, a: u32|
            0 <= i < cells.len() && universe(claim, fs, cells).contains(a) && #[trigger] evidence_of(cells[i], a) == Evidence::Conflicting),
{
    law_outcome_shape(claim, fs, cells, entry, position, limits);
    lemma_concluded(claim, fs, cells, entry, position, limits);
    let u = universe(claim, fs, cells);
    let atoms = sorted(u);
    assert forall|a: u32| u.contains(a) <==> exists|k: int| 0 <= k < atoms.len() && atoms[k] == a by {
        assert(atoms.to_set().contains(a) == atoms.contains(a));
    }
    assert forall|kind: Evidence| has_kind(cells, atoms, kind) <==> (exists|i: int, a: u32|
        0 <= i < cells.len() && u.contains(a) && #[trigger] evidence_of(cells[i], a) == kind) by {
        if has_kind(cells, atoms, kind) {
            let (i, k) = choose|i: int, k: int| 0 <= i < cells.len() && 0 <= k < atoms.len() && evidence_of(cells[i], atoms[k]) == kind;
            assert(u.contains(atoms[k]));
        }
        if exists|i: int, a: u32| 0 <= i < cells.len() && u.contains(a) && #[trigger] evidence_of(cells[i], a) == kind {
            let (i, a) = choose|i: int, a: u32| 0 <= i < cells.len() && u.contains(a) && #[trigger] evidence_of(cells[i], a) == kind;
            let k = choose|k: int| 0 <= k < atoms.len() && atoms[k] == a;
            assert(evidence_of(cells[i], atoms[k]) == kind);
        }
    }
    assert(has_kind(cells, atoms, Evidence::Impossible) ==> has_impossible(cells)) by {
        if has_kind(cells, atoms, Evidence::Impossible) {
            let (i, k) = choose|i: int, k: int| 0 <= i < cells.len() && 0 <= k < atoms.len() && evidence_of(cells[i], atoms[k]) == Evidence::Impossible;
            assert(cells[i].contains_key(atoms[k]) && cells[i][atoms[k]] == Evidence::Impossible);
        }
    }
    if !has_kind(cells, atoms, Evidence::Missing) && !has_kind(cells, atoms, Evidence::Conflicting) {
        assert forall|i: int, a: u32| 0 <= i < cells.len() && u.contains(a)
            implies (#[trigger] evidence_of(cells[i], a) == Evidence::True || evidence_of(cells[i], a) == Evidence::False) by {
            let k = choose|k: int| 0 <= k < atoms.len() && atoms[k] == a;
            assert(evidence_of(cells[i], atoms[k]) != Evidence::Impossible);
            assert(evidence_of(cells[i], atoms[k]) != Evidence::Missing);
            assert(evidence_of(cells[i], atoms[k]) != Evidence::Conflicting);
        }
    }
}

/// A plan is refused only for its resources or an inverted interval.
proof fn lemma_plan_refusals(f: Formula, w: Seq<Map<u32, bool>>, entry: nat, limits: Limits)
    ensures
        plan(f, w, entry, limits) is Ok || plan(f, w, entry, limits)->Err_0 == OracleError::ResourceIncomplete
            || plan(f, w, entry, limits)->Err_0 == OracleError::InvertedInterval,
    decreases f,
{
    match f {
        Formula::Not(a) => lemma_plan_refusals(*a, w, entry, limits),
        Formula::And(a, b) | Formula::Or(a, b) | Formula::Implies(a, b) | Formula::Equivalent(a, b) => {
            lemma_plan_refusals(*a, w, entry, limits);
            lemma_plan_refusals(*b, w, entry, limits);
        },
        Formula::Until(_, a, b) | Formula::Release(_, a, b) | Formula::Since(_, a, b) | Formula::Triggered(_, a, b) => {
            lemma_plan_refusals(*a, w, entry, limits);
            lemma_plan_refusals(*b, w, entry, limits);
        },
        Formula::Future(_, a) | Formula::Globally(_, a) | Formula::Once(_, a) | Formula::Historically(_, a) => {
            lemma_plan_refusals(*a, w, entry, limits);
        },
        Formula::StrongPrevious(a) => lemma_plan_refusals(*a, w, entry, limits),
        _ => {},
    }
}

proof fn lemma_admission_refusals(fs: Seq<Formula>, k: nat, w: Seq<Map<u32, bool>>, entry: nat, limits: Limits)
    ensures
        admission(fs, k, w, entry, limits) is Ok || admission(fs, k, w, entry, limits)->Err_0 == OracleError::ResourceIncomplete
            || admission(fs, k, w, entry, limits)->Err_0 == OracleError::InvertedInterval,
    decreases k,
{
    if k > 0 && k <= fs.len() {
        lemma_admission_refusals(fs, (k - 1) as nat, w, entry, limits);
        lemma_plan_refusals(fs[k - 1], w, entry, limits);
    }
}

proof fn lemma_tally_refusals(
    claim: Formula,
    fs: Seq<Formula>,
    cells: Seq<Map<u32, Evidence>>,
    atoms: Seq<u32>,
    entry: nat,
    limits: Limits,
    position: nat,
    m: nat,
)
    ensures
        tally(claim, fs, cells, atoms, entry, limits, position, m) is Ok
            || tally(claim, fs, cells, atoms, entry, limits, position, m)->Err_0 == OracleError::ResourceIncomplete
            || tally(claim, fs, cells, atoms, entry, limits, position, m)->Err_0 == OracleError::InvertedInterval,
    decreases m,
{
    reveal(tally);
    if m > 0 {
        lemma_tally_refusals(claim, fs, cells, atoms, entry, limits, position, (m - 1) as nat);
        let w = completion(cells, atoms, (m - 1) as usize);
        lemma_admission_refusals(fs, fs.len(), w, entry, limits);
        lemma_plan_refusals(claim, w, entry, limits);
    }
}

/// An evaluation is refused only for an impossible observation, its
/// resources, an inverted interval, or want of admitted completions.
pub proof fn law_evaluation_refusals(
    claim: Formula,
    fs: Seq<Formula>,
    cells: Seq<Map<u32, Evidence>>,
    entry: nat,
    position: nat,
    limits: Limits,
)
    ensures
        evaluation(claim, fs, cells, entry, position, limits) matches Err(e) ==> (e == OracleError::InconsistentInput
            || e == OracleError::ResourceIncomplete || e == OracleError::InvertedInterval
            || e == OracleError::EmptyFairAdmission),
{
    let atoms = sorted(universe(claim, fs, cells));
    let n = offset_of(atoms, cells, cells.len());
    if n < usize::BITS {
        lemma_tally_refusals(claim, fs, cells, atoms, entry, limits, position, (1usize << (n as usize)) as nat);
    }
}

} // verus!
