use vstd::prelude::*;
use std::collections::{BTreeMap, BTreeSet};
use vstd::arithmetic::div_mod::lemma_mod_bound;
use vstd::std_specs::iter::IteratorSpec;
use crate::atoms::{increasing, sorted, atoms_of, depth_of, larger, lemma_sorted_is, lemma_depth_positive};
use crate::semantics::{sem, recurs, occurs_from, periodic_from};
use crate::sequence::{ConcreteWord, Sequence, plan, cells_view, lemma_fold, lemma_periodic_multiple};
use crate::{Evidence, Formula, Limits, OracleError, Outcome, Uncertainty, Verdict};

verus! {

/// Adds the propositions observed in `cell` to `atoms`; false if some observation is impossible.
fn add_keys(cell: &BTreeMap<u32, Evidence>, atoms: &mut BTreeSet<u32>) -> (ok: bool)
    ensures
        ok == !(exists|a: u32| cell@.contains_key(a) && cell@[a] == Evidence::Impossible),
        ok ==> final(atoms)@ == old(atoms)@ + cell@.dom(),
{
    let ghost start = atoms@;
    for kv in it: cell.iter()
        invariant
            atoms@ == start + Set::new(|a: u32| exists|j: int| 0 <= j < it.index() && *it.seq()[j].0 == a),
            forall|j: int| 0 <= j < it.index() ==> *it.seq()[j].1 != Evidence::Impossible,
    {
        if matches!(kv.1, Evidence::Impossible) {
            proof {
                let v = vstd::std_specs::btree::spec_btree_map_iter(cell).remaining();
                assert(it.seq() == v);
                assert(cell@.contains_key(*v[it.index()].0));
            }
            return false;
        }
        atoms.insert(*kv.0);
    }
    true
}

} // verus!
verus! {

/// Inserts `a` into the increasing sequence `v`, keeping it increasing.
fn insert_sorted(v: &mut Vec<u32>, a: u32)
    requires
        increasing(old(v)@),
    ensures
        increasing(final(v)@),
        final(v)@.to_set() == old(v)@.to_set().insert(a),
{
    let n = v.len();
    let mut i: usize = 0;
    while i < n && v[i] < a
        invariant
            n == v@.len(),
            i <= n,
            forall|j: int| 0 <= j < i ==> v@[j] < a,
        decreases n - i,
    {
        i += 1;
    }
    if i < n && v[i] == a {
        assert(old(v)@.to_set().insert(a) =~= old(v)@.to_set()) by {
            assert(old(v)@.to_set().contains(a)) by {
                assert(old(v)@[i as int] == a);
            }
        }
        return;
    }
    let ghost before = v@;
    v.insert(i, a);
    proof {
        assert(v@ == before.insert(i as int, a));
        assert forall|x: int, y: int| 0 <= x < y < v@.len() implies v@[x] < v@[y] by {
            if y < i {
            } else if y == i {
            } else if x < i {
                assert(v@[y] == before[y - 1]);
                assert(before[i as int] > a);
                if y - 1 > i {
                    assert(before[i as int] < before[y - 1]);
                }
            } else if x == i {
                assert(v@[y] == before[y - 1]);
                if y - 1 > i {
                    assert(before[i as int] < before[y - 1]);
                }
            } else {
                assert(v@[x] == before[x - 1]);
                assert(v@[y] == before[y - 1]);
            }
        }
        assert forall|z: u32| v@.to_set().contains(z) <==> before.to_set().insert(a).contains(z) by {
            if v@.to_set().contains(z) {
                let k = choose|k: int| 0 <= k < v@.len() && v@[k] == z;
                if k < i {
                    assert(before[k] == z);
                } else if k > i {
                    assert(before[k - 1] == z);
                }
            }
            if before.to_set().contains(z) {
                let k = choose|k: int| 0 <= k < before.len() && before[k] == z;
                if k < i {
                    assert(v@[k] == z);
                } else {
                    assert(v@[k + 1] == z);
                }
            }
            if z == a {
                assert(v@[i as int] == a);
            }
        }
        assert(v@.to_set() =~= before.to_set().insert(a));
    }
}

/// The elements of `atoms` in increasing order.
pub(crate) fn sorted_vec(atoms: &BTreeSet<u32>) -> (r: Vec<u32>)
    ensures
        increasing(r@),
        r@.to_set() == atoms@,
{
    let mut r: Vec<u32> = Vec::new();
    let ghost v = vstd::std_specs::btree::spec_btree_keys_iter(atoms).remaining();
    for a in it: atoms.iter()
        invariant
            it.seq() == v,
            increasing(r@),
            r@.to_set() == Set::new(|x: u32| exists|j: int| 0 <= j < it.index() && *v[j] == x),
    {
        let ghost prev = r@.to_set();
        insert_sorted(&mut r, *a);
        proof {
            assert(r@.to_set() =~= Set::new(|x: u32| exists|j: int| 0 <= j < it.index() + 1 && *v[j] == x)) by {
                assert forall|x: u32| #![trigger r@.to_set().contains(x)] r@.to_set().contains(x) <==> (exists|j: int| 0 <= j < it.index() + 1 && *v[j] == x) by {
                    if x == *a {
                        assert(*v[it.index()] == x);
                    }
                    if exists|j: int| 0 <= j < it.index() + 1 && *v[j] == x {
                        let j = choose|j: int| 0 <= j < it.index() + 1 && *v[j] == x;
                        if j < it.index() {
                            assert(prev.contains(x));
                        }
                    }
                }
            }
        }
    }
    proof {
        assert(r@.to_set() =~= atoms@) by {
            assert(v.unref().to_set() == atoms@);
            assert forall|x: u32| r@.to_set().contains(x) <==> atoms@.contains(x) by {
                if r@.to_set().contains(x) {
                    let j = choose|j: int| 0 <= j < v.len() && *v[j] == x;
                    assert(v.unref()[j] == x);
                    assert(v.unref().to_set().contains(x));
                }
                if atoms@.contains(x) {
                    assert(v.unref().to_set().contains(x));
                    let j = choose|j: int| 0 <= j < v.unref().len() && v.unref()[j] == x;
                    assert(*v[j] == x);
                }
            }
        }
    }
    r
}

} // verus!

verus! {

/// A prefix followed by a nonempty loop, with proposition evidence at each cell.
#[derive(Debug)]
pub struct Lasso {
    cells: Vec<BTreeMap<u32, Evidence>>,
    loop_entry: usize,
}

impl Clone for Lasso {
    /// A copy with the same cells and loop entry.
    fn clone(&self) -> (r: Self)
        ensures
            r.view_cells() == self.view_cells(),
            r.entry() == self.entry(),
    {
        proof {
            use_type_invariant(self);
        }
        let cells = self.cells.clone();
        proof {
            assert forall|i: int| 0 <= i < cells@.len() implies cells@[i]@ == self.cells@[i]@ by {
                assert(cloned::<BTreeMap<u32, Evidence>>(self.cells[i], cells[i]));
            }
            assert(cells@.map_values(|m: BTreeMap<u32, Evidence>| m@) =~= self.cells@.map_values(|m: BTreeMap<u32, Evidence>| m@));
        }
        Lasso { cells, loop_entry: self.loop_entry }
    }
}

impl Lasso {
    #[verifier::type_invariant]
    spec fn nonempty_loop(self) -> bool {
        self.loop_entry < self.cells@.len()
    }

    /// The evidence cells, prefix then loop.
    pub closed spec fn view_cells(self) -> Seq<Map<u32, Evidence>> {
        self.cells@.map_values(|m: BTreeMap<u32, Evidence>| m@)
    }

    /// Index where the repeating loop begins.
    pub closed spec fn entry(self) -> nat {
        self.loop_entry as nat
    }

    /// Creates a lasso. A proposition absent from a cell is missing evidence.
    pub fn new(prefix: Vec<BTreeMap<u32, Evidence>>, loop_cells: Vec<BTreeMap<u32, Evidence>>) -> (r: Result<Self, OracleError>)
        ensures
            loop_cells@.len() == 0 ==> r == Err::<Lasso, OracleError>(OracleError::EmptyLoop),
            loop_cells@.len() > 0 ==> (r matches Ok(l) && l.view_cells() == (prefix@ + loop_cells@).map_values(|m: BTreeMap<u32, Evidence>| m@)
                && l.entry() == prefix@.len()),
    {
        if loop_cells.len() == 0 {
            return Err(OracleError::EmptyLoop);
        }
        let loop_entry = prefix.len();
        let mut cells = prefix;
        let mut rest = loop_cells;
        cells.append(&mut rest);
        let l = Lasso { cells, loop_entry };
        assert(l.view_cells() =~= (prefix@ + loop_cells@).map_values(|m: BTreeMap<u32, Evidence>| m@));
        Ok(l)
    }

    /// A lasso over `cells` whose loop begins at `loop_entry`.
    pub(crate) fn from_parts(cells: Vec<BTreeMap<u32, Evidence>>, loop_entry: usize) -> (r: Self)
        requires
            loop_entry < cells@.len(),
        ensures
            r.view_cells() == cells@.map_values(|m: BTreeMap<u32, Evidence>| m@),
            r.entry() == loop_entry,
    {
        Lasso { cells, loop_entry }
    }

    fn len(&self) -> (r: usize)
        ensures
            r == self.view_cells().len(),
    {
        self.cells.len()
    }

    /// Index where the repeating loop begins.
    pub fn loop_entry(&self) -> (r: usize)
        ensures
            r == self.entry(),
    {
        self.loop_entry
    }
}

/// The evidence for `a` in `cell`; an absent proposition is missing.
pub open spec fn evidence_of(cell: Map<u32, Evidence>, a: u32) -> Evidence {
    if cell.contains_key(a) {
        cell[a]
    } else {
        Evidence::Missing
    }
}

/// Missing and conflicting evidence each leave both Boolean values open.
pub open spec fn is_unknown(e: Evidence) -> bool {
    e == Evidence::Missing || e == Evidence::Conflicting
}

/// The unknown propositions of `cell`, in the order of `atoms`.
pub open spec fn row_of(atoms: Seq<u32>, cell: Map<u32, Evidence>) -> Seq<u32>
    decreases atoms.len(),
{
    if atoms.len() == 0 {
        Seq::empty()
    } else {
        let r = row_of(atoms.drop_last(), cell);
        if is_unknown(evidence_of(cell, atoms.last())) {
            r.push(atoms.last())
        } else {
            r
        }
    }
}

/// The number of unknown observations in the first `i` cells: the first
/// completion bit used by cell `i`.
pub open spec fn offset_of(atoms: Seq<u32>, cells: Seq<Map<u32, Evidence>>, i: nat) -> nat
    decreases i,
{
    if i == 0 {
        0
    } else {
        offset_of(atoms, cells, (i - 1) as nat) + row_of(atoms, cells[i - 1]).len()
    }
}

/// The known Boolean values of a cell.
pub open spec fn known(cell: Map<u32, Evidence>) -> Map<u32, bool> {
    Map::new(
        |a: u32| cell.contains_key(a) && (cell[a] == Evidence::True || cell[a] == Evidence::False),
        |a: u32| cell[a] == Evidence::True,
    )
}

/// Bit `b` of a completion mask.
pub open spec fn mask_bit(mask: usize, b: nat) -> bool {
    (mask & (1usize << (b as usize))) != 0usize
}

/// A cell completed by mask bits `base..base + row.len()` for its unknown propositions `row`.
pub open spec fn fill(cell: Map<u32, Evidence>, row: Seq<u32>, mask: usize, base: nat) -> Map<u32, bool>
    decreases row.len(),
{
    if row.len() == 0 {
        known(cell)
    } else {
        fill(cell, row.drop_last(), mask, base).insert(row.last(), mask_bit(mask, (base + row.len() - 1) as nat))
    }
}

/// The Boolean completion that `mask` selects: the `k`-th unknown observation,
/// cells in order and propositions in the order of `atoms`, takes bit `k`.
pub open spec fn completion(cells: Seq<Map<u32, Evidence>>, atoms: Seq<u32>, mask: usize) -> Seq<Map<u32, bool>> {
    Seq::new(cells.len(), |i: int| fill(cells[i], row_of(atoms, cells[i]), mask, offset_of(atoms, cells, i as nat)))
}

/// Some cell holds an impossible observation.
pub open spec fn has_impossible(cells: Seq<Map<u32, Evidence>>) -> bool {
    exists|i: int, a: u32| 0 <= i < cells.len() && cells[i].contains_key(a) && cells[i][a] == Evidence::Impossible
}

/// Propositions observed in any cell.
pub open spec fn cell_keys(cells: Seq<Map<u32, Evidence>>) -> Set<u32>
    decreases cells.len(),
{
    if cells.len() == 0 {
        Set::empty()
    } else {
        cell_keys(cells.drop_last()) + cells.last().dom()
    }
}

/// Propositions referenced by the first `k` premises.
pub open spec fn premise_atoms(fs: Seq<Formula>, k: nat) -> Set<u32>
    decreases k,
{
    if k == 0 || k > fs.len() {
        Set::empty()
    } else {
        premise_atoms(fs, (k - 1) as nat) + atoms_of(fs[k - 1])
    }
}

/// The deepest of the claim and the first `k` premises.
pub open spec fn deepest(claim: Formula, fs: Seq<Formula>, k: nat) -> nat
    decreases k,
{
    if k == 0 || k > fs.len() {
        depth_of(claim)
    } else {
        larger(deepest(claim, fs, (k - 1) as nat), depth_of(fs[k - 1]))
    }
}

/// Every proposition the claim, the premises or the cells mention.
pub open spec fn universe(claim: Formula, fs: Seq<Formula>, cells: Seq<Map<u32, Evidence>>) -> Set<u32> {
    atoms_of(claim) + premise_atoms(fs, fs.len()) + cell_keys(cells)
}

/// Evidence of `kind` occurs for some proposition of `atoms` in some cell.
pub open spec fn has_kind(cells: Seq<Map<u32, Evidence>>, atoms: Seq<u32>, kind: Evidence) -> bool {
    exists|i: int, k: int| 0 <= i < cells.len() && 0 <= k < atoms.len() && evidence_of(cells[i], atoms[k]) == kind
}

/// Fairness filtering of one completion by its first `k` premises: a premise is
/// evaluated only while all earlier ones recur, and the first refusal stops it.
pub open spec fn admission(fs: Seq<Formula>, k: nat, word: Seq<Map<u32, bool>>, entry: nat, limits: Limits) -> Result<bool, OracleError>
    decreases k,
{
    if k == 0 || k > fs.len() {
        Ok(true)
    } else {
        match admission(fs, (k - 1) as nat, word, entry, limits) {
            Err(e) => Err(e),
            Ok(false) => Ok(false),
            Ok(true) => match plan(fs[k - 1], word, entry, limits) {
                Err(e) => Err(e),
                Ok(_) => Ok(recurs(sem(fs[k - 1], word, entry))),
            },
        }
    }
}

/// One completion: not admitted, admitted with the claim's value at `position`, or a refusal.
pub open spec fn step(
    claim: Formula,
    fs: Seq<Formula>,
    word: Seq<Map<u32, bool>>,
    entry: nat,
    limits: Limits,
    position: nat,
) -> Result<Option<bool>, OracleError> {
    match admission(fs, fs.len(), word, entry, limits) {
        Err(e) => Err(e),
        Ok(false) => Ok(None),
        Ok(true) => match plan(claim, word, entry, limits) {
            Err(e) => Err(e),
            Ok(_) => Ok(Some(sem(claim, word, entry)(position))),
        },
    }
}

#[verifier::opaque]
/// Whether some admitted completion among masks `0..m` made the claim true,
/// whether one made it false, and how many were admitted; or the refusal of
/// the first completion that met one.
pub open spec fn tally(
    claim: Formula,
    fs: Seq<Formula>,
    cells: Seq<Map<u32, Evidence>>,
    atoms: Seq<u32>,
    entry: nat,
    limits: Limits,
    position: nat,
    m: nat,
) -> Result<(bool, bool, nat), OracleError>
    decreases m,
{
    if m == 0 {
        Ok((false, false, 0))
    } else {
        match tally(claim, fs, cells, atoms, entry, limits, position, (m - 1) as nat) {
            Err(e) => Err(e),
            Ok((pt, pf, c)) => match step(claim, fs, completion(cells, atoms, (m - 1) as usize), entry, limits, position) {
                Err(e) => Err(e),
                Ok(None) => Ok((pt, pf, c)),
                Ok(Some(v)) => Ok((pt || v, pf || !v, c + 1)),
            },
        }
    }
}

/// The source of open possibilities.
pub open spec fn uncertainty_of(missing: bool, conflicting: bool) -> Uncertainty {
    if missing && conflicting {
        Uncertainty::Mixed
    } else if missing {
        Uncertainty::Missing
    } else if conflicting {
        Uncertainty::Conflicting
    } else {
        Uncertainty::Certain
    }
}

/// The result of evaluating `claim` at `position` over every completion of the
/// lasso `cells` with loop entry `entry`, filtered by the premises `fs`.
pub open spec fn evaluation(
    claim: Formula,
    fs: Seq<Formula>,
    cells: Seq<Map<u32, Evidence>>,
    entry: nat,
    position: nat,
    limits: Limits,
) -> Result<Outcome, OracleError> {
    if has_impossible(cells) {
        Err(OracleError::InconsistentInput)
    } else if deepest(claim, fs, fs.len()) > limits.max_depth || cells.len() > limits.max_positions {
        Err(OracleError::ResourceIncomplete)
    } else {
        let atoms = sorted(universe(claim, fs, cells));
        let n = offset_of(atoms, cells, cells.len());
        if n >= usize::BITS {
            Err(OracleError::ResourceIncomplete)
        } else if (1usize << (n as usize)) > limits.max_completions {
            Err(OracleError::ResourceIncomplete)
        } else {
            conclude(tally(claim, fs, cells, atoms, entry, limits, position, (1usize << (n as usize)) as nat), cells, atoms)
        }
    }
}

/// The outcome of a complete tally: the verdict from which values admitted
/// completions gave the claim, or a refusal when none was admitted.
pub open spec fn conclude(t: Result<(bool, bool, nat), OracleError>, cells: Seq<Map<u32, Evidence>>, atoms: Seq<u32>) -> Result<Outcome, OracleError> {
    match t {
        Err(e) => Err(e),
        Ok((pt, pf, c)) => if c == 0 || !(pt || pf) {
            Err(OracleError::EmptyFairAdmission)
        } else {
            Ok(
                Outcome {
                    verdict: if pt && pf {
                        Verdict::Inconclusive
                    } else if pt {
                        Verdict::Proved
                    } else {
                        Verdict::Refuted
                    },
                    possible_true: pt,
                    possible_false: pf,
                    fair_completions: c as usize,
                    uncertainty: uncertainty_of(
                        has_kind(cells, atoms, Evidence::Missing),
                        has_kind(cells, atoms, Evidence::Conflicting),
                    ),
                },
            )
        },
    }
}

/// The claim's and premises' propositions and depth, with every cell's propositions; or
/// the refusal of a cell holding an impossible observation.
fn gather(claim: &Formula, fairness: &[Formula], lasso: &Lasso) -> (r: Result<(BTreeSet<u32>, usize), OracleError>)
    requires
        depth_of(*claim) < usize::MAX,
        forall|k: int| 0 <= k < fairness@.len() ==> depth_of(#[trigger] fairness@[k]) < usize::MAX,
    ensures
        match r {
            Err(e) => e == OracleError::InconsistentInput && has_impossible(lasso.view_cells()),
            Ok((atoms, depth)) => !has_impossible(lasso.view_cells()) && atoms@ == universe(
                *claim,
                fairness@,
                lasso.view_cells(),
            ) && depth == deepest(*claim, fairness@, fairness@.len()),
        },
{
    let mut atoms: BTreeSet<u32> = BTreeSet::new();
    let mut depth = claim.collect_atoms(&mut atoms, 1);
    let ghost fs = fairness@;
    let mut k: usize = 0;
    while k < fairness.len()
        invariant
            fs == fairness@,
            k <= fs.len(),
            forall|j: int| 0 <= j < fs.len() ==> depth_of(#[trigger] fs[j]) < usize::MAX,
            atoms@ == atoms_of(*claim) + premise_atoms(fs, k as nat),
            depth == deepest(*claim, fs, k as nat),
        decreases fs.len() - k,
    {
        let d = fairness[k].collect_atoms(&mut atoms, 1);
        depth = if depth >= d { depth } else { d };
        assert(atoms@ =~= atoms_of(*claim) + premise_atoms(fs, (k + 1) as nat));
        k += 1;
    }
    let ghost cells = lasso.view_cells();
    let ghost base = atoms@;
    let n = lasso.cells.len();
    let mut i: usize = 0;
    while i < n
        invariant
            n == lasso.cells@.len(),
            cells == lasso.view_cells(),
            i <= n,
            atoms@ == base + cell_keys(cells.take(i as int)),
            !has_impossible(cells.take(i as int)),
        decreases n - i,
    {
        let ghost prev = atoms@;
        let ok = add_keys(&lasso.cells[i], &mut atoms);
        if !ok {
            proof {
                let a = choose|a: u32| cells[i as int].contains_key(a) && cells[i as int][a] == Evidence::Impossible;
                assert(cells[i as int] == lasso.cells@[i as int]@);
            }
            return Err(OracleError::InconsistentInput);
        }
        proof {
            assert(cells.take(i + 1).drop_last() =~= cells.take(i as int));
            assert(cells.take(i + 1).last() == lasso.cells@[i as int]@);
            assert(atoms@ =~= base + cell_keys(cells.take(i + 1)));
            assert forall|j: int, a: u32| 0 <= j < i + 1 && #[trigger] cells.take(i + 1)[j].contains_key(a) implies cells.take(i + 1)[j][a] != Evidence::Impossible by {
                if j < i {
                    assert(cells.take(i as int)[j] == cells.take(i + 1)[j]);
                }
            }
        }
        i += 1;
    }
    proof {
        assert(cells.take(n as int) =~= cells);
        assert(atoms@ =~= universe(*claim, fs, cells));
    }
    Ok((atoms, depth))
}

/// The unknown propositions of each cell in the order of `order`, how many there
/// are in all (saturating at the largest `usize`), and whether any is missing or conflicting.
fn unknown_rows(lasso: &Lasso, order: &Vec<u32>) -> (r: (Vec<Vec<u32>>, usize, bool, bool))
    requires
        !has_impossible(lasso.view_cells()),
    ensures
        r.0@.len() == lasso.view_cells().len(),
        forall|i: int| 0 <= i < r.0@.len() ==> #[trigger] r.0@[i]@ == row_of(order@, lasso.view_cells()[i]),
        r.1 == (if offset_of(order@, lasso.view_cells(), lasso.view_cells().len()) > usize::MAX {
            usize::MAX as nat
        } else {
            offset_of(order@, lasso.view_cells(), lasso.view_cells().len())
        }),
        r.2 == has_kind(lasso.view_cells(), order@, Evidence::Missing),
        r.3 == has_kind(lasso.view_cells(), order@, Evidence::Conflicting),
{
    let ghost cells = lasso.view_cells();
    let ghost atoms = order@;
    let n = lasso.cells.len();
    let m = order.len();
    let mut rows: Vec<Vec<u32>> = Vec::new();
    let mut total: usize = 0;
    let mut missing = false;
    let mut conflicting = false;
    let mut i: usize = 0;
    while i < n
        invariant
            n == cells.len(),
            cells == lasso.view_cells(),
            n == lasso.cells@.len(),
            m == atoms.len(),
            atoms == order@,
            !has_impossible(cells),
            i <= n,
            rows@.len() == i,
            forall|j: int| 0 <= j < i ==> #[trigger] rows@[j]@ == row_of(atoms, cells[j]),
            total == (if offset_of(atoms, cells, i as nat) > usize::MAX {
                usize::MAX as nat
            } else {
                offset_of(atoms, cells, i as nat)
            }),
            missing == (exists|j: int, k: int| 0 <= j < i && 0 <= k < m && evidence_of(cells[j], atoms[k]) == Evidence::Missing),
            conflicting == (exists|j: int, k: int| 0 <= j < i && 0 <= k < m && evidence_of(cells[j], atoms[k]) == Evidence::Conflicting),
        decreases n - i,
    {
        let cell = &lasso.cells[i];
        assert(cell@ == cells[i as int]);
        let mut row: Vec<u32> = Vec::new();
        let mut k: usize = 0;
        while k < m
            invariant
                m == atoms.len(),
                atoms == order@,
                cell@ == cells[i as int],
                !has_impossible(cells),
                0 <= i < n,
                n == cells.len(),
                k <= m,
                row@ == row_of(atoms.take(k as int), cell@),
                missing == (exists|j: int, k2: int| (0 <= j < i && 0 <= k2 < m || j == i && 0 <= k2 < k) && evidence_of(cells[j], atoms[k2]) == Evidence::Missing),
                conflicting == (exists|j: int, k2: int| (0 <= j < i && 0 <= k2 < m || j == i && 0 <= k2 < k) && evidence_of(cells[j], atoms[k2]) == Evidence::Conflicting),
            decreases m - k,
        {
            let a = order[k];
            assert(atoms.take(k + 1).drop_last() =~= atoms.take(k as int));
            assert(atoms.take(k + 1).last() == a);
            match cell.get(&a) {
                None => {
                    row.push(a);
                    missing = true;
                },
                Some(Evidence::Missing) => {
                    row.push(a);
                    missing = true;
                },
                Some(Evidence::Conflicting) => {
                    row.push(a);
                    conflicting = true;
                },
                Some(Evidence::Impossible) => {
                    assert(has_impossible(cells));
                    return (rows, total, missing, conflicting);
                },
                Some(_) => {},
            }
            proof {
                assert(evidence_of(cells[i as int], atoms[k as int]) == evidence_of(cell@, a));
                assert(row@ =~= row_of(atoms.take(k + 1), cell@));
            }
            k += 1;
        }
        proof {
            assert(atoms.take(m as int) =~= atoms);
        }
        let len = row.len();
        total = total.saturating_add(len);
        rows.push(row);
        i += 1;
    }
    proof {
        assert(cells.len() == n);
    }
    (rows, total, missing, conflicting)
}


/// The known Boolean values of one evidence cell.
fn known_cell(cell: &BTreeMap<u32, Evidence>) -> (r: BTreeMap<u32, bool>)
    ensures
        r@ == known(cell@),
{
    let mut r: BTreeMap<u32, bool> = BTreeMap::new();
    let ghost v = vstd::std_specs::btree::spec_btree_map_iter(cell).remaining();
    for kv in it: cell.iter()
        invariant
            it.seq() == v,
            r@ == Map::new(
                |a: u32| exists|j: int| 0 <= j < it.index() && *v[j].0 == a && (*v[j].1 == Evidence::True || *v[j].1 == Evidence::False),
                |a: u32| cell@[a] == Evidence::True,
            ),
    {
        let ghost prev = r@;
        proof {
            assert(cell@.contains_key(*v[it.index()].0));
        }
        match kv.1 {
            Evidence::True => {
                r.insert(*kv.0, true);
            },
            Evidence::False => {
                r.insert(*kv.0, false);
            },
            _ => {},
        }
        proof {
            let next = Map::new(
                |a: u32| exists|j: int| 0 <= j < it.index() + 1 && *v[j].0 == a && (*v[j].1 == Evidence::True || *v[j].1 == Evidence::False),
                |a: u32| cell@[a] == Evidence::True,
            );
            assert forall|a: u32| #![trigger r@.contains_key(a)] r@.contains_key(a) <==> next.contains_key(a) by {
                if next.contains_key(a) {
                    let j = choose|j: int| 0 <= j < it.index() + 1 && *v[j].0 == a && (*v[j].1 == Evidence::True || *v[j].1 == Evidence::False);
                    if j < it.index() {
                        assert(prev.contains_key(a));
                    }
                }
            }
            assert(r@ =~= next);
        }
    }
    proof {
        assert forall|a: u32| #![trigger r@.contains_key(a)] r@.contains_key(a) <==> known(cell@).contains_key(a) by {
            if r@.contains_key(a) {
                let j = choose|j: int| 0 <= j < v.len() && *v[j].0 == a && (*v[j].1 == Evidence::True || *v[j].1 == Evidence::False);
                assert(cell@.contains_key(*v[j].0));
            }
            if known(cell@).contains_key(a) {
                assert(v.contains((&a, &cell@[a])));
                let j = choose|j: int| 0 <= j < v.len() && v[j] == (&a, &cell@[a]);
                assert(*v[j].0 == a);
            }
        }
        assert(r@ =~= known(cell@));
    }
    r
}

/// Offsets never decrease along the cells.
proof fn lemma_offset_monotone(atoms: Seq<u32>, cells: Seq<Map<u32, Evidence>>, i: nat, j: nat)
    requires
        i <= j,
    ensures
        offset_of(atoms, cells, i) <= offset_of(atoms, cells, j),
    decreases j,
{
    if i < j {
        lemma_offset_monotone(atoms, cells, i, (j - 1) as nat);
    }
}

/// The Boolean completion that `mask` selects.
fn complete(lasso: &Lasso, order: &Vec<u32>, rows: &Vec<Vec<u32>>, mask: usize) -> (r: Vec<BTreeMap<u32, bool>>)
    requires
        rows@.len() == lasso.view_cells().len(),
        forall|i: int| 0 <= i < rows@.len() ==> #[trigger] rows@[i]@ == row_of(order@, lasso.view_cells()[i]),
        offset_of(order@, lasso.view_cells(), lasso.view_cells().len()) < usize::BITS,
    ensures
        cells_view(r@) == completion(lasso.view_cells(), order@, mask),
        r@.len() == lasso.view_cells().len(),
{
    let ghost cells = lasso.view_cells();
    let ghost atoms = order@;
    let n = lasso.cells.len();
    let mut r: Vec<BTreeMap<u32, bool>> = Vec::new();
    let mut base: usize = 0;
    let mut i: usize = 0;
    while i < n
        invariant
            n == cells.len(),
            cells == lasso.view_cells(),
            n == lasso.cells@.len(),
            atoms == order@,
            rows@.len() == n,
            forall|j: int| 0 <= j < rows@.len() ==> #[trigger] rows@[j]@ == row_of(atoms, cells[j]),
            offset_of(atoms, cells, n as nat) < usize::BITS,
            i <= n,
            base == offset_of(atoms, cells, i as nat),
            r@.len() == i,
            forall|j: int| 0 <= j < i ==> #[trigger] r@[j]@ == completion(cells, atoms, mask)[j],
        decreases n - i,
    {
        proof {
            lemma_offset_monotone(atoms, cells, (i + 1) as nat, n as nat);
        }
        let mut m = known_cell(&lasso.cells[i]);
        let row = &rows[i];
        let len = row.len();
        let ghost cell = cells[i as int];
        assert(lasso.cells@[i as int]@ == cell);
        let mut k: usize = 0;
        while k < len
            invariant
                len == row@.len(),
                row@ == row_of(atoms, cell),
                base + len < usize::BITS,
                k <= len,
                m@ == fill(cell, row@.take(k as int), mask, base as nat),
            decreases len - k,
        {
            let bit = (mask & (1usize << (base + k))) != 0;
            m.insert(row[k], bit);
            proof {
                assert(row@.take(k + 1).drop_last() =~= row@.take(k as int));
                assert(m@ =~= fill(cell, row@.take(k + 1), mask, base as nat));
            }
            k += 1;
        }
        proof {
            assert(row@.take(len as int) =~= row@);
        }
        r.push(m);
        base = base + len;
        i += 1;
    }
    proof {
        assert(cells_view(r@) =~= completion(cells, atoms, mask));
    }
    r
}

/// Whether a sequence holds somewhere in one period from its start; exactly
/// when it holds at infinitely many positions.
fn recurs_in_period(sq: &Sequence) -> (r: bool)
    requires
        sq.wf(),
    ensures
        r == recurs(sq.view_fn()),
{
    let end = sq.values.len();
    let mut index = sq.start;
    while index < end
        invariant
            sq.wf(),
            end == sq.start + sq.period,
            sq.start <= index <= end,
            forall|t: nat| sq.start <= t < index ==> !#[trigger] sq.view_fn()(t),
        decreases end - index,
    {
        if sq.at(index) {
            proof {
                sq.lemma_periodic();
                let f = sq.view_fn();
                assert forall|n: nat| #[trigger] occurs_from(f, n) by {
                    let t = index as nat + n * (sq.period as nat);
                    lemma_periodic_multiple(f, sq.start as nat, sq.period as nat, index as nat, n);
                    assert(n <= n * (sq.period as nat)) by (nonlinear_arith)
                        requires
                            sq.period >= 1,
                    ;
                    assert(n <= t && f(t));
                }
            }
            return true;
        }
        index += 1;
    }
    proof {
        let f = sq.view_fn();
        sq.lemma_periodic();
        if recurs(f) {
            assert(occurs_from(f, sq.start as nat));
            let t = choose|t: nat| sq.start <= t && #[trigger] f(t);
            lemma_fold(f, sq.start as nat, sq.period as nat, t);
            lemma_mod_bound(t - sq.start, sq.period as int);
            let u = (sq.start + (t - sq.start) % (sq.period as int)) as nat;
            assert(f(u));
        }
    }
    false
}

/// Fairness filtering of one completion: every premise must recur.
fn admitted(word: &ConcreteWord, fairness: &[Formula]) -> (r: Result<bool, OracleError>)
    requires
        word.wf(),
    ensures
        r == admission(fairness@, fairness@.len(), word.view_cells(), word.loop_entry as nat, word.limits),
{
    let mut admitted = true;
    let mut k: usize = 0;
    while k < fairness.len()
        invariant
            word.wf(),
            k <= fairness@.len(),
            admission(fairness@, k as nat, word.view_cells(), word.loop_entry as nat, word.limits) == Ok::<bool, OracleError>(admitted),
        decreases fairness@.len() - k,
    {
        if admitted {
            match word.eval(&fairness[k]) {
                Ok(sq) => {
                    admitted = recurs_in_period(&sq);
                },
                Err(e) => {
                    proof {
                        lemma_admission_settled(fairness@, (k + 1) as nat, fairness@.len(), word.view_cells(), word.loop_entry as nat, word.limits);
                    }
                    return Err(e);
                },
            }
        }
        proof {
            if !admitted {
                lemma_admission_settled(fairness@, (k + 1) as nat, fairness@.len(), word.view_cells(), word.loop_entry as nat, word.limits);
            }
        }
        k += 1;
    }
    Ok(admitted)
}

/// Once a premise refuses or fails to recur, later premises change nothing.
proof fn lemma_admission_settled(fs: Seq<Formula>, k: nat, j: nat, word: Seq<Map<u32, bool>>, entry: nat, limits: Limits)
    requires
        k <= j <= fs.len(),
        admission(fs, k, word, entry, limits) != Ok::<bool, OracleError>(true),
    ensures
        admission(fs, j, word, entry, limits) == admission(fs, k, word, entry, limits),
    decreases j,
{
    if k < j {
        lemma_admission_settled(fs, k, (j - 1) as nat, word, entry, limits);
    }
}


/// One completion: whether it is admitted and, if so, the claim's value at `position`.
fn run_step(word: &ConcreteWord, claim: &Formula, fairness: &[Formula], position: usize) -> (r: Result<Option<bool>, OracleError>)
    requires
        word.wf(),
    ensures
        r == step(*claim, fairness@, word.view_cells(), word.loop_entry as nat, word.limits, position as nat),
{
    if !admitted(word, fairness)? {
        return Ok(None);
    }
    let sq = word.eval(claim)?;
    Ok(Some(sq.at(position)))
}

/// The tally over one more mask.
proof fn lemma_tally_next(
    claim: Formula,
    fs: Seq<Formula>,
    cells: Seq<Map<u32, Evidence>>,
    atoms: Seq<u32>,
    entry: nat,
    limits: Limits,
    position: nat,
    m: nat,
)
    ensures
        tally(claim, fs, cells, atoms, entry, limits, position, m + 1) == match tally(claim, fs, cells, atoms, entry, limits, position, m) {
            Err(e) => Err(e),
            Ok((pt, pf, c)) => match step(claim, fs, completion(cells, atoms, m as usize), entry, limits, position) {
                Err(e) => Err(e),
                Ok(None) => Ok((pt, pf, c)),
                Ok(Some(v)) => Ok((pt || v, pf || !v, c + 1)),
            },
        },
{
    reveal(tally);
}

/// Once a completion meets a refusal, the tally keeps it.
proof fn lemma_tally_settled(
    claim: Formula,
    fs: Seq<Formula>,
    cells: Seq<Map<u32, Evidence>>,
    atoms: Seq<u32>,
    entry: nat,
    limits: Limits,
    position: nat,
    m: nat,
    j: nat,
)
    requires
        m <= j,
        tally(claim, fs, cells, atoms, entry, limits, position, m) is Err,
    ensures
        tally(claim, fs, cells, atoms, entry, limits, position, j) == tally(claim, fs, cells, atoms, entry, limits, position, m),
    decreases j,
{
    reveal(tally);
    if m < j {
        lemma_tally_settled(claim, fs, cells, atoms, entry, limits, position, m, (j - 1) as nat);
    }
}

/// Evaluates a claim at `position` on one lasso, with fairness filtering.
///
/// Missing and conflicting observations each enumerate two Boolean values but
/// retain different reasons. A completion fixes each cell once across all
/// references and all repetitions of the loop. The result is exactly
/// [`evaluation`]: the verdict over all admitted completions, or the refusal
/// met first; it never settles a model claim. Any limits are accepted: a sum
/// of positions or offsets that would pass the machine's word is a resource
/// refusal.
pub fn evaluate(
    claim: &Formula,
    fairness: &[Formula],
    lasso: &Lasso,
    position: usize,
    limits: Limits,
) -> (r: Result<Outcome, OracleError>)
    requires
        depth_of(*claim) < usize::MAX,
        forall|k: int| 0 <= k < fairness@.len() ==> depth_of(#[trigger] fairness@[k]) < usize::MAX,
    ensures
        r == evaluation(*claim, fairness@, lasso.view_cells(), lasso.entry(), position as nat, limits),
{
    proof {
        use_type_invariant(lasso);
    }
    let ghost cells = lasso.view_cells();
    let ghost entry = lasso.entry();
    let ghost fs = fairness@;
    let (atoms, depth) = gather(claim, fairness, lasso)?;
    if depth > limits.max_depth || lasso.len() > limits.max_positions {
        return Err(OracleError::ResourceIncomplete);
    }
    let order = sorted_vec(&atoms);
    proof {
        lemma_sorted_is(order@);
    }
    let ghost atoms_seq = order@;
    assert(atoms_seq == sorted(universe(*claim, fs, cells)));
    let (rows, total, missing, conflicting) = unknown_rows(lasso, &order);
    let ghost n = offset_of(atoms_seq, cells, cells.len());
    if total >= usize::BITS as usize {
        return Err(OracleError::ResourceIncomplete);
    }
    assert(total == n);
    let completions: usize = 1usize << total;
    if completions > limits.max_completions {
        return Err(OracleError::ResourceIncomplete);
    }
    let mut possible_true = false;
    let mut possible_false = false;
    let mut fair_completions: usize = 0;
    let mut mask: usize = 0;
    assert(tally(*claim, fs, cells, atoms_seq, entry, limits, position as nat, 0) == Ok::<(bool, bool, nat), OracleError>((false, false, 0))) by {
        reveal(tally);
    }
    while mask < completions
        invariant
            lasso.loop_entry < lasso.cells@.len(),
            lasso.cells@.len() <= limits.max_positions,
            cells == lasso.view_cells(),
            entry == lasso.entry(),
            fs == fairness@,
            atoms_seq == order@,
            rows@.len() == cells.len(),
            forall|i: int| 0 <= i < rows@.len() ==> #[trigger] rows@[i]@ == row_of(order@, cells[i]),
            n == offset_of(atoms_seq, cells, cells.len()),
            n < usize::BITS,
            completions == (1usize << (n as usize)),
            evaluation(*claim, fs, cells, entry, position as nat, limits) == conclude(
                tally(*claim, fs, cells, atoms_seq, entry, limits, position as nat, completions as nat),
                cells,
                atoms_seq,
            ),
            missing == has_kind(cells, atoms_seq, Evidence::Missing),
            conflicting == has_kind(cells, atoms_seq, Evidence::Conflicting),
            mask <= completions,
            fair_completions <= mask,
            tally(*claim, fs, cells, atoms_seq, entry, limits, position as nat, mask as nat) == Ok::<(bool, bool, nat), OracleError>(
                (possible_true, possible_false, fair_completions as nat),
            ),
        decreases completions - mask,
    {
        let word_cells = complete(lasso, &order, &rows, mask);
        let word = ConcreteWord { cells: word_cells.as_slice(), loop_entry: lasso.loop_entry, limits };
        assert(word.cells@ == word_cells@);
        assert(word.view_cells() == completion(cells, atoms_seq, mask));
        let result = run_step(&word, claim, fairness, position);
        proof {
            lemma_tally_next(*claim, fs, cells, atoms_seq, entry, limits, position as nat, mask as nat);
        }
        match result {
            Err(e) => {
                proof {
                    assert(tally(*claim, fs, cells, atoms_seq, entry, limits, position as nat, (mask + 1) as nat) == Err::<(bool, bool, nat), OracleError>(e));
                    lemma_tally_settled(*claim, fs, cells, atoms_seq, entry, limits, position as nat, (mask + 1) as nat, completions as nat);
                    assert(completions as nat == (1usize << (n as usize)) as nat);
                }
                return Err(e);
            },
            Ok(None) => {},
            Ok(Some(value)) => {
                fair_completions = fair_completions + 1;
                possible_true = possible_true || value;
                possible_false = possible_false || !value;
            },
        }
        mask += 1;
    }
    if fair_completions == 0 {
        return Err(OracleError::EmptyFairAdmission);
    }
    let verdict = if possible_true && possible_false {
        Verdict::Inconclusive
    } else if possible_true {
        Verdict::Proved
    } else if possible_false {
        Verdict::Refuted
    } else {
        return Err(OracleError::EmptyFairAdmission);
    };
    let uncertainty = if missing && conflicting {
        Uncertainty::Mixed
    } else if missing {
        Uncertainty::Missing
    } else if conflicting {
        Uncertainty::Conflicting
    } else {
        Uncertainty::Certain
    };
    Ok(Outcome { verdict, possible_true, possible_false, fair_completions, uncertainty })
}

} // verus!
