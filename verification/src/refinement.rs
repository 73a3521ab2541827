//! Refining an open observation to a known value only removes possibilities.
//!
//! A completion of the refined lasso is the completion of the unrefined lasso
//! whose mask carries the known value at the bit of the refined observation,
//! so every admitted completion of the refined lasso is one of the unrefined lasso.

use vstd::prelude::*;
use crate::{Evidence, Formula, Limits};
use crate::atoms::{increasing, lemma_sorted_exists, sorted};
use crate::lasso::{
    cell_keys, completion, evaluation, evidence_of, fill, is_unknown, known, mask_bit, offset_of,
    premise_atoms, row_of, step, tally, universe,
};
use crate::laws::{lemma_atoms_finite, lemma_cell_keys, lemma_cell_keys_finite, lemma_premise_atoms_finite};

verus! {

/// The mask of the unrefined lasso that agrees with `m` below bit `p`, holds
/// `v` at bit `p`, and holds bit `b` of `m` at bit `b + 1` above it.
pub open spec fn insert_bit(m: usize, p: usize, v: bool) -> usize {
    ((m >> p) << (p + 1)) | ((if v { 1usize } else { 0usize }) << p) | (m & sub1(1usize << p))
}

/// `x - 1` on machine words.
pub open spec fn sub1(x: usize) -> usize {
    (x - 1) as usize
}

proof fn lemma_insert_bit_low(m: usize, p: usize, v: bool, b: usize)
    by (bit_vector)
    requires
        p + 1 < usize::BITS,
        b < p,
    ensures
        ((((m >> p) << (p + 1)) | ((if v { 1usize } else { 0usize }) << p) | (m & sub1(1usize << p))) & (1usize << b)) != 0usize
            <==> (m & (1usize << b)) != 0usize,
{
}

proof fn lemma_insert_bit_mid(m: usize, p: usize, v: bool)
    by (bit_vector)
    requires
        p + 1 < usize::BITS,
    ensures
        ((((m >> p) << (p + 1)) | ((if v { 1usize } else { 0usize }) << p) | (m & sub1(1usize << p))) & (1usize << p)) != 0usize
            <==> v,
{
}

proof fn lemma_insert_bit_high(m: usize, p: usize, v: bool, b: usize)
    by (bit_vector)
    requires
        p + 1 < usize::BITS,
        p < b < usize::BITS,
    ensures
        ((((m >> p) << (p + 1)) | ((if v { 1usize } else { 0usize }) << p) | (m & sub1(1usize << p))) & (1usize << b)) != 0usize
            <==> (m & (1usize << sub1(b))) != 0usize,
{
}

proof fn lemma_insert_bit_range(m: usize, p: usize, v: bool, n: usize)
    by (bit_vector)
    requires
        1 <= n < usize::BITS,
        p < n,
        m < (1usize << sub1(n)),
    ensures
        (((m >> p) << (p + 1)) | ((if v { 1usize } else { 0usize }) << p) | (m & sub1(1usize << p))) < (1usize << n),
{
}

proof fn lemma_insert_bit_injective(m1: usize, m2: usize, p: usize, v: bool, n: usize)
    by (bit_vector)
    requires
        1 <= n < usize::BITS,
        p < n,
        m1 < (1usize << sub1(n)),
        m2 < (1usize << sub1(n)),
        (((m1 >> p) << (p + 1)) | ((if v { 1usize } else { 0usize }) << p) | (m1 & sub1(1usize << p)))
            == (((m2 >> p) << (p + 1)) | ((if v { 1usize } else { 0usize }) << p) | (m2 & sub1(1usize << p))),
    ensures
        m1 == m2,
{
}

/// The bits of an inserted mask, as [`mask_bit`] reads them.
proof fn lemma_insert_bit(m: usize, p: nat, v: bool, b: nat)
    requires
        p + 1 < usize::BITS,
        b < usize::BITS,
    ensures
        b < p ==> mask_bit(insert_bit(m, p as usize, v), b) == mask_bit(m, b),
        b == p ==> mask_bit(insert_bit(m, p as usize, v), b) == v,
        b > p ==> mask_bit(insert_bit(m, p as usize, v), b) == mask_bit(m, (b - 1) as nat),
{
    if b < p {
        lemma_insert_bit_low(m, p as usize, v, b as usize);
    } else if b == p {
        lemma_insert_bit_mid(m, p as usize, v);
    } else {
        lemma_insert_bit_high(m, p as usize, v, b as usize);
        assert(sub1(b as usize) == (b - 1) as usize);
    }
}

/// A row lists, in increasing order, exactly the unknown propositions of `atoms`.
pub(crate) proof fn lemma_row_of(atoms: Seq<u32>, cell: Map<u32, Evidence>)
    requires
        increasing(atoms),
    ensures
        increasing(row_of(atoms, cell)),
        forall|x: u32| #[trigger] row_of(atoms, cell).contains(x) <==> atoms.contains(x) && is_unknown(evidence_of(cell, x)),
    decreases atoms.len(),
{
    if atoms.len() > 0 {
        let d = atoms.drop_last();
        assert(increasing(d));
        lemma_row_of(d, cell);
        let r = row_of(d, cell);
        assert forall|x: u32| #[trigger] atoms.contains(x) <==> d.contains(x) || x == atoms.last() by {
            if atoms.contains(x) {
                let j = choose|j: int| 0 <= j < atoms.len() && atoms[j] == x;
                if j < atoms.len() - 1 {
                    assert(d[j] == x);
                }
            }
            if d.contains(x) {
                let j = choose|j: int| 0 <= j < d.len() && d[j] == x;
                assert(atoms[j] == x);
            }
            if x == atoms.last() {
                assert(atoms[atoms.len() - 1] == x);
            }
        }
        if is_unknown(evidence_of(cell, atoms.last())) {
            let rr = r.push(atoms.last());
            assert forall|x: u32| #[trigger] rr.contains(x) <==> r.contains(x) || x == atoms.last() by {
                if rr.contains(x) {
                    let j = choose|j: int| 0 <= j < rr.len() && rr[j] == x;
                    if j < r.len() {
                        assert(r[j] == x);
                    }
                }
                if r.contains(x) {
                    let j = choose|j: int| 0 <= j < r.len() && r[j] == x;
                    assert(rr[j] == x);
                }
                if x == atoms.last() {
                    assert(rr[r.len() as int] == x);
                }
            }
            assert forall|i: int, j: int| 0 <= i < j < rr.len() implies rr[i] < rr[j] by {
                if j == rr.len() - 1 {
                    assert(r.contains(rr[i]));
                    assert(d.contains(rr[i]));
                    let t = choose|t: int| 0 <= t < d.len() && d[t] == rr[i];
                    assert(atoms[t] == rr[i]);
                }
            }
        }
    }
}

/// A row depends only on the evidence of its propositions.
proof fn lemma_row_same(atoms: Seq<u32>, c1: Map<u32, Evidence>, c2: Map<u32, Evidence>)
    requires
        forall|j: int| 0 <= j < atoms.len() ==> evidence_of(c1, #[trigger] atoms[j]) == evidence_of(c2, atoms[j]),
    ensures
        row_of(atoms, c1) == row_of(atoms, c2),
    decreases atoms.len(),
{
    if atoms.len() > 0 {
        assert forall|j: int| 0 <= j < atoms.drop_last().len() implies evidence_of(c1, #[trigger] atoms.drop_last()[j]) == evidence_of(c2, atoms.drop_last()[j]) by {
            assert(atoms.drop_last()[j] == atoms[j]);
        }
        lemma_row_same(atoms.drop_last(), c1, c2);
        assert(evidence_of(c1, atoms[atoms.len() - 1]) == evidence_of(c2, atoms[atoms.len() - 1]));
    }
}

/// Refining the open observation of `a` removes it from its row, at index `k`.
proof fn lemma_row_refined(atoms: Seq<u32>, cell: Map<u32, Evidence>, a: u32, e: Evidence) -> (k: int)
    requires
        increasing(atoms),
        atoms.contains(a),
        is_unknown(evidence_of(cell, a)),
        !is_unknown(e),
    ensures
        0 <= k < row_of(atoms, cell).len(),
        row_of(atoms, cell)[k] == a,
        row_of(atoms, cell.insert(a, e)) == row_of(atoms, cell).remove(k),
    decreases atoms.len(),
{
    let c2 = cell.insert(a, e);
    let d = atoms.drop_last();
    let last = atoms.last();
    assert(increasing(d));
    let r = row_of(d, cell);
    if last == a {
        assert forall|j: int| 0 <= j < d.len() implies evidence_of(cell, #[trigger] d[j]) == evidence_of(c2, d[j]) by {
            assert(d[j] == atoms[j]);
            assert(atoms[j] < atoms[atoms.len() - 1]);
        }
        lemma_row_same(d, cell, c2);
        assert(evidence_of(c2, a) == e);
        assert(row_of(atoms, cell) == r.push(a));
        assert(row_of(atoms, c2) == r);
        assert(r.push(a).remove(r.len() as int) =~= r);
        r.len() as int
    } else {
        assert(d.contains(a)) by {
            let j = choose|j: int| 0 <= j < atoms.len() && atoms[j] == a;
            assert(j != atoms.len() - 1);
            assert(d[j] == a);
        }
        let k = lemma_row_refined(d, cell, a, e);
        assert(evidence_of(c2, last) == evidence_of(cell, last));
        if is_unknown(evidence_of(cell, last)) {
            assert(row_of(atoms, cell) == r.push(last));
            assert(row_of(atoms, c2) == row_of(d, c2).push(last));
            assert(r.remove(k).push(last) =~= r.push(last).remove(k));
        }
        k
    }
}

/// Offsets up to the refined cell are unchanged, and one less after it.
proof fn lemma_offset_refined(atoms: Seq<u32>, cells: Seq<Map<u32, Evidence>>, i: int, c2: Map<u32, Evidence>, j: nat)
    requires
        0 <= i < cells.len(),
        j <= cells.len(),
        row_of(atoms, c2).len() + 1 == row_of(atoms, cells[i]).len(),
    ensures
        j <= i ==> offset_of(atoms, cells.update(i, c2), j) == offset_of(atoms, cells, j),
        j > i ==> offset_of(atoms, cells.update(i, c2), j) + 1 == offset_of(atoms, cells, j),
    decreases j,
{
    if j > 0 {
        lemma_offset_refined(atoms, cells, i, c2, (j - 1) as nat);
    }
}

/// Offsets add up the rows.
pub(crate) proof fn lemma_offset_step(atoms: Seq<u32>, cells: Seq<Map<u32, Evidence>>, i: nat, j: nat)
    requires
        i <= j <= cells.len(),
    ensures
        offset_of(atoms, cells, i) <= offset_of(atoms, cells, j),
        i < j ==> offset_of(atoms, cells, i) + row_of(atoms, cells[i as int]).len() <= offset_of(atoms, cells, j),
    decreases j - i,
{
    if i < j {
        lemma_offset_step(atoms, cells, i, (j - 1) as nat);
    }
}

/// A filled cell: the known values, and each row proposition at its mask bit.
pub(crate) proof fn lemma_fill(cell: Map<u32, Evidence>, row: Seq<u32>, mask: usize, base: nat, x: u32)
    requires
        increasing(row),
    ensures
        fill(cell, row, mask, base).contains_key(x) <==> known(cell).contains_key(x) || row.contains(x),
        forall|k: int| 0 <= k < row.len() && row[k] == x ==> fill(cell, row, mask, base)[x] == mask_bit(mask, (base + k) as nat),
        !row.contains(x) && known(cell).contains_key(x) ==> fill(cell, row, mask, base)[x] == known(cell)[x],
    decreases row.len(),
{
    if row.len() > 0 {
        let d = row.drop_last();
        assert(increasing(d));
        lemma_fill(cell, d, mask, base, x);
        assert(row.contains(x) <==> d.contains(x) || x == row.last()) by {
            if row.contains(x) {
                let j = choose|j: int| 0 <= j < row.len() && row[j] == x;
                if j < row.len() - 1 {
                    assert(d[j] == x);
                }
            }
            if d.contains(x) {
                let j = choose|j: int| 0 <= j < d.len() && d[j] == x;
                assert(row[j] == x);
            }
        }
        assert forall|k: int| 0 <= k < row.len() && row[k] == x implies fill(cell, row, mask, base)[x] == mask_bit(mask, (base + k) as nat) by {
            if k < row.len() - 1 {
                assert(d[k] == x);
                assert(row[k] < row[row.len() - 1]);
            }
        }
    }
}

/// The known evidence a Boolean value is.
pub open spec fn evidence_for(v: bool) -> Evidence {
    if v {
        Evidence::True
    } else {
        Evidence::False
    }
}

/// The cells with the observation of `a` at cell `i` refined to the known value `v`.
pub open spec fn refine(cells: Seq<Map<u32, Evidence>>, i: int, a: u32, v: bool) -> Seq<Map<u32, Evidence>> {
    cells.update(i, cells[i].insert(a, evidence_for(v)))
}

/// The completion of the refined cells by `m` is the completion of the
/// unrefined cells by `m` with `v` inserted at the bit of the refined observation.
proof fn lemma_completion_refined(
    cells: Seq<Map<u32, Evidence>>,
    atoms: Seq<u32>,
    i: int,
    a: u32,
    v: bool,
    k: int,
    m: usize,
)
    requires
        increasing(atoms),
        0 <= i < cells.len(),
        0 <= k < row_of(atoms, cells[i]).len(),
        row_of(atoms, cells[i])[k] == a,
        row_of(atoms, cells[i].insert(a, evidence_for(v))) == row_of(atoms, cells[i]).remove(k),
        offset_of(atoms, cells, cells.len()) < usize::BITS,
    ensures
        completion(cells, atoms, insert_bit(m, (offset_of(atoms, cells, i as nat) + k) as usize, v))
            == completion(refine(cells, i, a, v), atoms, m),
{
    let c2 = refine(cells, i, a, v);
    let n = offset_of(atoms, cells, cells.len());
    let p = (offset_of(atoms, cells, i as nat) + k) as nat;
    let big = insert_bit(m, p as usize, v);
    let w1 = completion(cells, atoms, big);
    let w2 = completion(c2, atoms, m);
    lemma_offset_step(atoms, cells, i as nat, cells.len());
    assert(p < n) by {
        lemma_offset_step(atoms, cells, i as nat, (i + 1) as nat);
        lemma_offset_step(atoms, cells, (i + 1) as nat, cells.len());
    }
    assert forall|j: int| 0 <= j < cells.len() implies #[trigger] w1[j] =~= w2[j] by {
        let row = row_of(atoms, cells[j]);
        let row2 = row_of(atoms, c2[j]);
        let off = offset_of(atoms, cells, j as nat);
        let off2 = offset_of(atoms, c2, j as nat);
        lemma_row_of(atoms, cells[j]);
        lemma_row_of(atoms, c2[j]);
        lemma_offset_refined(atoms, cells, i, cells[i].insert(a, evidence_for(v)), j as nat);
        lemma_offset_step(atoms, cells, j as nat, (j + 1) as nat);
        lemma_offset_step(atoms, cells, (j + 1) as nat, cells.len());
        if j < i {
            lemma_offset_step(atoms, cells, (j + 1) as nat, i as nat);
        }
        if j > i {
            lemma_offset_step(atoms, cells, (i + 1) as nat, j as nat);
            lemma_offset_step(atoms, cells, i as nat, (i + 1) as nat);
        }
        assert forall|x: u32| #[trigger] w1[j].contains_key(x) == w2[j].contains_key(x)
            && (w1[j].contains_key(x) ==> w1[j][x] == w2[j][x]) by {
            lemma_fill(cells[j], row, big, off, x);
            lemma_fill(c2[j], row2, m, off2, x);
            if j != i {
                assert(c2[j] == cells[j]);
                if row.contains(x) {
                    let t = choose|t: int| 0 <= t < row.len() && row[t] == x;
                    lemma_insert_bit(m, p, v, (off + t) as nat);
                }
            } else {
                if x == a {
                    assert(row.contains(a)) by {
                        assert(row[k] == a);
                    }
                    assert(!row2.contains(a)) by {
                        if row2.contains(a) {
                            let t = choose|t: int| 0 <= t < row2.len() && row2[t] == a;
                            if t < k {
                                assert(row[t] == a);
                                assert(row[t] < row[k]);
                            } else {
                                assert(row[t + 1] == a);
                                assert(row[k] < row[t + 1]);
                            }
                        }
                    }
                    lemma_insert_bit(m, p, v, p);
                } else if row.contains(x) {
                    let t = choose|t: int| 0 <= t < row.len() && row[t] == x;
                    assert(t != k);
                    if t < k {
                        assert(row2[t] == x);
                        lemma_insert_bit(m, p, v, (off + t) as nat);
                    } else {
                        assert(row2[t - 1] == x);
                        lemma_insert_bit(m, p, v, (off + t) as nat);
                    }
                } else {
                    assert(!row2.contains(x)) by {
                        if row2.contains(x) {
                            let t = choose|t: int| 0 <= t < row2.len() && row2[t] == x;
                            if t < k {
                                assert(row[t] == x);
                            } else {
                                assert(row[t + 1] == x);
                            }
                        }
                    }
                }
            }
        }
    }
    assert(w1 =~= w2);
}

/// The masks below `k` whose completion the premises admit.
pub open spec fn admitted_masks(
    claim: Formula,
    fs: Seq<Formula>,
    cells: Seq<Map<u32, Evidence>>,
    atoms: Seq<u32>,
    entry: nat,
    limits: Limits,
    position: nat,
    k: nat,
) -> Set<nat> {
    Set::new(|m: nat| m < k && step(claim, fs, completion(cells, atoms, m as usize), entry, limits, position) matches Ok(Some(_)))
}

/// A tally that reaches its end: which values some admitted completion gave
/// the claim, and how many completions were admitted.
#[verifier::rlimit(40)]
pub(crate) proof fn lemma_tally_census(
    claim: Formula,
    fs: Seq<Formula>,
    cells: Seq<Map<u32, Evidence>>,
    atoms: Seq<u32>,
    entry: nat,
    limits: Limits,
    position: nat,
    k: nat,
)
    requires
        tally(claim, fs, cells, atoms, entry, limits, position, k) is Ok,
    ensures
        tally(claim, fs, cells, atoms, entry, limits, position, k)->Ok_0.0
            == exists|m: nat| m < k && #[trigger] step(claim, fs, completion(cells, atoms, m as usize), entry, limits, position) == Ok::<Option<bool>, crate::OracleError>(Some(true)),
        tally(claim, fs, cells, atoms, entry, limits, position, k)->Ok_0.1
            == exists|m: nat| m < k && #[trigger] step(claim, fs, completion(cells, atoms, m as usize), entry, limits, position) == Ok::<Option<bool>, crate::OracleError>(Some(false)),
        admitted_masks(claim, fs, cells, atoms, entry, limits, position, k).finite(),
        tally(claim, fs, cells, atoms, entry, limits, position, k)->Ok_0.2
            == admitted_masks(claim, fs, cells, atoms, entry, limits, position, k).len(),
        tally(claim, fs, cells, atoms, entry, limits, position, k)->Ok_0.2 <= k,
    decreases k,
{
    reveal(tally);
    let s = admitted_masks(claim, fs, cells, atoms, entry, limits, position, k);
    if k == 0 {
        assert(s =~= Set::<nat>::empty());
    } else {
        let j = (k - 1) as nat;
        lemma_tally_census(claim, fs, cells, atoms, entry, limits, position, j);
        let prev = admitted_masks(claim, fs, cells, atoms, entry, limits, position, j);
        let st = step(claim, fs, completion(cells, atoms, j as usize), entry, limits, position);
        if st matches Ok(Some(_)) {
            assert(s =~= prev.insert(j));
            assert(!prev.contains(j));
        } else {
            assert(s =~= prev);
        }
    }
}

/// The refined cells observe the same propositions, so the same ones are enumerated.
proof fn lemma_refined_universe(claim: Formula, fs: Seq<Formula>, cells: Seq<Map<u32, Evidence>>, i: int, a: u32, v: bool)
    requires
        0 <= i < cells.len(),
        universe(claim, fs, cells).contains(a),
    ensures
        universe(claim, fs, refine(cells, i, a, v)) == universe(claim, fs, cells),
{
    let c2 = refine(cells, i, a, v);
    let u = universe(claim, fs, cells);
    assert forall|x: u32| #[trigger] universe(claim, fs, c2).contains(x) <==> u.contains(x) by {
        lemma_cell_keys(c2, x);
        lemma_cell_keys(cells, x);
        if exists|j: int| 0 <= j < c2.len() && #[trigger] c2[j].contains_key(x) {
            let j = choose|j: int| 0 <= j < c2.len() && #[trigger] c2[j].contains_key(x);
            if x != a {
                assert(cells[j].contains_key(x));
            }
        }
        if exists|j: int| 0 <= j < cells.len() && #[trigger] cells[j].contains_key(x) {
            let j = choose|j: int| 0 <= j < cells.len() && #[trigger] cells[j].contains_key(x);
            assert(c2[j].contains_key(x));
        }
    }
    assert(universe(claim, fs, c2) =~= u);
}

/// Refining an open observation to a known value only removes
/// possibilities: with the refined evidence, no claim value becomes possible
/// that was not possible before, and no more completions are admitted.
#[verifier::rlimit(50)]
pub proof fn law_refinement_only_removes(
    claim: Formula,
    fs: Seq<Formula>,
    cells: Seq<Map<u32, Evidence>>,
    i: int,
    a: u32,
    v: bool,
    entry: nat,
    position: nat,
    limits: Limits,
)
    requires
        0 <= i < cells.len(),
        forall|j: int| 0 <= j < cells.len() ==> #[trigger] cells[j].dom().finite(),
        is_unknown(evidence_of(cells[i], a)),
        universe(claim, fs, cells).contains(a),
        evaluation(claim, fs, cells, entry, position, limits) is Ok,
        evaluation(claim, fs, refine(cells, i, a, v), entry, position, limits) is Ok,
    ensures
        ({
            let r = evaluation(claim, fs, refine(cells, i, a, v), entry, position, limits)->Ok_0;
            let b = evaluation(claim, fs, cells, entry, position, limits)->Ok_0;
            &&& r.possible_true ==> b.possible_true
            &&& r.possible_false ==> b.possible_false
            &&& r.fair_completions <= b.fair_completions
        }),
{
    let c2 = refine(cells, i, a, v);
    let e = evidence_for(v);
    let u = universe(claim, fs, cells);
    lemma_refined_universe(claim, fs, cells, i, a, v);
    assert(universe(claim, fs, c2) == u);
    lemma_atoms_finite(claim);
    lemma_premise_atoms_finite(fs, fs.len());
    lemma_cell_keys_finite(cells);
    lemma_sorted_exists(u);
    let atoms = sorted(u);
    assert(atoms.contains(a)) by {
        assert(atoms.to_set().contains(a));
    }
    let k = lemma_row_refined(atoms, cells[i], a, e);
    assert(!is_unknown(e));
    let n = offset_of(atoms, cells, cells.len());
    let n2 = offset_of(atoms, c2, c2.len());
    lemma_offset_refined(atoms, cells, i, cells[i].insert(a, e), cells.len());
    assert(n2 + 1 == n);
    let p = (offset_of(atoms, cells, i as nat) + k) as nat;
    assert(p < n) by {
        lemma_offset_step(atoms, cells, i as nat, (i + 1) as nat);
        lemma_offset_step(atoms, cells, (i + 1) as nat, cells.len());
    }
    let mm = (1usize << (n as usize)) as nat;
    let mm2 = (1usize << (n2 as usize)) as nat;
    let t = tally(claim, fs, cells, atoms, entry, limits, position, mm);
    let t2 = tally(claim, fs, c2, atoms, entry, limits, position, mm2);
    lemma_tally_census(claim, fs, cells, atoms, entry, limits, position, mm);
    lemma_tally_census(claim, fs, c2, atoms, entry, limits, position, mm2);
    assert(sub1(n as usize) == n2 as usize);
    // Each completion of the refined cells is a completion of the unrefined ones.
    assert forall|m2: nat| m2 < mm2 implies
        #[trigger] step(claim, fs, completion(c2, atoms, m2 as usize), entry, limits, position)
            == step(claim, fs, completion(cells, atoms, insert_bit(m2 as usize, p as usize, v)), entry, limits, position)
        && insert_bit(m2 as usize, p as usize, v) < mm by {
        lemma_completion_refined(cells, atoms, i, a, v, k, m2 as usize);
        lemma_insert_bit_range(m2 as usize, p as usize, v, n as usize);
    }
    let f = |m: nat| insert_bit(m as usize, p as usize, v) as nat;
    if t2->Ok_0.0 {
        let m2 = choose|m: nat| m < mm2 && #[trigger] step(claim, fs, completion(c2, atoms, m as usize), entry, limits, position) == Ok::<Option<bool>, crate::OracleError>(Some(true));
        let m1 = f(m2);
        assert(step(claim, fs, completion(cells, atoms, m1 as usize), entry, limits, position) == Ok::<Option<bool>, crate::OracleError>(Some(true)));
    }
    if t2->Ok_0.1 {
        let m2 = choose|m: nat| m < mm2 && #[trigger] step(claim, fs, completion(c2, atoms, m as usize), entry, limits, position) == Ok::<Option<bool>, crate::OracleError>(Some(false));
        let m1 = f(m2);
        assert(step(claim, fs, completion(cells, atoms, m1 as usize), entry, limits, position) == Ok::<Option<bool>, crate::OracleError>(Some(false)));
    }
    let s = admitted_masks(claim, fs, cells, atoms, entry, limits, position, mm);
    let s2 = admitted_masks(claim, fs, c2, atoms, entry, limits, position, mm2);
    assert(vstd::relations::injective_on(f, s2)) by {
        assert forall|x: nat, y: nat| s2.contains(x) && s2.contains(y) && #[trigger] f(x) == #[trigger] f(y) implies x == y by {
            lemma_insert_bit_injective(x as usize, y as usize, p as usize, v, n as usize);
        }
    }
    assert(s2.map(f).subset_of(s)) by {
        assert forall|y: nat| s2.map(f).contains(y) implies s.contains(y) by {
            let x = choose|x: nat| s2.contains(x) && f(x) == y;
            assert(step(claim, fs, completion(c2, atoms, x as usize), entry, limits, position) matches Ok(Some(_)));
        }
    }
    vstd::set_lib::lemma_map_size(s2, s2.map(f), f);
    vstd::set_lib::lemma_len_subset(s2.map(f), s);
}

/// A tally that reaches its end met no refusal on the way.
pub(crate) proof fn lemma_tally_steps(
    claim: Formula,
    fs: Seq<Formula>,
    cells: Seq<Map<u32, Evidence>>,
    atoms: Seq<u32>,
    entry: nat,
    limits: Limits,
    position: nat,
    k: nat,
)
    requires
        tally(claim, fs, cells, atoms, entry, limits, position, k) is Ok,
    ensures
        forall|m: nat| m < k ==> #[trigger] step(claim, fs, completion(cells, atoms, m as usize), entry, limits, position) is Ok,
    decreases k,
{
    reveal(tally);
    if k > 0 {
        lemma_tally_steps(claim, fs, cells, atoms, entry, limits, position, (k - 1) as nat);
    }
}

} // verus!
