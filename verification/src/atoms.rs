//! The propositions a formula references, its nesting depth, and strictly
//! increasing proposition sequences.

use vstd::prelude::*;
use std::collections::BTreeSet;
use crate::Formula;

verus! {

/// Propositions referenced by `f`.
pub open spec fn atoms_of(f: Formula) -> Set<u32>
    decreases f,
{
    match f {
        Formula::False => Set::empty(),
        Formula::True => Set::empty(),
        Formula::Atom(a) => set![a],
        Formula::Not(p) => atoms_of(*p),
        Formula::And(p, q) => atoms_of(*p) + atoms_of(*q),
        Formula::Or(p, q) => atoms_of(*p) + atoms_of(*q),
        Formula::Implies(p, q) => atoms_of(*p) + atoms_of(*q),
        Formula::Equivalent(p, q) => atoms_of(*p) + atoms_of(*q),
        Formula::Future(_, p) => atoms_of(*p),
        Formula::Globally(_, p) => atoms_of(*p),
        Formula::Until(_, p, q) => atoms_of(*p) + atoms_of(*q),
        Formula::Release(_, p, q) => atoms_of(*p) + atoms_of(*q),
        Formula::Once(_, p) => atoms_of(*p),
        Formula::Historically(_, p) => atoms_of(*p),
        Formula::Since(_, p, q) => atoms_of(*p) + atoms_of(*q),
        Formula::Triggered(_, p, q) => atoms_of(*p) + atoms_of(*q),
        Formula::StrongPrevious(p) => atoms_of(*p),
    }
}

/// The larger of two naturals.
pub open spec fn larger(a: nat, b: nat) -> nat {
    if a >= b {
        a
    } else {
        b
    }
}

/// Nesting depth of `f`: one for a leaf, one more than its deepest operand otherwise.
pub open spec fn depth_of(f: Formula) -> nat
    decreases f,
{
    match f {
        Formula::False => 1,
        Formula::True => 1,
        Formula::Atom(_) => 1,
        Formula::Not(p) => 1 + depth_of(*p),
        Formula::And(p, q) => 1 + larger(depth_of(*p), depth_of(*q)),
        Formula::Or(p, q) => 1 + larger(depth_of(*p), depth_of(*q)),
        Formula::Implies(p, q) => 1 + larger(depth_of(*p), depth_of(*q)),
        Formula::Equivalent(p, q) => 1 + larger(depth_of(*p), depth_of(*q)),
        Formula::Future(_, p) => 1 + depth_of(*p),
        Formula::Globally(_, p) => 1 + depth_of(*p),
        Formula::Until(_, p, q) => 1 + larger(depth_of(*p), depth_of(*q)),
        Formula::Release(_, p, q) => 1 + larger(depth_of(*p), depth_of(*q)),
        Formula::Once(_, p) => 1 + depth_of(*p),
        Formula::Historically(_, p) => 1 + depth_of(*p),
        Formula::Since(_, p, q) => 1 + larger(depth_of(*p), depth_of(*q)),
        Formula::Triggered(_, p, q) => 1 + larger(depth_of(*p), depth_of(*q)),
        Formula::StrongPrevious(p) => 1 + depth_of(*p),
    }
}

/// A formula's depth is at least one.
pub proof fn lemma_depth_positive(f: Formula)
    ensures
        depth_of(f) >= 1,
{
}

impl Formula {
    /// Adds the referenced propositions to `atoms` and returns `depth` plus the
    /// formula's nesting depth, less one.
    pub fn collect_atoms(&self, atoms: &mut BTreeSet<u32>, depth: usize) -> (r: usize)
        requires
            depth + depth_of(*self) <= usize::MAX,
        ensures
            final(atoms)@ == old(atoms)@ + atoms_of(*self),
            r == depth + depth_of(*self) - 1,
        decreases self,
    {
        match self {
            Formula::False | Formula::True => depth,
            Formula::Atom(id) => {
                atoms.insert(*id);
                depth
            },
            Formula::Not(p) | Formula::Future(_, p) | Formula::Globally(_, p) | Formula::Once(_, p)
            | Formula::Historically(_, p) | Formula::StrongPrevious(p) => p.collect_atoms(atoms, depth + 1),
            Formula::And(p, q) | Formula::Or(p, q) | Formula::Implies(p, q) | Formula::Equivalent(p, q)
            | Formula::Until(_, p, q) | Formula::Release(_, p, q) | Formula::Since(_, p, q)
            | Formula::Triggered(_, p, q) => {
                let a = p.collect_atoms(atoms, depth + 1);
                let b = q.collect_atoms(atoms, depth + 1);
                if a >= b {
                    a
                } else {
                    b
                }
            },
        }
    }
}

/// Each element is smaller than every later one.
pub open spec fn increasing(s: Seq<u32>) -> bool {
    forall|i: int, j: int| 0 <= i < j < s.len() ==> s[i] < s[j]
}

/// The increasing sequence of the elements of a finite set.
pub open spec fn sorted(set: Set<u32>) -> Seq<u32> {
    choose|s: Seq<u32>| increasing(s) && s.to_set() == set
}

/// Two increasing sequences with the same elements are equal.
pub proof fn lemma_increasing_unique(s1: Seq<u32>, s2: Seq<u32>)
    requires
        increasing(s1),
        increasing(s2),
        s1.to_set() == s2.to_set(),
    ensures
        s1 == s2,
    decreases s1.len(),
{
    if s1.len() == 0 {
        if s2.len() > 0 {
            assert(s2.to_set().contains(s2[0]));
        }
        assert(s1 =~= s2);
    } else {
        assert(s1.to_set().contains(s1[0]));
        assert(s2.len() > 0) by {
            assert(s2.to_set().contains(s1[0]));
        }
        assert(s2.to_set().contains(s2[0]));
        let j1 = choose|j: int| 0 <= j < s2.len() && s2[j] == s1[0];
        let j2 = choose|j: int| 0 <= j < s1.len() && s1[j] == s2[0];
        assert(s1[0] == s2[0]) by {
            if s1[0] < s2[0] {
                assert(s2[j1] >= s2[0]);
            } else if s1[0] > s2[0] {
                assert(s1[j2] >= s1[0]);
            }
        }
        let t1 = s1.drop_first();
        let t2 = s2.drop_first();
        assert(t1.to_set() =~= t2.to_set()) by {
            assert forall|x: u32| t1.to_set().contains(x) implies t2.to_set().contains(x) by {
                let i = choose|i: int| 0 <= i < t1.len() && t1[i] == x;
                assert(s1[i + 1] == x);
                assert(s2.to_set().contains(x));
                let k = choose|k: int| 0 <= k < s2.len() && s2[k] == x;
                assert(k != 0);
                assert(t2[k - 1] == x);
            }
            assert forall|x: u32| t2.to_set().contains(x) implies t1.to_set().contains(x) by {
                let i = choose|i: int| 0 <= i < t2.len() && t2[i] == x;
                assert(s2[i + 1] == x);
                assert(s1.to_set().contains(x));
                let k = choose|k: int| 0 <= k < s1.len() && s1[k] == x;
                assert(k != 0);
                assert(t1[k - 1] == x);
            }
        }
        lemma_increasing_unique(t1, t2);
        assert(s1 =~= s2) by {
            assert forall|i: int| 0 <= i < s1.len() implies s1[i] == s2[i] by {
                if i > 0 {
                    assert(t1[i - 1] == t2[i - 1]);
                }
            }
        }
    }
}

/// An increasing sequence is the sorted form of its elements.
pub proof fn lemma_sorted_is(s: Seq<u32>)
    requires
        increasing(s),
    ensures
        sorted(s.to_set()) == s,
{
    let set = s.to_set();
    assert(increasing(s) && s.to_set() == set);
    let t = sorted(set);
    lemma_increasing_unique(t, s);
}

/// Every finite set of propositions has an increasing sequence of its elements,
/// so [`sorted`] lists exactly the set.
pub proof fn lemma_sorted_exists(set: Set<u32>)
    requires
        set.finite(),
    ensures
        increasing(sorted(set)),
        sorted(set).to_set() == set,
    decreases set.len(),
{
    broadcast use vstd::set_lib::group_set_properties;
    vstd::set_lib::lemma_set_empty_equivalency_len(set);
    if set.len() == 0 {
        let s = Seq::<u32>::empty();
        assert(s.to_set() =~= set);
        assert(increasing(s) && s.to_set() == set);
    } else {
        let leq = |a: u32, b: u32| a <= b;
        assert(vstd::relations::total_ordering(leq));
        set.find_unique_maximal_ensures(leq);
        let m = set.find_unique_maximal(leq);
        let rest = set.remove(m);
        lemma_sorted_exists(rest);
        let t = sorted(rest);
        let s = t.push(m);
        assert forall|x: u32| rest.contains(x) implies x < m by {
            assert(set.contains(x));
            if leq(m, x) {
                assert(leq(x, m));
            }
        }
        assert forall|i: int, j: int| 0 <= i < j < s.len() implies s[i] < s[j] by {
            if j == s.len() - 1 {
                assert(t.to_set().contains(t[i]));
            }
        }
        assert(s.to_set() =~= set) by {
            assert forall|x: u32| s.to_set().contains(x) <==> set.contains(x) by {
                if s.to_set().contains(x) {
                    let j = choose|j: int| 0 <= j < s.len() && s[j] == x;
                    if j < t.len() {
                        assert(t.to_set().contains(t[j]));
                    }
                }
                if set.contains(x) && x != m {
                    assert(t.to_set().contains(x));
                    let j = choose|j: int| 0 <= j < t.len() && t[j] == x;
                    assert(s[j] == x);
                }
                if x == m {
                    assert(s[t.len() as int] == m);
                }
            }
        }
        assert(increasing(s) && s.to_set() == set);
    }
}

} // verus!
