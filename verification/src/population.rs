//! Exact accounting for a declared, contiguous finite verification partition.
//!
//! The caller owns the independent expected answer. This ledger checks that
//! every declared case was visited once and that classifications agree; it
//! cannot establish the independence of the caller's reference implementation.

use vstd::prelude::*;
use std::collections::BTreeSet;
use vstd::std_specs::cmp::PartialEqSpec;

verus! {

/// The result of one case, keeping an admitted verdict apart from a refusal.
#[derive(Clone, Copy, Debug, PartialEq, Eq)]
pub enum CaseResult<V> {
    /// The profile admits this case and produces a verdict.
    Admitted(V),
    /// This formula/trace/profile combination is outside the partition's semantics.
    Refused,
}

/// Exact counts for a completed partition.
#[derive(Clone, Copy, Debug, PartialEq, Eq)]
pub struct PopulationSummary {
    /// Number of declared cases.
    pub declared: u64,
    /// Number of admitted cases checked against a reference.
    pub admitted: u64,
    /// Number of explicitly refused cases.
    pub refused: u64,
}

/// A population integrity or comparison failure.
#[derive(Clone, Copy, Debug, PartialEq, Eq)]
pub enum PopulationError {
    /// The partition must declare at least one case.
    Empty,
    /// A case identifier lies outside `0..declared`.
    OutOfDomain { case_id: u64 },
    /// The same case was visited more than once.
    Duplicate { case_id: u64 },
    /// The observed verdict or refusal does not match the reference.
    Mismatch { case_id: u64 },
    /// At least one declared case was never visited.
    Incomplete { declared: u64, visited: u64 },
}

/// The identifiers `0..n`.
pub open spec fn below(n: u64) -> Set<u64> {
    Set::new(|x: u64| x < n)
}

/// There are exactly `n` identifiers below `n`.
pub proof fn lemma_below_len(n: u64)
    ensures
        below(n).finite(),
        below(n).len() == n,
    decreases n,
{
    if n == 0 {
        assert(below(n) =~= Set::empty());
    } else {
        let m = (n - 1) as u64;
        lemma_below_len(m);
        assert(below(m).insert(m) =~= below(n));
    }
}

/// Reference and observation agree: both refusals, or both admitted with equal verdicts.
pub open spec fn agree<V: PartialEq>(reference: CaseResult<V>, observed: CaseResult<V>) -> bool {
    match (reference, observed) {
        (CaseResult::Admitted(a), CaseResult::Admitted(b)) => a.eq_spec(&b),
        (CaseResult::Refused, CaseResult::Refused) => true,
        _ => false,
    }
}

/// One visit as the ledger sees it: the identifier, whether reference and
/// observation agree, and whether the reference admits the case.
pub type Visit = (u64, bool, bool);

/// The ledger's accounting: visited identifiers, agreeing admitted and
/// refused visits, and the first failure.
pub type Accounting = (Set<u64>, nat, nat, Option<PopulationError>);

/// The failure, if any, of a visit to a ledger of `declared` cases that has
/// visited `seen`.
pub open spec fn visit_failure(declared: u64, seen: Set<u64>, v: Visit) -> Option<PopulationError> {
    if v.0 >= declared {
        Some(PopulationError::OutOfDomain { case_id: v.0 })
    } else if seen.contains(v.0) {
        Some(PopulationError::Duplicate { case_id: v.0 })
    } else if !v.1 {
        Some(PopulationError::Mismatch { case_id: v.0 })
    } else {
        None
    }
}

/// The accounting after one more visit: a failure is kept if it is the
/// first and counts nothing, a mismatch still marks its identifier visited;
/// an agreeing visit is marked and counted.
pub open spec fn after_visit(declared: u64, a: Accounting, v: Visit) -> Accounting {
    match visit_failure(declared, a.0, v) {
        Some(e) => (
            if e is Mismatch { a.0.insert(v.0) } else { a.0 },
            a.1,
            a.2,
            if a.3 is Some { a.3 } else { Some(e) },
        ),
        None => (a.0.insert(v.0), a.1 + (if v.2 { 1nat } else { 0nat }), a.2 + (if v.2 { 0nat } else { 1nat }), a.3),
    }
}

/// The accounting of a new ledger after a sequence of visits.
pub open spec fn replay(declared: u64, visits: Seq<Visit>) -> Accounting
    decreases visits.len(),
{
    if visits.len() == 0 {
        (Set::empty(), 0, 0, None)
    } else {
        after_visit(declared, replay(declared, visits.drop_last()), visits.last())
    }
}

/// The failure, if any, of visit `i` after the visits before it.
pub open spec fn failure_at(declared: u64, visits: Seq<Visit>, i: int) -> Option<PopulationError> {
    visit_failure(declared, replay(declared, visits.take(i)).0, visits[i])
}

/// How many visits have an admitting reference.
pub open spec fn admitting(visits: Seq<Visit>) -> nat
    decreases visits.len(),
{
    if visits.len() == 0 {
        0
    } else {
        admitting(visits.drop_last()) + if visits.last().2 { 1nat } else { 0nat }
    }
}

/// What finishing a ledger with this accounting gives.
pub open spec fn settle(declared: u64, a: Accounting) -> Result<PopulationSummary, PopulationError> {
    match a.3 {
        Some(e) => Err(e),
        None => if a.0.len() != declared {
            Err(PopulationError::Incomplete { declared, visited: a.0.len() as u64 })
        } else {
            Ok(PopulationSummary { declared, admitted: a.1 as u64, refused: a.2 as u64 })
        },
    }
}

/// Records exactly one visit for every ID in `0..declared`.
#[derive(Debug)]
pub struct PopulationLedger {
    declared: u64,
    seen: BTreeSet<u64>,
    admitted: u64,
    refused: u64,
    first_failure: Option<PopulationError>,
}

impl PopulationLedger {
    /// The visited identifiers lie in the partition, and every agreeing visit is counted once.
    pub closed spec fn wf(self) -> bool {
        &&& self.declared > 0
        &&& self.seen@.subset_of(below(self.declared))
        &&& self.admitted + self.refused <= self.seen@.len()
        &&& self.first_failure is None ==> self.admitted + self.refused == self.seen@.len()
    }

    /// Number of declared cases.
    pub closed spec fn declared(self) -> u64 {
        self.declared
    }

    /// Identifiers visited so far.
    pub closed spec fn seen(self) -> Set<u64> {
        self.seen@
    }

    /// Admitted cases that agreed with their reference.
    pub closed spec fn admitted(self) -> u64 {
        self.admitted
    }

    /// Refused cases that agreed with their reference.
    pub closed spec fn refused(self) -> u64 {
        self.refused
    }

    /// The first failure recorded, if any.
    pub closed spec fn first_failure(self) -> Option<PopulationError> {
        self.first_failure
    }

    /// The ledger's accounting.
    pub open spec fn accounting(self) -> Accounting {
        (self.seen(), self.admitted() as nat, self.refused() as nat, self.first_failure())
    }

    /// Creates a partition with an independently calculated cardinality.
    pub fn new(declared: u64) -> (r: Result<Self, PopulationError>)
        ensures
            declared == 0 ==> r == Err::<PopulationLedger, PopulationError>(PopulationError::Empty),
            declared > 0 ==> (r matches Ok(l) && l.wf() && l.declared() == declared && l.seen() == Set::<u64>::empty()
                && l.admitted() == 0 && l.refused() == 0 && l.first_failure() is None
                && l.accounting() == replay(declared, Seq::empty())),
    {
        if declared == 0 {
            return Err(PopulationError::Empty);
        }
        Ok(PopulationLedger { declared, seen: BTreeSet::new(), admitted: 0, refused: 0, first_failure: None })
    }

    /// Keeps the first failure.
    fn note(&mut self, error: PopulationError)
        ensures
            final(self).declared == old(self).declared,
            final(self).seen == old(self).seen,
            final(self).admitted == old(self).admitted,
            final(self).refused == old(self).refused,
            final(self).first_failure == (match old(self).first_failure {
                Some(f) => Some(f),
                None => Some(error),
            }),
    {
        if self.first_failure.is_none() {
            self.first_failure = Some(error);
        }
    }

    /// Records a visit and compares its classification to an independent reference.
    ///
    /// An identifier outside the partition or already visited is refused; a
    /// visit whose classification disagrees is counted as visited and refused.
    /// The first failure is kept for [`PopulationLedger::finish`].
    pub fn record<V: PartialEq + Eq>(&mut self, case_id: u64, reference: CaseResult<V>, observed: CaseResult<V>) -> (r: Result<(), PopulationError>)
        requires
            old(self).wf(),
            V::obeys_eq_spec(),
        ensures
            final(self).wf(),
            final(self).declared() == old(self).declared(),
            final(self).accounting() == after_visit(
                old(self).declared(),
                old(self).accounting(),
                (case_id, agree(reference, observed), reference is Admitted),
            ),
            ({
                let failure = if case_id >= old(self).declared() {
                    Some(PopulationError::OutOfDomain { case_id })
                } else if old(self).seen().contains(case_id) {
                    Some(PopulationError::Duplicate { case_id })
                } else if !agree(reference, observed) {
                    Some(PopulationError::Mismatch { case_id })
                } else {
                    None
                };
                match failure {
                    Some(e) => {
                        &&& r == Err::<(), PopulationError>(e)
                        &&& final(self).admitted() == old(self).admitted()
                        &&& final(self).refused() == old(self).refused()
                        &&& final(self).first_failure() == (match old(self).first_failure() {
                            Some(f) => Some(f),
                            None => Some(e),
                        })
                        &&& final(self).seen() == (if e is Mismatch {
                            old(self).seen().insert(case_id)
                        } else {
                            old(self).seen()
                        })
                    },
                    None => {
                        &&& r == Ok::<(), PopulationError>(())
                        &&& final(self).seen() == old(self).seen().insert(case_id)
                        &&& final(self).first_failure() == old(self).first_failure()
                        &&& final(self).admitted() == old(self).admitted() + (if reference is Admitted { 1int } else { 0int })
                        &&& final(self).refused() == old(self).refused() + (if reference is Refused { 1int } else { 0int })
                    },
                }
            }),
    {
        if case_id >= self.declared {
            let error = PopulationError::OutOfDomain { case_id };
            self.note(error);
            return Err(error);
        }
        proof {
            lemma_below_len(self.declared);
            vstd::set_lib::lemma_len_subset(self.seen@, below(self.declared));
        }
        let ghost before = self.seen@;
        let fresh = self.seen.insert(case_id);
        proof {
            if !fresh {
                assert(self.seen@ =~= before);
            } else {
                assert(self.seen@.len() == before.len() + 1);
            }
        }
        if !fresh {
            let error = PopulationError::Duplicate { case_id };
            self.note(error);
            return Err(error);
        }
        let _count = self.seen.len();
        let same = match (&reference, &observed) {
            (CaseResult::Admitted(a), CaseResult::Admitted(b)) => *a == *b,
            (CaseResult::Refused, CaseResult::Refused) => true,
            _ => false,
        };
        if !same {
            let error = PopulationError::Mismatch { case_id };
            self.note(error);
            return Err(error);
        }
        match reference {
            CaseResult::Admitted(_) => self.admitted += 1,
            CaseResult::Refused => self.refused += 1,
        }
        Ok(())
    }

    /// Completes the partition only if all declared IDs were visited once.
    pub fn finish(self) -> (r: Result<PopulationSummary, PopulationError>)
        requires
            self.wf(),
        ensures
            match self.first_failure() {
                Some(e) => r == Err::<PopulationSummary, PopulationError>(e),
                None => if self.seen().len() != self.declared() {
                    r == Err::<PopulationSummary, PopulationError>(
                        PopulationError::Incomplete { declared: self.declared(), visited: self.seen().len() as u64 },
                    )
                } else {
                    r == Ok::<PopulationSummary, PopulationError>(
                        PopulationSummary { declared: self.declared(), admitted: self.admitted(), refused: self.refused() },
                    )
                },
            },
            r == settle(self.declared(), self.accounting()),
            r matches Ok(summary) ==> self.seen() == below(self.declared()) && summary.admitted + summary.refused
                == summary.declared,
    {
        if let Some(error) = self.first_failure {
            return Err(error);
        }
        let visited = self.seen.len() as u64;
        if visited != self.declared {
            return Err(PopulationError::Incomplete { declared: self.declared, visited });
        }
        proof {
            lemma_below_len(self.declared);
            vstd::set_lib::lemma_len_subset(self.seen@, below(self.declared));
            vstd::set_lib::lemma_subset_equality(self.seen@, below(self.declared));
        }
        Ok(PopulationSummary { declared: self.declared, admitted: self.admitted, refused: self.refused })
    }
}

/// The history of a ledger: after a new ledger of `declared` cases receives
/// any sequence of visits, its first failure is the failure of the first
/// visit that failed; without a failure every visit was to a distinct
/// identifier and is counted once, admitted or refused by its reference; and
/// finishing succeeds only when no visit failed and every declared case was
/// visited, with the admitted and refused counts adding to the declared count.
pub proof fn law_ledger_history(declared: u64, visits: Seq<Visit>)
    requires
        declared > 0,
    ensures
        replay(declared, visits).0.finite(),
        replay(declared, visits).0.subset_of(below(declared)),
        replay(declared, visits).3 is None <==> forall|i: int| 0 <= i < visits.len() ==> #[trigger] failure_at(declared, visits, i) is None,
        replay(declared, visits).3 matches Some(e) ==> exists|i: int| 0 <= i < visits.len()
            && #[trigger] failure_at(declared, visits, i) == Some(e)
            && forall|j: int| 0 <= j < i ==> #[trigger] failure_at(declared, visits, j) is None,
        replay(declared, visits).3 is None ==> replay(declared, visits).0.len() == visits.len()
            && replay(declared, visits).1 == admitting(visits)
            && replay(declared, visits).1 + replay(declared, visits).2 == visits.len(),
        settle(declared, replay(declared, visits)) is Ok ==> replay(declared, visits).3 is None
            && replay(declared, visits).0 == below(declared)
            && replay(declared, visits).1 + replay(declared, visits).2 == declared,
    decreases visits.len(),
{
    let a = replay(declared, visits);
    if visits.len() > 0 {
        let n = visits.len() - 1;
        let prev = visits.drop_last();
        law_ledger_history(declared, prev);
        assert forall|i: int| 0 <= i < n implies #[trigger] failure_at(declared, visits, i) == failure_at(declared, prev, i) by {
            assert(visits.take(i) =~= prev.take(i));
        }
        assert(visits.take(n) =~= prev);
        assert(failure_at(declared, visits, n) == visit_failure(declared, replay(declared, prev).0, visits.last()));
        let p = replay(declared, prev);
        if p.3 is None && failure_at(declared, visits, n) is None {
            assert(!p.0.contains(visits.last().0));
        }
        if a.3 is Some {
            if p.3 is Some {
                let e = p.3->Some_0;
                let i = choose|i: int| 0 <= i < prev.len()
                    && #[trigger] failure_at(declared, prev, i) == Some(e)
                    && forall|j: int| 0 <= j < i ==> #[trigger] failure_at(declared, prev, j) is None;
                assert(failure_at(declared, visits, i) == Some(e));
                assert forall|j: int| 0 <= j < i implies #[trigger] failure_at(declared, visits, j) is None by {
                    assert(failure_at(declared, visits, j) == failure_at(declared, prev, j));
                }
            } else {
                assert forall|j: int| 0 <= j < n implies #[trigger] failure_at(declared, visits, j) is None by {
                    assert(failure_at(declared, visits, j) == failure_at(declared, prev, j));
                }
            }
        } else {
            assert forall|i: int| 0 <= i < visits.len() implies #[trigger] failure_at(declared, visits, i) is None by {
                if i < n {
                    assert(failure_at(declared, visits, i) == failure_at(declared, prev, i));
                }
            }
        }
        if p.3 is Some {
            let e = p.3->Some_0;
            let i = choose|i: int| 0 <= i < prev.len()
                && #[trigger] failure_at(declared, prev, i) == Some(e)
                && forall|j: int| 0 <= j < i ==> #[trigger] failure_at(declared, prev, j) is None;
            assert(failure_at(declared, visits, i) == failure_at(declared, prev, i));
        }
    }
    if settle(declared, a) is Ok {
        lemma_below_len(declared);
        vstd::set_lib::lemma_subset_equality(a.0, below(declared));
    }
}

} // verus!
