//! Reference semantics for finite and ultimately periodic temporal-logic words.
//!
//! The lasso and finite evaluators are proved against the recursive denotation
//! in [`semantics`]; the closed-trace and origin-complete profile evaluators
//! against the signed-time denotation of [`profile`]. All verdicts are trace
//! scoped.

use vstd::prelude::*;

pub mod semantics;
pub mod sequence;
pub mod atoms;
pub mod lasso;
pub mod finite;
pub mod population;
pub mod profile;
pub mod syntax;
pub mod laws;
pub mod v11;
pub mod refinement;
pub mod census;
pub mod agreement;

verus! {

/// Stable identifier of a proposition.
pub type PropositionId = u32;

/// A discrete inclusive interval or an interval extending without an end.
#[derive(Clone, Copy, Debug, PartialEq, Eq)]
pub enum Interval {
    /// Offsets from `start` through `end`, inclusive.
    Closed { start: usize, end: usize },
    /// All offsets at least `start`.
    Unbounded { start: usize },
}

impl Interval {
    /// The lower offset and, for a closed interval, the upper offset.
    pub open spec fn spec_bounds(self) -> (usize, Option<usize>) {
        match self {
            Interval::Closed { start, end } => (start, Some(end)),
            Interval::Unbounded { start } => (start, None),
        }
    }

    /// The lower offset and, for a closed interval, the upper offset.
    pub fn bounds(self) -> (r: (usize, Option<usize>))
        ensures
            r == self.spec_bounds(),
    {
        match self {
            Interval::Closed { start, end } => (start, Some(end)),
            Interval::Unbounded { start } => (start, None),
        }
    }

    /// The lower offset as a natural number.
    pub open spec fn lower(self) -> nat {
        self.spec_bounds().0 as nat
    }

    /// The upper offset as a natural number, absent for an unbounded interval.
    pub open spec fn upper(self) -> Option<nat> {
        match self.spec_bounds().1 {
            Some(end) => Some(end as nat),
            None => None,
        }
    }
}

/// Oracle-owned formula tree.
#[derive(Debug, PartialEq, Eq)]
pub enum Formula {
    /// Boolean false.
    False,
    /// Boolean true.
    True,
    /// A proposition.
    Atom(PropositionId),
    /// Boolean negation.
    Not(Box<Formula>),
    /// Boolean conjunction.
    And(Box<Formula>, Box<Formula>),
    /// Boolean disjunction.
    Or(Box<Formula>, Box<Formula>),
    /// Boolean implication.
    Implies(Box<Formula>, Box<Formula>),
    /// Boolean equivalence.
    Equivalent(Box<Formula>, Box<Formula>),
    /// Future F.
    Future(Interval, Box<Formula>),
    /// Future G.
    Globally(Interval, Box<Formula>),
    /// Future U.
    Until(Interval, Box<Formula>, Box<Formula>),
    /// Future R.
    Release(Interval, Box<Formula>, Box<Formula>),
    /// Past O.
    Once(Interval, Box<Formula>),
    /// Past H.
    Historically(Interval, Box<Formula>),
    /// Past S.
    Since(Interval, Box<Formula>, Box<Formula>),
    /// Past T.
    Triggered(Interval, Box<Formula>, Box<Formula>),
    /// Strong previous Y.
    StrongPrevious(Box<Formula>),
}

impl Clone for Formula {
    fn clone(&self) -> (r: Self)
        ensures
            r == *self,
        decreases self,
    {
        match self {
            Formula::False => Formula::False,
            Formula::True => Formula::True,
            Formula::Atom(a) => Formula::Atom(*a),
            Formula::Not(p) => Formula::Not(Box::new((**p).clone())),
            Formula::And(p, q) => Formula::And(Box::new((**p).clone()), Box::new((**q).clone())),
            Formula::Or(p, q) => Formula::Or(Box::new((**p).clone()), Box::new((**q).clone())),
            Formula::Implies(p, q) => Formula::Implies(
                Box::new((**p).clone()),
                Box::new((**q).clone()),
            ),
            Formula::Equivalent(p, q) => Formula::Equivalent(
                Box::new((**p).clone()),
                Box::new((**q).clone()),
            ),
            Formula::Future(r, p) => Formula::Future(*r, Box::new((**p).clone())),
            Formula::Globally(r, p) => Formula::Globally(*r, Box::new((**p).clone())),
            Formula::Until(r, p, q) => Formula::Until(
                *r,
                Box::new((**p).clone()),
                Box::new((**q).clone()),
            ),
            Formula::Release(r, p, q) => Formula::Release(
                *r,
                Box::new((**p).clone()),
                Box::new((**q).clone()),
            ),
            Formula::Once(r, p) => Formula::Once(*r, Box::new((**p).clone())),
            Formula::Historically(r, p) => Formula::Historically(*r, Box::new((**p).clone())),
            Formula::Since(r, p, q) => Formula::Since(
                *r,
                Box::new((**p).clone()),
                Box::new((**q).clone()),
            ),
            Formula::Triggered(r, p, q) => Formula::Triggered(
                *r,
                Box::new((**p).clone()),
                Box::new((**q).clone()),
            ),
            Formula::StrongPrevious(p) => Formula::StrongPrevious(Box::new((**p).clone())),
        }
    }
}

/// Evidence for one proposition at one materialized lasso position.
#[derive(Clone, Copy, Debug, PartialEq, Eq)]
pub enum Evidence {
    /// The proposition is known false.
    False,
    /// The proposition is known true.
    True,
    /// No observation has arrived.
    Missing,
    /// Conflicting true and false observations exist.
    Conflicting,
    /// An explicitly empty possibility set; the input is inconsistent.
    Impossible,
}

/// A trace-scoped semantic result, never a model-wide proof.
#[derive(Clone, Copy, Debug, Eq)]
pub enum Verdict {
    /// All fair admitted completions satisfy the claim.
    Proved,
    /// All fair admitted completions falsify the claim.
    Refuted,
    /// Fair admitted completions disagree.
    Inconclusive,
}

/// Why an inconclusive result can remain unsettled.
#[derive(Clone, Copy, Debug, Eq)]
pub enum Uncertainty {
    /// No unknown evidence occurred.
    Certain,
    /// At least one observation was missing.
    Missing,
    /// At least one observation was conflicting.
    Conflicting,
    /// Both missing and conflicting evidence occurred.
    Mixed,
}

/// Exact result of complete common-completion enumeration.
#[derive(Clone, Copy, Debug, Eq)]
pub struct Outcome {
    /// Truth settlement for one trace at the requested position.
    pub verdict: Verdict,
    /// Whether at least one admitted fair completion made the claim true.
    pub possible_true: bool,
    /// Whether at least one admitted fair completion made the claim false.
    pub possible_false: bool,
    /// Count of admitted fair completions.
    pub fair_completions: usize,
    /// Source of open possibilities, even if the formula happened to settle.
    pub uncertainty: Uncertainty,
}

impl PartialEq for Verdict {
    fn eq(&self, other: &Self) -> (r: bool) {
        match (self, other) {
            (Verdict::Proved, Verdict::Proved) => true,
            (Verdict::Refuted, Verdict::Refuted) => true,
            (Verdict::Inconclusive, Verdict::Inconclusive) => true,
            _ => false,
        }
    }
}

impl vstd::std_specs::cmp::PartialEqSpecImpl for Verdict {
    open spec fn obeys_eq_spec() -> bool {
        true
    }

    open spec fn eq_spec(&self, other: &Self) -> bool {
        *self == *other
    }
}

impl PartialEq for Uncertainty {
    fn eq(&self, other: &Self) -> (r: bool) {
        match (self, other) {
            (Uncertainty::Certain, Uncertainty::Certain) => true,
            (Uncertainty::Missing, Uncertainty::Missing) => true,
            (Uncertainty::Conflicting, Uncertainty::Conflicting) => true,
            (Uncertainty::Mixed, Uncertainty::Mixed) => true,
            _ => false,
        }
    }
}

impl vstd::std_specs::cmp::PartialEqSpecImpl for Uncertainty {
    open spec fn obeys_eq_spec() -> bool {
        true
    }

    open spec fn eq_spec(&self, other: &Self) -> bool {
        *self == *other
    }
}

impl PartialEq for Outcome {
    fn eq(&self, other: &Self) -> (r: bool) {
        self.verdict == other.verdict && self.possible_true == other.possible_true
            && self.possible_false == other.possible_false && self.fair_completions == other.fair_completions
            && self.uncertainty == other.uncertainty
    }
}

impl vstd::std_specs::cmp::PartialEqSpecImpl for Outcome {
    open spec fn obeys_eq_spec() -> bool {
        true
    }

    open spec fn eq_spec(&self, other: &Self) -> bool {
        *self == *other
    }
}

/// Maximum work admitted by one oracle request.
#[derive(Clone, Copy, Debug)]
pub struct Limits {
    /// Maximum formula nesting depth.
    pub max_depth: usize,
    /// Maximum temporal offset, including a past stabilization prefix.
    pub max_offset: usize,
    /// Maximum sequence cells materialized for any subformula.
    pub max_positions: usize,
    /// Maximum common completions enumerated.
    pub max_completions: usize,
}

impl Default for Limits {
    fn default() -> (r: Self)
        ensures
            r.max_depth == 64,
            r.max_offset == 4096,
            r.max_positions == 65536,
            r.max_completions == 65536,
    {
        Limits { max_depth: 64, max_offset: 4096, max_positions: 65536, max_completions: 65536 }
    }
}

/// Refusal or resource-incomplete result. Neither is a Boolean truth value.
#[derive(Clone, Copy, Debug, PartialEq, Eq)]
pub enum OracleError {
    /// A lasso needs at least one loop cell.
    EmptyLoop,
    /// A closed interval was inverted.
    InvertedInterval,
    /// One observed cell has no consistent Boolean completion.
    InconsistentInput,
    /// Fairness rejected every common completion.
    EmptyFairAdmission,
    /// The configured resource budget was exhausted.
    ResourceIncomplete,
    /// The reference sequence did not stabilize within the configured bound.
    NoPeriodicFixedPoint,
    /// A requested root does not belong to the syntax graph.
    GraphRootAbsent,
    /// A finite trace cannot be evaluated at an absent starting position.
    FinitePositionAbsent,
    /// The finite oracle needs a value for each referenced proposition.
    FinitePropositionMissing,
    /// A past operator was supplied to the closed future profile.
    ClosedTracePastUnsupported,
    /// A future operator was supplied to the origin-complete past profile.
    OriginFutureUnsupported,
    /// An open-upper interval is outside the closed finite profile.
    UnboundedFiniteInterval,
    /// The formula and trace do not share the infinite profile and event clock.
    IdentityMismatch,
    /// The trace's proposition map does not admit a referenced atom.
    ForeignProposition,
}

} // verus!

pub use finite::evaluate_finite;
pub use profile::{evaluate_closed_trace_v1, evaluate_origin_complete};
pub use lasso::{evaluate, Lasso};
pub use syntax::{evaluate_documents, evaluate_syntax, from_syntax};
