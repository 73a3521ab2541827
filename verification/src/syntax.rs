//! Formula graphs and lasso trace documents, and their lowering to the oracle's
//! own formula tree and lasso.
//!
//! A formula graph is a list of nodes whose operands name other nodes by
//! position; shared operands make it a DAG. Lowering expands it into a tree
//! under a nesting bound and a node budget, so a small graph with heavy
//! sharing is refused rather than expanded without end.

use vstd::prelude::*;
use std::collections::BTreeMap;
use crate::{Evidence, Formula, Interval, Limits, OracleError, Outcome, PropositionId};
use crate::atoms::{atoms_of, depth_of};
use crate::lasso::{evaluation, premise_atoms, Lasso};

verus! {

/// Position of a node in a formula graph.
pub type NodeId = u32;

/// The semantic profile a document is written for.
#[derive(Clone, Copy, Debug, PartialEq, Eq, Structural)]
pub enum SemanticProfile {
    /// Ultimately periodic infinite traces.
    InfiniteTraceV1,
    /// Closed finite traces with future operators only.
    ClosedTraceV1,
    /// Finite traces read from the origin with past operators only.
    OriginCompleteV1,
}

/// The clock that numbers trace positions.
#[derive(Clone, Copy, Debug, PartialEq, Eq, Structural)]
pub enum InfiniteClock {
    /// One position per observed event.
    EventPosition,
    /// Positions carry timestamps.
    Timestamp,
}

/// A temporal interval as a document writes it, in unsigned 64-bit offsets.
#[derive(Clone, Copy, Debug, PartialEq, Eq)]
pub enum TemporalInterval {
    /// Offsets from `start` through `end`, inclusive.
    Closed { start: u64, end: u64 },
    /// All offsets at least `start`.
    Unbounded { start: u64 },
}

/// One node of a formula graph; operands are node positions.
#[derive(Clone, Copy, Debug, PartialEq, Eq)]
pub enum NodeKind {
    False,
    True,
    Proposition { proposition: PropositionId },
    Not { operand: NodeId },
    And { left: NodeId, right: NodeId },
    Or { left: NodeId, right: NodeId },
    Implies { left: NodeId, right: NodeId },
    Equivalent { left: NodeId, right: NodeId },
    Future { interval: TemporalInterval, operand: NodeId },
    Globally { interval: TemporalInterval, operand: NodeId },
    Once { interval: TemporalInterval, operand: NodeId },
    Historically { interval: TemporalInterval, operand: NodeId },
    Until { interval: TemporalInterval, left: NodeId, right: NodeId },
    Release { interval: TemporalInterval, left: NodeId, right: NodeId },
    Since { interval: TemporalInterval, left: NodeId, right: NodeId },
    Triggered { interval: TemporalInterval, left: NodeId, right: NodeId },
    StrongPrevious { operand: NodeId },
}

/// A formula graph with a designated root.
#[derive(Clone, Debug)]
pub struct FormulaGraph {
    /// The designated root node.
    pub root: NodeId,
    /// The nodes, each named by its position.
    pub nodes: Vec<NodeKind>,
}

impl FormulaGraph {
    /// The designated root node.
    pub fn root(&self) -> (r: NodeId)
        ensures
            r == self.root,
    {
        self.root
    }

    /// Whether the root and every operand name a node of the graph, the
    /// validity a lowering needs to meet no absent node.
    pub fn is_closed(&self) -> (r: bool)
        ensures
            r == (self.root < self.nodes@.len() && closed_graph(self.nodes@)),
    {
        let n = self.nodes.len();
        let mut i: usize = 0;
        while i < n
            invariant
                n == self.nodes@.len(),
                i <= n,
                forall|j: int, k: int| 0 <= j < i && 0 <= k < operands(self.nodes@[j]).len()
                    ==> #[trigger] operands(self.nodes@[j])[k] < n,
            decreases n - i,
        {
            let ops: (usize, NodeId, NodeId) = match self.nodes[i] {
                NodeKind::False | NodeKind::True | NodeKind::Proposition { .. } => (0, 0, 0),
                NodeKind::Not { operand } | NodeKind::StrongPrevious { operand }
                | NodeKind::Future { operand, .. } | NodeKind::Globally { operand, .. }
                | NodeKind::Once { operand, .. } | NodeKind::Historically { operand, .. } => (1, operand, 0),
                NodeKind::And { left, right } | NodeKind::Or { left, right }
                | NodeKind::Implies { left, right } | NodeKind::Equivalent { left, right }
                | NodeKind::Until { left, right, .. } | NodeKind::Release { left, right, .. }
                | NodeKind::Since { left, right, .. } | NodeKind::Triggered { left, right, .. } => (2, left, right),
            };
            if ops.0 >= 1 && ops.1 as usize >= n {
                proof {
                    assert(operands(self.nodes@[i as int])[0] >= n);
                }
                return false;
            }
            if ops.0 == 2 && ops.2 as usize >= n {
                proof {
                    assert(operands(self.nodes@[i as int])[1] >= n);
                }
                return false;
            }
            proof {
                assert(operands(self.nodes@[i as int]).len() == ops.0);
            }
            i += 1;
        }
        (self.root as usize) < n
    }
}

/// Every operand of every node names a node of the graph.
pub open spec fn closed_graph(graph: Seq<NodeKind>) -> bool {
    forall|j: int, k: int| 0 <= j < graph.len() && 0 <= k < operands(graph[j]).len()
        ==> #[trigger] operands(graph[j])[k] < graph.len()
}

/// Nesting bound of the lowering: a node this deep is refused.
pub open spec fn max_nesting() -> nat {
    64
}

/// Nodes the lowering of one root may expand, shared operands counted each time.
pub open spec fn expansion_budget() -> nat {
    65536
}

/// A document offset as a machine offset; one beyond `usize` is a resource refusal.
pub open spec fn machine_offset(v: u64) -> Result<usize, OracleError> {
    if v <= usize::MAX {
        Ok(v as usize)
    } else {
        Err(OracleError::ResourceIncomplete)
    }
}

/// The oracle interval of a document interval.
pub open spec fn interval_of(t: TemporalInterval) -> Result<Interval, OracleError> {
    match t {
        TemporalInterval::Closed { start, end } => match machine_offset(start) {
            Err(e) => Err(e),
            Ok(s) => match machine_offset(end) {
                Err(e) => Err(e),
                Ok(e) => Ok(Interval::Closed { start: s, end: e }),
            },
        },
        TemporalInterval::Unbounded { start } => match machine_offset(start) {
            Err(e) => Err(e),
            Ok(s) => Ok(Interval::Unbounded { start: s }),
        },
    }
}

/// The operands of a node, in the order the lowering visits them.
pub open spec fn operands(k: NodeKind) -> Seq<NodeId> {
    match k {
        NodeKind::False | NodeKind::True | NodeKind::Proposition { .. } => seq![],
        NodeKind::Not { operand } | NodeKind::StrongPrevious { operand }
        | NodeKind::Future { operand, .. } | NodeKind::Globally { operand, .. }
        | NodeKind::Once { operand, .. } | NodeKind::Historically { operand, .. } => seq![operand],
        NodeKind::And { left, right } | NodeKind::Or { left, right }
        | NodeKind::Implies { left, right } | NodeKind::Equivalent { left, right }
        | NodeKind::Until { left, right, .. } | NodeKind::Release { left, right, .. }
        | NodeKind::Since { left, right, .. } | NodeKind::Triggered { left, right, .. } => seq![left, right],
    }
}

/// The interval a temporal node carries.
pub open spec fn carried(k: NodeKind) -> Option<TemporalInterval> {
    match k {
        NodeKind::Future { interval, .. } | NodeKind::Globally { interval, .. }
        | NodeKind::Once { interval, .. } | NodeKind::Historically { interval, .. }
        | NodeKind::Until { interval, .. } | NodeKind::Release { interval, .. }
        | NodeKind::Since { interval, .. } | NodeKind::Triggered { interval, .. } => Some(interval),
        _ => None,
    }
}

/// The formula a node stands for, given its interval and its lowered operands.
pub open spec fn assemble(k: NodeKind, i: Interval, ps: Seq<Formula>) -> Formula {
    match k {
        NodeKind::False => Formula::False,
        NodeKind::True => Formula::True,
        NodeKind::Proposition { proposition } => Formula::Atom(proposition),
        NodeKind::Not { .. } => Formula::Not(Box::new(ps[0])),
        NodeKind::And { .. } => Formula::And(Box::new(ps[0]), Box::new(ps[1])),
        NodeKind::Or { .. } => Formula::Or(Box::new(ps[0]), Box::new(ps[1])),
        NodeKind::Implies { .. } => Formula::Implies(Box::new(ps[0]), Box::new(ps[1])),
        NodeKind::Equivalent { .. } => Formula::Equivalent(Box::new(ps[0]), Box::new(ps[1])),
        NodeKind::Future { .. } => Formula::Future(i, Box::new(ps[0])),
        NodeKind::Globally { .. } => Formula::Globally(i, Box::new(ps[0])),
        NodeKind::Once { .. } => Formula::Once(i, Box::new(ps[0])),
        NodeKind::Historically { .. } => Formula::Historically(i, Box::new(ps[0])),
        NodeKind::Until { .. } => Formula::Until(i, Box::new(ps[0]), Box::new(ps[1])),
        NodeKind::Release { .. } => Formula::Release(i, Box::new(ps[0]), Box::new(ps[1])),
        NodeKind::Since { .. } => Formula::Since(i, Box::new(ps[0]), Box::new(ps[1])),
        NodeKind::Triggered { .. } => Formula::Triggered(i, Box::new(ps[0]), Box::new(ps[1])),
        NodeKind::StrongPrevious { .. } => Formula::StrongPrevious(Box::new(ps[0])),
    }
}

/// Lowering of `root` at nesting `depth` with `budget` expansions left: the
/// formula or the refusal met first, and the budget that remains.
///
/// A node at the nesting bound, or met with no budget left, is a resource
/// refusal; otherwise it spends one unit, an absent node is refused, the
/// interval is converted, then the operands are lowered left to right.
pub open spec fn lower(graph: Seq<NodeKind>, root: NodeId, depth: nat, budget: nat) -> (Result<Formula, OracleError>, nat)
    decreases max_nesting() - depth, 0nat,
{
    if depth >= max_nesting() || budget == 0 {
        (Err(OracleError::ResourceIncomplete), budget)
    } else if root >= graph.len() {
        (Err(OracleError::GraphRootAbsent), (budget - 1) as nat)
    } else {
        let k = graph[root as int];
        let b = (budget - 1) as nat;
        let i = match carried(k) {
            Some(t) => interval_of(t),
            None => Ok(Interval::Unbounded { start: 0 }),
        };
        match i {
            Err(e) => (Err(e), b),
            Ok(i) => {
                let (ps, rest) = lower_all(graph, operands(k), depth + 1, b);
                match ps {
                    Err(e) => (Err(e), rest),
                    Ok(ps) => (Ok(assemble(k, i, ps)), rest),
                }
            },
        }
    }
}

/// Lowering of the nodes `ids` in order, each with the budget the last left.
pub open spec fn lower_all(graph: Seq<NodeKind>, ids: Seq<NodeId>, depth: nat, budget: nat) -> (Result<Seq<Formula>, OracleError>, nat)
    decreases max_nesting() - depth, ids.len(),
{
    if ids.len() == 0 {
        (Ok(seq![]), budget)
    } else {
        let (p, b1) = lower(graph, ids[0], depth, budget);
        match p {
            Err(e) => (Err(e), b1),
            Ok(p) => {
                let (rest, b2) = lower_all(graph, ids.drop_first(), depth, b1);
                match rest {
                    Err(e) => (Err(e), b2),
                    Ok(rs) => (Ok(seq![p] + rs), b2),
                }
            },
        }
    }
}

/// The formula tree of `root`, lowered from the top with the full budget.
pub open spec fn syntax_formula(graph: Seq<NodeKind>, root: NodeId) -> Result<Formula, OracleError> {
    lower(graph, root, 0, expansion_budget()).0
}

pub(crate) proof fn lemma_lower_one(graph: Seq<NodeKind>, a: NodeId, d: nat, b: nat)
    ensures
        lower_all(graph, seq![a], d, b) == (match lower(graph, a, d, b).0 {
            Err(e) => (Err(e), lower(graph, a, d, b).1),
            Ok(p) => (Ok(seq![p]), lower(graph, a, d, b).1),
        }),
{
    reveal_with_fuel(lower_all, 2);
    let (p, b1) = lower(graph, a, d, b);
    assert(seq![a].drop_first() =~= Seq::<NodeId>::empty());
    if let Ok(p) = p {
        assert(seq![p] + Seq::<Formula>::empty() =~= seq![p]);
    }
}

pub(crate) proof fn lemma_lower_two(graph: Seq<NodeKind>, a: NodeId, c: NodeId, d: nat, b: nat)
    ensures
        lower_all(graph, seq![a, c], d, b) == (match lower(graph, a, d, b).0 {
            Err(e) => (Err(e), lower(graph, a, d, b).1),
            Ok(p) => match lower(graph, c, d, lower(graph, a, d, b).1).0 {
                Err(e) => (Err(e), lower(graph, c, d, lower(graph, a, d, b).1).1),
                Ok(q) => (Ok(seq![p, q]), lower(graph, c, d, lower(graph, a, d, b).1).1),
            },
        }),
{
    reveal_with_fuel(lower_all, 2);
    let (p, b1) = lower(graph, a, d, b);
    assert(seq![a, c].drop_first() =~= seq![c]);
    lemma_lower_one(graph, c, d, b1);
    if let Ok(p) = p {
        if let Ok(q) = lower(graph, c, d, b1).0 {
            assert(seq![p] + seq![q] =~= seq![p, q]);
        }
    }
}

/// Each formula a lowering at `depth` yields is at most the nesting bound less `depth` deep.
pub proof fn lemma_lower_depth(graph: Seq<NodeKind>, root: NodeId, depth: nat, budget: nat)
    ensures
        lower(graph, root, depth, budget).0 matches Ok(f) ==> depth + depth_of(f) <= max_nesting(),
    decreases max_nesting() - depth, 0nat,
{
    if depth < max_nesting() && budget > 0 && root < graph.len() {
        let k = graph[root as int];
        let b = (budget - 1) as nat;
        lemma_lower_all_depth(graph, operands(k), depth + 1, b);
        let (ps, _) = lower_all(graph, operands(k), depth + 1, b);
        if let Ok(ps) = ps {
            lemma_lower_all_len(graph, operands(k), depth + 1, b);
            if operands(k).len() > 0 {
                assert(depth + 1 + depth_of(ps[0]) <= max_nesting());
            }
            if operands(k).len() > 1 {
                assert(depth + 1 + depth_of(ps[1]) <= max_nesting());
            }
        }
    }
}

/// Each formula a lowering of several nodes yields obeys the same bound.
pub proof fn lemma_lower_all_depth(graph: Seq<NodeKind>, ids: Seq<NodeId>, depth: nat, budget: nat)
    ensures
        lower_all(graph, ids, depth, budget).0 matches Ok(ps) ==> forall|j: int| 0 <= j < ps.len() ==> depth + depth_of(#[trigger] ps[j]) <= max_nesting(),
    decreases max_nesting() - depth, ids.len(),
{
    if ids.len() > 0 {
        lemma_lower_depth(graph, ids[0], depth, budget);
        let (p, b1) = lower(graph, ids[0], depth, budget);
        if let Ok(p0) = p {
            lemma_lower_all_depth(graph, ids.drop_first(), depth, b1);
            let (rest, _) = lower_all(graph, ids.drop_first(), depth, b1);
            if let Ok(rs) = rest {
                let ps = seq![p0] + rs;
                assert forall|j: int| 0 <= j < ps.len() implies depth + depth_of(#[trigger] ps[j]) <= max_nesting() by {
                    if j > 0 {
                        assert(ps[j] == rs[j - 1]);
                    }
                }
            }
        }
    }
}

/// A lowering of several nodes yields one formula for each.
proof fn lemma_lower_all_len(graph: Seq<NodeKind>, ids: Seq<NodeId>, depth: nat, budget: nat)
    ensures
        lower_all(graph, ids, depth, budget).0 matches Ok(ps) ==> ps.len() == ids.len(),
    decreases ids.len(),
{
    if ids.len() > 0 {
        let (p, b1) = lower(graph, ids[0], depth, budget);
        if p is Ok {
            lemma_lower_all_len(graph, ids.drop_first(), depth, b1);
        }
    }
}

fn interval(t: TemporalInterval) -> (r: Result<Interval, OracleError>)
    ensures
        r == interval_of(t),
{
    match t {
        TemporalInterval::Closed { start, end } => {
            if start <= usize::MAX as u64 && end <= usize::MAX as u64 {
                Ok(Interval::Closed { start: start as usize, end: end as usize })
            } else {
                Err(OracleError::ResourceIncomplete)
            }
        },
        TemporalInterval::Unbounded { start } => {
            if start <= usize::MAX as u64 {
                Ok(Interval::Unbounded { start: start as usize })
            } else {
                Err(OracleError::ResourceIncomplete)
            }
        },
    }
}

#[verifier::rlimit(100)]
fn lower_node(graph: &Vec<NodeKind>, root: NodeId, depth: usize, budget: &mut usize) -> (r: Result<Formula, OracleError>)
    requires
        depth <= max_nesting(),
    ensures
        r == lower(graph@, root, depth as nat, *old(budget) as nat).0,
        *final(budget) == lower(graph@, root, depth as nat, *old(budget) as nat).1,
    decreases 64 - depth, 1usize,
{
    if depth >= 64 || *budget == 0 {
        return Err(OracleError::ResourceIncomplete);
    }
    *budget = *budget - 1;
    if root as usize >= graph.len() {
        return Err(OracleError::GraphRootAbsent);
    }
    let ghost b = *budget as nat;
    let d = depth + 1;
    match graph[root as usize] {
        NodeKind::False => Ok(Formula::False),
        NodeKind::True => Ok(Formula::True),
        NodeKind::Proposition { proposition } => Ok(Formula::Atom(proposition)),
        NodeKind::Not { operand } => {
            proof { lemma_lower_one(graph@, operand, d as nat, b); }
            match lower_node(graph, operand, d, budget) {
                Ok(p) => Ok(Formula::Not(Box::new(p))),
                Err(e) => Err(e),
            }
        },
        NodeKind::StrongPrevious { operand } => {
            proof { lemma_lower_one(graph@, operand, d as nat, b); }
            match lower_node(graph, operand, d, budget) {
                Ok(p) => Ok(Formula::StrongPrevious(Box::new(p))),
                Err(e) => Err(e),
            }
        },
        NodeKind::And { left, right } => match lower_pair(graph, left, right, d, budget) {
            Ok((p, q)) => Ok(Formula::And(Box::new(p), Box::new(q))),
            Err(e) => Err(e),
        },
        NodeKind::Or { left, right } => match lower_pair(graph, left, right, d, budget) {
            Ok((p, q)) => Ok(Formula::Or(Box::new(p), Box::new(q))),
            Err(e) => Err(e),
        },
        NodeKind::Implies { left, right } => match lower_pair(graph, left, right, d, budget) {
            Ok((p, q)) => Ok(Formula::Implies(Box::new(p), Box::new(q))),
            Err(e) => Err(e),
        },
        NodeKind::Equivalent { left, right } => match lower_pair(graph, left, right, d, budget) {
            Ok((p, q)) => Ok(Formula::Equivalent(Box::new(p), Box::new(q))),
            Err(e) => Err(e),
        },
        NodeKind::Future { interval: t, operand } => {
            let i = match interval(t) {
                Ok(i) => i,
                Err(e) => return Err(e),
            };
            proof { lemma_lower_one(graph@, operand, d as nat, b); }
            match lower_node(graph, operand, d, budget) {
                Ok(p) => Ok(Formula::Future(i, Box::new(p))),
                Err(e) => Err(e),
            }
        },
        NodeKind::Globally { interval: t, operand } => {
            let i = match interval(t) {
                Ok(i) => i,
                Err(e) => return Err(e),
            };
            proof { lemma_lower_one(graph@, operand, d as nat, b); }
            match lower_node(graph, operand, d, budget) {
                Ok(p) => Ok(Formula::Globally(i, Box::new(p))),
                Err(e) => Err(e),
            }
        },
        NodeKind::Once { interval: t, operand } => {
            let i = match interval(t) {
                Ok(i) => i,
                Err(e) => return Err(e),
            };
            proof { lemma_lower_one(graph@, operand, d as nat, b); }
            match lower_node(graph, operand, d, budget) {
                Ok(p) => Ok(Formula::Once(i, Box::new(p))),
                Err(e) => Err(e),
            }
        },
        NodeKind::Historically { interval: t, operand } => {
            let i = match interval(t) {
                Ok(i) => i,
                Err(e) => return Err(e),
            };
            proof { lemma_lower_one(graph@, operand, d as nat, b); }
            match lower_node(graph, operand, d, budget) {
                Ok(p) => Ok(Formula::Historically(i, Box::new(p))),
                Err(e) => Err(e),
            }
        },
        NodeKind::Until { interval: t, left, right } => {
            let i = match interval(t) {
                Ok(i) => i,
                Err(e) => return Err(e),
            };
            match lower_pair(graph, left, right, d, budget) {
                Ok((p, q)) => Ok(Formula::Until(i, Box::new(p), Box::new(q))),
                Err(e) => Err(e),
            }
        },
        NodeKind::Release { interval: t, left, right } => {
            let i = match interval(t) {
                Ok(i) => i,
                Err(e) => return Err(e),
            };
            match lower_pair(graph, left, right, d, budget) {
                Ok((p, q)) => Ok(Formula::Release(i, Box::new(p), Box::new(q))),
                Err(e) => Err(e),
            }
        },
        NodeKind::Since { interval: t, left, right } => {
            let i = match interval(t) {
                Ok(i) => i,
                Err(e) => return Err(e),
            };
            match lower_pair(graph, left, right, d, budget) {
                Ok((p, q)) => Ok(Formula::Since(i, Box::new(p), Box::new(q))),
                Err(e) => Err(e),
            }
        },
        NodeKind::Triggered { interval: t, left, right } => {
            let i = match interval(t) {
                Ok(i) => i,
                Err(e) => return Err(e),
            };
            match lower_pair(graph, left, right, d, budget) {
                Ok((p, q)) => Ok(Formula::Triggered(i, Box::new(p), Box::new(q))),
                Err(e) => Err(e),
            }
        },
    }
}

fn lower_pair(graph: &Vec<NodeKind>, left: NodeId, right: NodeId, depth: usize, budget: &mut usize) -> (r: Result<(Formula, Formula), OracleError>)
    requires
        depth <= max_nesting(),
    ensures
        *final(budget) == lower_all(graph@, seq![left, right], depth as nat, *old(budget) as nat).1,
        match r {
            Ok((p, q)) => lower_all(graph@, seq![left, right], depth as nat, *old(budget) as nat).0 == Ok::<Seq<Formula>, OracleError>(seq![p, q]),
            Err(e) => lower_all(graph@, seq![left, right], depth as nat, *old(budget) as nat).0 == Err::<Seq<Formula>, OracleError>(e),
        },
    decreases 64 - depth, 2usize,
{
    proof { lemma_lower_two(graph@, left, right, depth as nat, *budget as nat); }
    let p = match lower_node(graph, left, depth, budget) {
        Ok(p) => p,
        Err(e) => return Err(e),
    };
    let q = match lower_node(graph, right, depth, budget) {
        Ok(q) => q,
        Err(e) => return Err(e),
    };
    Ok((p, q))
}

/// Lowers one root of a formula graph to the oracle's formula tree.
///
/// The result is exactly [`syntax_formula`]: the tree, or the refusal met
/// first. A lowered tree is never deeper than the nesting bound.
pub fn from_syntax(graph: &FormulaGraph, root: NodeId) -> (r: Result<Formula, OracleError>)
    ensures
        r == syntax_formula(graph.nodes@, root),
        r matches Ok(f) ==> depth_of(f) <= max_nesting(),
{
    let mut budget: usize = 65536;
    proof { lemma_lower_depth(graph.nodes@, root, 0, expansion_budget()); }
    lower_node(&graph.nodes, root, 0, &mut budget)
}

/// The formula trees of `roots` in order, or the refusal of the first that fails.
pub open spec fn lower_roots(graph: Seq<NodeKind>, roots: Seq<NodeId>) -> Result<Seq<Formula>, OracleError>
    decreases roots.len(),
{
    if roots.len() == 0 {
        Ok(seq![])
    } else {
        match lower_roots(graph, roots.drop_last()) {
            Err(e) => Err(e),
            Ok(fs) => match syntax_formula(graph, roots.last()) {
                Err(e) => Err(e),
                Ok(f) => Ok(fs.push(f)),
            },
        }
    }
}

/// A refusal among the first roots is the refusal of them all.
proof fn lemma_lower_roots_prefix(graph: Seq<NodeKind>, roots: Seq<NodeId>, j: nat)
    requires
        j <= roots.len(),
        lower_roots(graph, roots.take(j as int)) is Err,
    ensures
        lower_roots(graph, roots) == lower_roots(graph, roots.take(j as int)),
    decreases roots.len(),
{
    if j < roots.len() {
        assert(roots.drop_last().take(j as int) =~= roots.take(j as int));
        lemma_lower_roots_prefix(graph, roots.drop_last(), j);
    } else {
        assert(roots.take(j as int) =~= roots);
    }
}

/// Lowers each root in order.
fn lower_premises(graph: &FormulaGraph, roots: &[NodeId]) -> (r: Result<Vec<Formula>, OracleError>)
    ensures
        match r {
            Ok(v) => lower_roots(graph.nodes@, roots@) == Ok::<Seq<Formula>, OracleError>(v@),
            Err(e) => lower_roots(graph.nodes@, roots@) == Err::<Seq<Formula>, OracleError>(e),
        },
        r matches Ok(v) ==> forall|k: int| 0 <= k < v@.len() ==> depth_of(#[trigger] v@[k]) <= max_nesting(),
{
    let mut v: Vec<Formula> = Vec::new();
    let mut i: usize = 0;
    while i < roots.len()
        invariant
            i <= roots@.len(),
            lower_roots(graph.nodes@, roots@.take(i as int)) == Ok::<Seq<Formula>, OracleError>(v@),
            forall|k: int| 0 <= k < v@.len() ==> depth_of(#[trigger] v@[k]) <= max_nesting(),
        decreases roots@.len() - i,
    {
        proof {
            assert(roots@.take(i + 1).drop_last() =~= roots@.take(i as int));
        }
        match from_syntax(graph, roots[i]) {
            Ok(f) => v.push(f),
            Err(e) => {
                proof { lemma_lower_roots_prefix(graph.nodes@, roots@, (i + 1) as nat); }
                return Err(e);
            },
        }
        i = i + 1;
    }
    proof {
        assert(roots@.take(i as int) =~= roots@);
    }
    Ok(v)
}

/// What [`evaluate_syntax`] answers: the claim and premises lowered, then evaluated.
pub open spec fn syntax_evaluation(
    graph: Seq<NodeKind>,
    claim_root: NodeId,
    roots: Seq<NodeId>,
    cells: Seq<Map<u32, Evidence>>,
    entry: nat,
    position: nat,
    limits: Limits,
) -> Result<Outcome, OracleError> {
    match syntax_formula(graph, claim_root) {
        Err(e) => Err(e),
        Ok(claim) => match lower_roots(graph, roots) {
            Err(e) => Err(e),
            Ok(fs) => evaluation(claim, fs, cells, entry, position, limits),
        },
    }
}

/// Evaluates roots of one formula graph against one lasso.
pub fn evaluate_syntax(
    graph: &FormulaGraph,
    claim_root: NodeId,
    fairness_roots: &[NodeId],
    lasso: &Lasso,
    position: usize,
    limits: Limits,
) -> (r: Result<Outcome, OracleError>)
    ensures
        r == syntax_evaluation(graph.nodes@, claim_root, fairness_roots@, lasso.view_cells(), lasso.entry(), position as nat, limits),
{
    let claim = match from_syntax(graph, claim_root) {
        Ok(c) => c,
        Err(e) => return Err(e),
    };
    let fairness = match lower_premises(graph, fairness_roots) {
        Ok(v) => v,
        Err(e) => return Err(e),
    };
    crate::lasso::evaluate(&claim, fairness.as_slice(), lasso, position, limits)
}

/// A formula graph together with the profile and clock it is written for.
#[derive(Clone, Debug)]
pub struct FormulaDocument {
    /// The semantic profile.
    pub profile: SemanticProfile,
    /// The clock that numbers positions.
    pub clock: InfiniteClock,
    /// The formula graph and its root.
    pub graph: FormulaGraph,
}

impl FormulaDocument {
    /// A document over `nodes` with root `root`.
    pub fn new(profile: SemanticProfile, clock: InfiniteClock, root: NodeId, nodes: Vec<NodeKind>) -> (r: Self)
        ensures
            r.profile == profile,
            r.clock == clock,
            r.graph.root == root,
            r.graph.nodes@ == nodes@,
    {
        FormulaDocument { profile, clock, graph: FormulaGraph { root, nodes } }
    }

    /// The semantic profile.
    pub fn semantic_profile(&self) -> (r: SemanticProfile)
        ensures
            r == self.profile,
    {
        self.profile
    }

    /// The clock that numbers positions.
    pub fn clock(&self) -> (r: InfiniteClock)
        ensures
            r == self.clock,
    {
        self.clock
    }

    /// The formula graph.
    pub fn formula(&self) -> (r: &FormulaGraph)
        ensures
            *r == self.graph,
    {
        &self.graph
    }
}

/// The value one observation gives a proposition.
#[derive(Clone, Copy, Debug, PartialEq, Eq, Structural)]
pub enum PartialValue {
    /// Observed false.
    False,
    /// Observed true.
    True,
    /// Not observed.
    Missing,
    /// Observed both true and false.
    Conflicting,
}

/// One proposition's value in one observation.
#[derive(Clone, Copy, Debug, PartialEq, Eq)]
pub struct ValuationEntry {
    /// The proposition.
    pub proposition: PropositionId,
    /// Its observed value.
    pub value: PartialValue,
}

/// The observations at one trace position; a later entry for a proposition
/// replaces an earlier one.
#[derive(Clone, Debug)]
pub struct TraceObservation {
    /// The position the observation stands at.
    pub position: u64,
    /// The observed values.
    pub entries: Vec<ValuationEntry>,
}

/// The evidence an observed value is.
pub open spec fn evidence_of_value(v: PartialValue) -> Evidence {
    match v {
        PartialValue::False => Evidence::False,
        PartialValue::True => Evidence::True,
        PartialValue::Missing => Evidence::Missing,
        PartialValue::Conflicting => Evidence::Conflicting,
    }
}

/// The evidence cell of a list of entries, later entries replacing earlier ones.
pub open spec fn cell_from(entries: Seq<ValuationEntry>) -> Map<u32, Evidence>
    decreases entries.len(),
{
    if entries.len() == 0 {
        Map::empty()
    } else {
        cell_from(entries.drop_last()).insert(entries.last().proposition, evidence_of_value(entries.last().value))
    }
}

/// The evidence cells of a list of observations.
pub open spec fn observed_cells(obs: Seq<TraceObservation>) -> Seq<Map<u32, Evidence>> {
    obs.map_values(|o: TraceObservation| cell_from(o.entries@))
}

/// A lasso trace: prefix observations, then a nonempty loop, over a declared
/// set of propositions.
#[derive(Debug)]
pub struct TraceDocument {
    profile: SemanticProfile,
    clock: InfiniteClock,
    map: String,
    propositions: Vec<PropositionId>,
    prefix: Vec<TraceObservation>,
    loop_observations: Vec<TraceObservation>,
}

impl Clone for TraceDocument {
    /// A copy of the document.
    fn clone(&self) -> (r: Self) {
        proof {
            use_type_invariant(self);
        }
        TraceDocument {
            profile: self.profile,
            clock: self.clock,
            map: self.map.clone(),
            propositions: self.propositions.clone(),
            prefix: self.prefix.clone(),
            loop_observations: self.loop_observations.clone(),
        }
    }
}

impl TraceDocument {
    #[verifier::type_invariant]
    spec fn nonempty_loop(self) -> bool {
        self.loop_observations@.len() > 0
    }

    /// The semantic profile.
    pub closed spec fn view_profile(self) -> SemanticProfile {
        self.profile
    }

    /// The clock that numbers positions.
    pub closed spec fn view_clock(self) -> InfiniteClock {
        self.clock
    }

    /// The name of the proposition map.
    pub closed spec fn view_map(self) -> Seq<char> {
        self.map@
    }

    /// The declared propositions.
    pub closed spec fn view_propositions(self) -> Seq<PropositionId> {
        self.propositions@
    }

    /// The prefix observations.
    pub closed spec fn view_prefix(self) -> Seq<TraceObservation> {
        self.prefix@
    }

    /// The loop observations.
    pub closed spec fn view_loop(self) -> Seq<TraceObservation> {
        self.loop_observations@
    }

    /// The evidence cells, prefix then loop.
    pub open spec fn view_cells(self) -> Seq<Map<u32, Evidence>> {
        observed_cells(self.view_prefix() + self.view_loop())
    }

    /// Index where the loop begins.
    pub open spec fn entry(self) -> nat {
        self.view_prefix().len()
    }

    /// A trace document; an empty loop is refused.
    pub fn new(
        profile: SemanticProfile,
        clock: InfiniteClock,
        map: String,
        propositions: Vec<PropositionId>,
        prefix: Vec<TraceObservation>,
        loop_observations: Vec<TraceObservation>,
    ) -> (r: Result<Self, OracleError>)
        ensures
            loop_observations@.len() == 0 ==> r == Err::<TraceDocument, OracleError>(OracleError::EmptyLoop),
            loop_observations@.len() > 0 ==> (r matches Ok(t) && t.view_profile() == profile && t.view_clock() == clock
                && t.view_map() == map@ && t.view_propositions() == propositions@ && t.view_prefix() == prefix@
                && t.view_loop() == loop_observations@),
    {
        if loop_observations.len() == 0 {
            return Err(OracleError::EmptyLoop);
        }
        Ok(TraceDocument { profile, clock, map, propositions, prefix, loop_observations })
    }

    /// The semantic profile.
    pub fn semantic_profile(&self) -> (r: SemanticProfile)
        ensures
            r == self.view_profile(),
    {
        self.profile
    }

    /// The clock that numbers positions.
    pub fn clock(&self) -> (r: InfiniteClock)
        ensures
            r == self.view_clock(),
    {
        self.clock
    }

    /// The name of the proposition map.
    pub fn map(&self) -> (r: &String)
        ensures
            r@ == self.view_map(),
    {
        &self.map
    }

    /// The declared propositions.
    pub fn propositions(&self) -> (r: &[PropositionId])
        ensures
            r@ == self.view_propositions(),
    {
        self.propositions.as_slice()
    }

    /// The prefix observations.
    pub fn prefix(&self) -> (r: &[TraceObservation])
        ensures
            r@ == self.view_prefix(),
    {
        self.prefix.as_slice()
    }

    /// The loop observations.
    pub fn loop_observations(&self) -> (r: &[TraceObservation])
        ensures
            r@ == self.view_loop(),
    {
        self.loop_observations.as_slice()
    }

    /// Index where the loop begins.
    pub fn loop_entry(&self) -> (r: usize)
        ensures
            r == self.entry(),
    {
        self.prefix.len()
    }

    /// Whether the declared propositions are distinct and every entry of every
    /// observation names one of them.
    pub fn is_consistent(&self) -> (r: bool)
        ensures
            r == (self.view_propositions().no_duplicates()
                && entries_declared(self.view_propositions(), self.view_prefix())
                && entries_declared(self.view_propositions(), self.view_loop())),
    {
        let props = self.propositions.as_slice();
        let n = props.len();
        let mut i: usize = 0;
        while i < n
            invariant
                n == props@.len(),
                props@ == self.view_propositions(),
                i <= n,
                forall|a: int, b: int| 0 <= a < b < n && a < i ==> props@[a] != props@[b],
            decreases n - i,
        {
            let mut j: usize = i + 1;
            while j < n
                invariant
                    n == props@.len(),
                    props@ == self.view_propositions(),
                    i < n,
                    i + 1 <= j <= n,
                    forall|a: int, b: int| 0 <= a < b < n && a < i ==> props@[a] != props@[b],
                    forall|b: int| i < b < j ==> props@[i as int] != props@[b],
                decreases n - j,
            {
                if props[i] == props[j] {
                    proof {
                        assert(self.view_propositions() == props@);
                        assert(props@[i as int] == props@[j as int]);
                        assert(!props@.no_duplicates());
                    }
                    return false;
                }
                j += 1;
            }
            i += 1;
        }
        observations_declared(props, self.prefix.as_slice()) && observations_declared(props, self.loop_observations.as_slice())
    }
}

/// Every entry of every observation names a declared proposition.
pub open spec fn entries_declared(props: Seq<PropositionId>, obs: Seq<TraceObservation>) -> bool {
    forall|i: int, j: int| 0 <= i < obs.len() && 0 <= j < obs[i].entries@.len() ==> props.contains(#[trigger] obs[i].entries@[j].proposition)
}

fn declared(props: &[PropositionId], p: PropositionId) -> (r: bool)
    ensures
        r == props@.contains(p),
{
    let mut k: usize = 0;
    while k < props.len()
        invariant
            k <= props@.len(),
            forall|m: int| 0 <= m < k ==> props@[m] != p,
        decreases props@.len() - k,
    {
        if props[k] == p {
            return true;
        }
        k += 1;
    }
    false
}

fn observations_declared(props: &[PropositionId], obs: &[TraceObservation]) -> (r: bool)
    ensures
        r == entries_declared(props@, obs@),
{
    let mut i: usize = 0;
    while i < obs.len()
        invariant
            i <= obs@.len(),
            forall|a: int, b: int| 0 <= a < i && 0 <= b < obs@[a].entries@.len() ==> props@.contains(#[trigger] obs@[a].entries@[b].proposition),
        decreases obs@.len() - i,
    {
        let entries = obs[i].entries.as_slice();
        let mut j: usize = 0;
        while j < entries.len()
            invariant
                i < obs@.len(),
                entries@ == obs@[i as int].entries@,
                j <= entries@.len(),
                forall|a: int, b: int| 0 <= a < i && 0 <= b < obs@[a].entries@.len() ==> props@.contains(#[trigger] obs@[a].entries@[b].proposition),
                forall|b: int| 0 <= b < j ==> props@.contains(#[trigger] obs@[i as int].entries@[b].proposition),
            decreases entries@.len() - j,
        {
            if !declared(props, entries[j].proposition) {
                return false;
            }
            j += 1;
        }
        i += 1;
    }
    true
}

fn evidence(v: PartialValue) -> (r: Evidence)
    ensures
        r == evidence_of_value(v),
{
    match v {
        PartialValue::False => Evidence::False,
        PartialValue::True => Evidence::True,
        PartialValue::Missing => Evidence::Missing,
        PartialValue::Conflicting => Evidence::Conflicting,
    }
}

/// The evidence cell of one observation.
fn observed_cell(o: &TraceObservation) -> (r: BTreeMap<u32, Evidence>)
    ensures
        r@ == cell_from(o.entries@),
{
    let mut m: BTreeMap<u32, Evidence> = BTreeMap::new();
    let mut i: usize = 0;
    while i < o.entries.len()
        invariant
            i <= o.entries@.len(),
            m@ == cell_from(o.entries@.take(i as int)),
        decreases o.entries@.len() - i,
    {
        let e = o.entries[i];
        m.insert(e.proposition, evidence(e.value));
        proof {
            assert(o.entries@.take(i + 1).drop_last() =~= o.entries@.take(i as int));
        }
        i = i + 1;
    }
    proof {
        assert(o.entries@.take(i as int) =~= o.entries@);
    }
    m
}

impl From<&TraceDocument> for Lasso {
    /// The lasso of a trace document: one evidence cell per observation.
    fn from(trace: &TraceDocument) -> (r: Lasso)
        ensures
            r.view_cells() == trace.view_cells(),
            r.entry() == trace.entry(),
    {
        proof { use_type_invariant(trace); }
        let prefix = trace.prefix();
        let lap = trace.loop_observations();
        let ghost obs = prefix@ + lap@;
        let mut cells: Vec<BTreeMap<u32, Evidence>> = Vec::new();
        let mut i: usize = 0;
        while i < prefix.len()
            invariant
                i <= prefix@.len(),
                obs == prefix@ + lap@,
                cells@.len() == i,
                forall|k: int| 0 <= k < i ==> (#[trigger] cells@[k])@ == cell_from(obs[k].entries@),
            decreases prefix@.len() - i,
        {
            let c = observed_cell(&prefix[i]);
            cells.push(c);
            i = i + 1;
        }
        let mut j: usize = 0;
        while j < lap.len()
            invariant
                i == prefix@.len(),
                j <= lap@.len(),
                obs == prefix@ + lap@,
                cells@.len() == i + j,
                forall|k: int| 0 <= k < i + j ==> (#[trigger] cells@[k])@ == cell_from(obs[k].entries@),
            decreases lap@.len() - j,
        {
            let c = observed_cell(&lap[j]);
            cells.push(c);
            j = j + 1;
        }
        proof {
            assert(cells@.map_values(|m: BTreeMap<u32, Evidence>| m@) =~= observed_cells(obs));
        }
        Lasso::from_parts(cells, prefix.len())
    }
}

impl vstd::std_specs::convert::FromSpecImpl<&TraceDocument> for Lasso {
    open spec fn obeys_from_spec() -> bool {
        false
    }

    open spec fn from_spec(v: &TraceDocument) -> Lasso {
        arbitrary()
    }
}

/// Whether `a` is among `props`.
fn listed(props: &[PropositionId], a: PropositionId) -> (r: bool)
    ensures
        r == props@.contains(a),
{
    let mut i: usize = 0;
    while i < props.len()
        invariant
            i <= props@.len(),
            forall|k: int| 0 <= k < i ==> props@[k] != a,
        decreases props@.len() - i,
    {
        if props[i] == a {
            return true;
        }
        i = i + 1;
    }
    false
}

/// Whether every proposition `f` references is among `props`.
fn atoms_listed(f: &Formula, props: &[PropositionId]) -> (r: bool)
    ensures
        r == atoms_of(*f).subset_of(props@.to_set()),
    decreases f,
{
    match f {
        Formula::False => {
            assert(atoms_of(*f) =~= Set::<u32>::empty());
            true
        },
        Formula::True => {
            assert(atoms_of(*f) =~= Set::<u32>::empty());
            true
        },
        Formula::Atom(a) => {
            let r = listed(props, *a);
            proof {
                assert(atoms_of(*f) =~= set![*a]);
                if r {
                    assert(props@.to_set().contains(*a));
                } else {
                    assert(!props@.to_set().contains(*a));
                    assert(atoms_of(*f).contains(*a));
                }
                assert(r == atoms_of(*f).subset_of(props@.to_set()));
            }
            r
        },
        Formula::Not(p) | Formula::Future(_, p) | Formula::Globally(_, p) | Formula::Once(_, p)
        | Formula::Historically(_, p) | Formula::StrongPrevious(p) => {
            let r = atoms_listed(p, props);
            assert(atoms_of(*f) == atoms_of(**p));
            r
        },
        Formula::And(p, q) | Formula::Or(p, q) | Formula::Implies(p, q) | Formula::Equivalent(p, q)
        | Formula::Until(_, p, q) | Formula::Release(_, p, q) | Formula::Since(_, p, q)
        | Formula::Triggered(_, p, q) => {
            let a = atoms_listed(p, props);
            let b = atoms_listed(q, props);
            proof {
                assert(atoms_of(*f) == atoms_of(**p) + atoms_of(**q));
                if !a {
                    let x = choose|x: u32| atoms_of(**p).contains(x) && !props@.to_set().contains(x);
                    assert(atoms_of(*f).contains(x));
                }
                if !b {
                    let x = choose|x: u32| atoms_of(**q).contains(x) && !props@.to_set().contains(x);
                    assert(atoms_of(*f).contains(x));
                }
                assert((a && b) == atoms_of(*f).subset_of(props@.to_set()));
            }
            a && b
        },
    }
}

/// Whether the formula and trace documents share the infinite profile and one clock.
pub open spec fn identities_agree(formula: FormulaDocument, trace: TraceDocument) -> bool {
    &&& formula.profile == SemanticProfile::InfiniteTraceV1
    &&& trace.view_profile() == SemanticProfile::InfiniteTraceV1
    &&& formula.clock == trace.view_clock()
}

/// What [`evaluate_documents`] answers: identities checked, the claim and
/// premises lowered, every referenced proposition found among the trace's
/// declared ones, then the lasso of the trace evaluated.
pub open spec fn document_evaluation(
    formula: FormulaDocument,
    trace: TraceDocument,
    claim_root: NodeId,
    roots: Seq<NodeId>,
    position: nat,
    limits: Limits,
) -> Result<Outcome, OracleError> {
    if !identities_agree(formula, trace) {
        Err(OracleError::IdentityMismatch)
    } else {
        match syntax_formula(formula.graph.nodes@, claim_root) {
            Err(e) => Err(e),
            Ok(claim) => match lower_roots(formula.graph.nodes@, roots) {
                Err(e) => Err(e),
                Ok(fs) => if !(atoms_of(claim) + premise_atoms(fs, fs.len())).subset_of(trace.view_propositions().to_set()) {
                    Err(OracleError::ForeignProposition)
                } else {
                    evaluation(claim, fs, trace.view_cells(), trace.entry(), position, limits)
                },
            },
        }
    }
}

/// Evaluates a formula document against a trace document, admitting the pair
/// only with matching profile and clock and with every referenced proposition
/// declared by the trace.
pub fn evaluate_documents(
    formula: &FormulaDocument,
    trace: &TraceDocument,
    claim_root: NodeId,
    fairness_roots: &[NodeId],
    position: usize,
    limits: Limits,
) -> (r: Result<Outcome, OracleError>)
    ensures
        r == document_evaluation(*formula, *trace, claim_root, fairness_roots@, position as nat, limits),
{
    if formula.semantic_profile() != SemanticProfile::InfiniteTraceV1
        || trace.semantic_profile() != SemanticProfile::InfiniteTraceV1
        || formula.clock() != trace.clock()
    {
        return Err(OracleError::IdentityMismatch);
    }
    let graph = formula.formula();
    let claim = match from_syntax(graph, claim_root) {
        Ok(c) => c,
        Err(e) => return Err(e),
    };
    let fairness = match lower_premises(graph, fairness_roots) {
        Ok(v) => v,
        Err(e) => return Err(e),
    };
    let props = trace.propositions();
    let mut admitted = atoms_listed(&claim, props);
    let mut k: usize = 0;
    while k < fairness.len()
        invariant
            k <= fairness@.len(),
            admitted == (atoms_of(claim) + premise_atoms(fairness@, k as nat)).subset_of(props@.to_set()),
        decreases fairness@.len() - k,
    {
        let ok = atoms_listed(&fairness[k], props);
        proof {
            let before = atoms_of(claim) + premise_atoms(fairness@, k as nat);
            let after = atoms_of(claim) + premise_atoms(fairness@, (k + 1) as nat);
            assert(after == before + atoms_of(fairness@[k as int]));
            if !admitted {
                let x = choose|x: u32| before.contains(x) && !props@.to_set().contains(x);
                assert(after.contains(x));
            }
            if !ok {
                let x = choose|x: u32| atoms_of(fairness@[k as int]).contains(x) && !props@.to_set().contains(x);
                assert(after.contains(x));
            }
        }
        admitted = admitted && ok;
        k = k + 1;
    }
    if !admitted {
        return Err(OracleError::ForeignProposition);
    }
    let lasso = Lasso::from(trace);
    crate::lasso::evaluate(&claim, fairness.as_slice(), &lasso, position, limits)
}

/// In a graph whose operands all name its nodes, the lowering of any node
/// of it never meets an absent node; it can still be refused for its
/// nesting, its expansion budget or an interval.
pub proof fn law_closed_graph_has_no_absent_node(graph: Seq<NodeKind>, root: NodeId, depth: nat, budget: nat)
    requires
        closed_graph(graph),
        root < graph.len(),
    ensures
        lower(graph, root, depth, budget).0 != Err::<Formula, OracleError>(OracleError::GraphRootAbsent),
    decreases max_nesting() - depth, 0nat,
{
    if depth < max_nesting() && budget > 0 {
        let k = graph[root as int];
        assert(forall|j: int| 0 <= j < operands(k).len() ==> operands(k)[j] < graph.len());
        lemma_closed_operands_no_absent(graph, operands(k), depth + 1, (budget - 1) as nat);
    }
}

proof fn lemma_closed_operands_no_absent(graph: Seq<NodeKind>, ids: Seq<NodeId>, depth: nat, budget: nat)
    requires
        closed_graph(graph),
        forall|j: int| 0 <= j < ids.len() ==> #[trigger] ids[j] < graph.len(),
    ensures
        lower_all(graph, ids, depth, budget).0 != Err::<Seq<Formula>, OracleError>(OracleError::GraphRootAbsent),
    decreases max_nesting() - depth, ids.len(),
{
    if ids.len() > 0 {
        law_closed_graph_has_no_absent_node(graph, ids[0], depth, budget);
        let (p, b1) = lower(graph, ids[0], depth, budget);
        if p is Ok {
            assert forall|j: int| 0 <= j < ids.drop_first().len() implies #[trigger] ids.drop_first()[j] < graph.len() by {
                assert(ids.drop_first()[j] == ids[j + 1]);
            }
            lemma_closed_operands_no_absent(graph, ids.drop_first(), depth, b1);
        }
    }
}

/// A lowering is refused only for its nesting or budget, or an absent node.
proof fn lemma_lower_refusals(graph: Seq<NodeKind>, root: NodeId, depth: nat, budget: nat)
    ensures
        lower(graph, root, depth, budget).0 is Ok
            || lower(graph, root, depth, budget).0->Err_0 == OracleError::ResourceIncomplete
            || lower(graph, root, depth, budget).0->Err_0 == OracleError::GraphRootAbsent,
    decreases max_nesting() - depth, 0nat,
{
    if depth < max_nesting() && budget > 0 && root < graph.len() {
        lemma_lower_all_refusals(graph, operands(graph[root as int]), depth + 1, (budget - 1) as nat);
    }
}

proof fn lemma_lower_all_refusals(graph: Seq<NodeKind>, ids: Seq<NodeId>, depth: nat, budget: nat)
    ensures
        lower_all(graph, ids, depth, budget).0 is Ok
            || lower_all(graph, ids, depth, budget).0->Err_0 == OracleError::ResourceIncomplete
            || lower_all(graph, ids, depth, budget).0->Err_0 == OracleError::GraphRootAbsent,
    decreases max_nesting() - depth, ids.len(),
{
    if ids.len() > 0 {
        lemma_lower_refusals(graph, ids[0], depth, budget);
        let (p, b1) = lower(graph, ids[0], depth, budget);
        if p is Ok {
            lemma_lower_all_refusals(graph, ids.drop_first(), depth, b1);
        }
    }
}

proof fn lemma_lower_roots_refusals(graph: Seq<NodeKind>, roots: Seq<NodeId>)
    ensures
        lower_roots(graph, roots) is Ok || lower_roots(graph, roots)->Err_0 == OracleError::ResourceIncomplete
            || lower_roots(graph, roots)->Err_0 == OracleError::GraphRootAbsent,
    decreases roots.len(),
{
    if roots.len() > 0 {
        lemma_lower_roots_refusals(graph, roots.drop_last());
        lemma_lower_refusals(graph, roots.last(), 0, expansion_budget());
    }
}

/// A document pair is refused as mismatched exactly when the trace is not an
/// infinite-trace (lasso) document, or the formula is not one, or their
/// clocks differ; each condition alone suffices, and the refusal comes before
/// anything is lowered or evaluated.
pub proof fn law_documents_need_matching_identities(
    formula: FormulaDocument,
    trace: TraceDocument,
    claim_root: NodeId,
    roots: Seq<NodeId>,
    position: nat,
    limits: Limits,
)
    ensures
        trace.view_profile() != SemanticProfile::InfiniteTraceV1
            ==> document_evaluation(formula, trace, claim_root, roots, position, limits) == Err::<Outcome, OracleError>(OracleError::IdentityMismatch),
        formula.profile != SemanticProfile::InfiniteTraceV1
            ==> document_evaluation(formula, trace, claim_root, roots, position, limits) == Err::<Outcome, OracleError>(OracleError::IdentityMismatch),
        formula.clock != trace.view_clock()
            ==> document_evaluation(formula, trace, claim_root, roots, position, limits) == Err::<Outcome, OracleError>(OracleError::IdentityMismatch),
        document_evaluation(formula, trace, claim_root, roots, position, limits) == Err::<Outcome, OracleError>(OracleError::IdentityMismatch)
            ==> (trace.view_profile() != SemanticProfile::InfiniteTraceV1 || formula.profile != SemanticProfile::InfiniteTraceV1
                || formula.clock != trace.view_clock()),
{
    lemma_lower_refusals(formula.graph.nodes@, claim_root, 0, expansion_budget());
    lemma_lower_roots_refusals(formula.graph.nodes@, roots);
    if let Ok(claim) = syntax_formula(formula.graph.nodes@, claim_root) {
        if let Ok(fs) = lower_roots(formula.graph.nodes@, roots) {
            crate::census::law_evaluation_refusals(claim, fs, trace.view_cells(), trace.entry(), position, limits);
        }
    }
}

} // verus!
