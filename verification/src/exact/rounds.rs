//! Rounds of column generation at a node: when to go on, to report and to end.

use vstd::prelude::*;

use super::assembly::{as_problem, chosen_of, valid_pattern};
use super::bpc::{node_ok, pattern_ok, BpcNode, BpcStatus, Pattern, Tree};
use super::candidates::lemma_none_picked;
use super::pricing::{is_column, PriceOutcome, Pricer};
use crate::model::Problem;

verus! {

/// How column generation at a node ended.
#[derive(Debug, Clone, Copy, PartialEq, Eq, Structural)]
pub enum CgOutcome {
    /// No pattern improves: the value of the linear program is a bound.
    Converged,
    /// A budget ran out: the value cannot be trusted.
    Aborted,
    /// The search was asked to stop.
    StopRequested,
    /// Nobody listens any more.
    Disconnected,
}

/// What comes after a round.
#[derive(Debug, Clone, Copy, PartialEq, Eq, Structural)]
pub enum CgStep {
    /// Another round.
    Go,
    /// Report, then another round.
    Report,
    /// The end.
    End(CgOutcome),
}

/// The rounds so far.
#[derive(Debug, Clone, Copy, PartialEq, Eq, Structural)]
pub struct Rounds {
    /// Patterns found over the whole tree.
    pub iteration: usize,
    /// Patterns found at this node.
    pub local: usize,
    /// Patterns that may be found at a node.
    pub max_iterations: usize,
    /// Number of patterns, over the whole tree, from one report to the next; 0 for no reports.
    pub progress_interval: usize,
}

/// How many patterns may be found at a node for `n` pieces.
pub open spec fn round_limit(n: int) -> int {
    20 * (if n < 1 {
        1
    } else {
        n
    }) + 1_000
}

impl Rounds {
    /// Before the first round of a search on `n` pieces.
    pub fn new(n: usize, progress_interval: usize) -> (r: Rounds)
        requires
            round_limit(n as int) <= usize::MAX,
        ensures
            r == (Rounds {
                iteration: 0,
                local: 0,
                max_iterations: round_limit(n as int) as usize,
                progress_interval,
            }),
    {
        let m: usize = if n < 1 {
            1
        } else {
            n
        };
        Rounds { iteration: 0, local: 0, max_iterations: 20 * m + 1_000, progress_interval }
    }

    /// Goes to another node.
    pub fn at_next_node(self) -> (r: Rounds)
        ensures
            r == (Rounds { local: 0, ..self }),
    {
        Rounds { local: 0, ..self }
    }

    /// Whether another round may begin.
    pub fn before_round(&self, stopped: bool) -> (r: CgStep)
        ensures
            r == (if stopped {
                CgStep::End(CgOutcome::StopRequested)
            } else if self.local >= self.max_iterations {
                CgStep::End(CgOutcome::Aborted)
            } else {
                CgStep::Go
            }),
    {
        if stopped {
            CgStep::End(CgOutcome::StopRequested)
        } else if self.local >= self.max_iterations {
            CgStep::End(CgOutcome::Aborted)
        } else {
            CgStep::Go
        }
    }

    /// Takes what pricing came to.
    pub fn after_round(&mut self, outcome: &PriceOutcome) -> (r: CgStep)
        requires
            old(self).iteration < usize::MAX,
            old(self).local < old(self).max_iterations,
        ensures
            match *outcome {
                PriceOutcome::Column(_) => {
                    let n = old(self).iteration + 1;
                    &&& *final(self) == (Rounds {
                        iteration: n as usize,
                        local: (old(self).local + 1) as usize,
                        ..*old(self)
                    })
                    &&& r == (if old(self).progress_interval > 0 && n
                        % old(self).progress_interval as int == 0 {
                        CgStep::Report
                    } else {
                        CgStep::Go
                    })
                },
                PriceOutcome::NoneExists => *final(self) == *old(self) && r == CgStep::End(
                    CgOutcome::Converged,
                ),
                PriceOutcome::Aborted => *final(self) == *old(self) && r == CgStep::End(
                    CgOutcome::Aborted,
                ),
            },
    {
        match outcome {
            PriceOutcome::Column(_) => {
                self.iteration = self.iteration + 1;
                self.local = self.local + 1;
                if self.progress_interval > 0 && self.iteration % self.progress_interval == 0 {
                    CgStep::Report
                } else {
                    CgStep::Go
                }
            },
            PriceOutcome::NoneExists => CgStep::End(CgOutcome::Converged),
            PriceOutcome::Aborted => CgStep::End(CgOutcome::Aborted),
        }
    }
}

impl BpcStatus {
    /// The number of sheets of the solution.
    pub fn sheets_used(&self) -> (r: usize)
        ensures
            r == (match *self {
                BpcStatus::Optimal { sheets } => sheets,
                BpcStatus::Gap { lb, ub } => ub,
                BpcStatus::Stopped { lb, ub } => ub,
            }),
    {
        match self {
            BpcStatus::Optimal { sheets } => *sheets,
            BpcStatus::Gap { lb: _, ub } => *ub,
            BpcStatus::Stopped { lb: _, ub } => *ub,
        }
    }

    /// Whether the solution was proved to be optimal.
    pub fn is_proven(&self) -> (r: bool)
        ensures
            r == (*self is Optimal),
    {
        match self {
            BpcStatus::Optimal { sheets: _ } => true,
            _ => false,
        }
    }
}

/// A report of the bounds.
#[derive(Debug, Clone, Copy, PartialEq, Eq, Structural)]
pub struct Bounds {
    pub iteration: usize,
    pub lb: usize,
    pub ub: usize,
}

/// The reports of a search on their way to a sink: the latest one waits.
pub struct BoundsDrain {
    pub sink_interval_ms: u64,
    pub pending: Option<Bounds>,
}

impl BoundsDrain {
    /// No report waits.
    pub fn new(sink_interval_ms: u64) -> (r: BoundsDrain)
        ensures
            r.sink_interval_ms == sink_interval_ms,
            r.pending is None,
    {
        BoundsDrain { sink_interval_ms, pending: None }
    }

    /// Takes a report; `due` says whether the interval has passed. Gives what is to be sent.
    pub fn progress(&mut self, new: Bounds, due: bool) -> (r: Option<Bounds>)
        ensures
            final(self).sink_interval_ms == old(self).sink_interval_ms,
            old(self).sink_interval_ms == 0 || due ==> r == Some(new) && final(self).pending is None,
            !(old(self).sink_interval_ms == 0 || due) ==> r is None && final(self).pending == Some(
                new,
            ),
    {
        if self.sink_interval_ms == 0 || due {
            self.pending = None;
            Some(new)
        } else {
            self.pending = Some(new);
            None
        }
    }

    /// The report that still waits at the end.
    pub fn flush(&mut self) -> (r: Option<Bounds>)
        ensures
            r == old(self).pending,
            final(self).pending is None,
            final(self).sink_interval_ms == old(self).sink_interval_ms,
    {
        self.pending.take()
    }
}

/// How a search begins.
#[derive(Debug, Clone, Copy, PartialEq, Eq, Structural)]
pub enum Opening {
    /// There is nothing to search for.
    Proven(BpcStatus),
    /// Report these bounds and begin.
    Begin(Bounds),
}

impl Tree {
    /// How the search begins: the first solution is optimal where it needs no more sheets than
    /// the bound by area.
    pub fn opening(&self) -> (r: Opening)
        ensures
            r == (if self.lb0 >= self.global_ub {
                Opening::Proven(BpcStatus::Optimal { sheets: self.global_ub })
            } else {
                Opening::Begin(Bounds { iteration: 0, lb: self.lb0, ub: self.global_ub })
            }),
    {
        if self.is_closed() {
            Opening::Proven(BpcStatus::Optimal { sheets: self.global_ub })
        } else {
            Opening::Begin(Bounds { iteration: 0, lb: self.lb0, ub: self.global_ub })
        }
    }
}

impl BpcNode {
    /// Takes a pattern into the pool.
    pub fn add_pattern(&mut self, p: Pattern)
        ensures
            final(self).patterns@ == old(self).patterns@.push(p),
            final(self).constraints == old(self).constraints,
            final(self).pending_lb == old(self).pending_lb,
    {
        self.patterns.push(p);
    }
}

/// What pricing finds can be taken into the pool: the node stays in order.
pub proof fn law_column_keeps_node_in_order(
    problem: Problem,
    pr: Pricer,
    mu: Seq<u64>,
    node: BpcNode,
    p: Pattern,
    next: BpcNode,
)
    requires
        pr.pieces@ == problem.pieces@,
        pr.sheet_w == problem.sheet.width,
        pr.sheet_h == problem.sheet.height,
        node_ok(problem, pr, node),
        mu.len() == pr.pieces@.len(),
        is_column(pr, mu, node.constraints, p),
        next.patterns@ == node.patterns@.push(p),
        next.constraints == node.constraints,
    ensures
        node_ok(problem, pr, next),
{
    assert(as_problem(pr).sheet == problem.sheet);
    assert(valid_pattern(pr, p));
    if p.items@.len() == 0 {
        let chosen = chosen_of(p.items@, pr.pieces@.len());
        lemma_none_picked(Seq::new(mu.len(), |i: int| mu[i] as int), chosen, mu.len());
    }
    assert forall|i: int|
        0 <= i < p.placements@.len() && (#[trigger] p.placements@[i]).rotated implies
        problem.pieces@[p.placements@[i].piece_idx as int].can_rotate by {
        assert(p.placements@[i].piece_idx == p.items@[i]);
    }
    assert(pattern_ok(problem, p));
}

} // verus!
