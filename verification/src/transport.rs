//! The messages that a run sends.

use vstd::prelude::*;

use crate::exact::bpc::BpcStatus;
use crate::exact::rounds::Bounds;
use crate::model::{PieceType, ProblemSpec, SolutionSpec};
use crate::runner::PendingProgress;
use crate::score::Objective;
use crate::specs::{cut_length, measurable, spec_sheets};

verus! {

/// What is sent.
pub enum ProgressMessage {
    Progress {
        generation: usize,
        sheets_used: usize,
        secondary_objective: u64,
        seed: u64,
        solution: Option<SolutionSpec>,
        pieces: Option<Vec<PieceType>>,
    },
    /// The bounds of the exact solver.
    BpcProgress { iteration: usize, lb: usize, ub: usize },
    Done {
        seed: u64,
        sheets_used: usize,
        cut_lengths: Vec<u64>,
        solution: SolutionSpec,
        pieces: Vec<PieceType>,
        /// Of the exact solver only: whether the solution was proved to be optimal.
        proven_optimal: Option<bool>,
    },
    Error { message: String },
}

fn copy_types(types: &Vec<PieceType>) -> (r: Vec<PieceType>)
    ensures
        r@ == types@,
{
    let mut out: Vec<PieceType> = Vec::new();
    while out.len() < types.len()
        invariant
            out@.len() <= types@.len(),
            out@ == types@.take(out@.len() as int),
        decreases types@.len() - out@.len(),
    {
        out.push(types[out.len()].clone());
        assert(out@ =~= types@.take(out@.len() as int));
    }
    assert(out@ =~= types@);
    out
}

/// A report without a solution.
pub fn figures_message<T>(p: &PendingProgress<T>) -> (r: ProgressMessage)
    ensures
        r == (ProgressMessage::Progress {
            generation: p.generation,
            sheets_used: p.objective.sheets_used,
            secondary_objective: p.objective.layout_score,
            seed: p.seed,
            solution: None,
            pieces: None,
        }),
{
    ProgressMessage::Progress {
        generation: p.generation,
        sheets_used: p.objective.sheets_used_int(),
        secondary_objective: p.objective.secondary(),
        seed: p.seed,
        solution: None,
        pieces: None,
    }
}

/// A report with its solution and the piece types that it speaks of.
pub fn solution_message(
    generation: usize,
    seed: u64,
    objective: &Objective,
    solution: SolutionSpec,
    spec: &ProblemSpec,
) -> (r: ProgressMessage)
    ensures
        match r {
            ProgressMessage::Progress {
                generation: g,
                sheets_used,
                secondary_objective,
                seed: s,
                solution: sol,
                pieces,
            } => {
                &&& g == generation
                &&& sheets_used == objective.sheets_used
                &&& secondary_objective == objective.layout_score
                &&& s == seed
                &&& sol == Some(solution)
                &&& pieces is Some
                &&& pieces->0@ == spec.piece_types@
            },
            _ => false,
        },
{
    ProgressMessage::Progress {
        generation,
        sheets_used: objective.sheets_used_int(),
        secondary_objective: objective.secondary(),
        seed,
        solution: Some(solution),
        pieces: Some(copy_types(&spec.piece_types)),
    }
}

/// A final message: the solution with its piece types and the length of the cuts of each sheet.
pub open spec fn is_done(
    r: ProgressMessage,
    seed: u64,
    sheets: int,
    proven: Option<bool>,
    sol: SolutionSpec,
    spec: ProblemSpec,
) -> bool {
    match r {
        ProgressMessage::Done { seed: s, sheets_used, cut_lengths, solution, pieces, proven_optimal } => {
            &&& s == seed
            &&& sheets_used == sheets
            &&& cut_lengths@.len() == spec_sheets(sol.placements@)
            &&& forall|k: int|
                0 <= k < cut_lengths@.len() ==> #[trigger] cut_lengths@[k] == cut_length(
                    spec,
                    sol,
                    k,
                )
            &&& solution == sol
            &&& pieces@ == spec.piece_types@
            &&& proven_optimal == proven
        },
        _ => false,
    }
}

/// The message at the end of a run: the result of a seed.
pub fn done_message(seed: u64, objective: &Objective, solution: SolutionSpec, spec: &ProblemSpec) -> (r:
    ProgressMessage)
    requires
        measurable(*spec, solution),
    ensures
        is_done(r, seed, objective.sheets_used as int, None, solution, *spec),
{
    let cut_lengths = solution.cut_lengths(spec);
    ProgressMessage::Done {
        seed,
        sheets_used: objective.sheets_used_int(),
        cut_lengths,
        solution,
        pieces: copy_types(&spec.piece_types),
        proven_optimal: None,
    }
}

/// The bounds of the exact solver.
pub fn bounds_message(b: &Bounds) -> (r: ProgressMessage)
    ensures
        r == (ProgressMessage::BpcProgress { iteration: b.iteration, lb: b.lb, ub: b.ub }),
{
    ProgressMessage::BpcProgress { iteration: b.iteration, lb: b.lb, ub: b.ub }
}

/// The message at the end of the exact solver.
pub fn status_message(status: &BpcStatus, solution: SolutionSpec, spec: &ProblemSpec) -> (r:
    ProgressMessage)
    requires
        measurable(*spec, solution),
    ensures
        is_done(
            r,
            0,
            match *status {
                BpcStatus::Optimal { sheets } => sheets as int,
                BpcStatus::Gap { lb, ub } => ub as int,
                BpcStatus::Stopped { lb, ub } => ub as int,
            },
            Some(*status is Optimal),
            solution,
            *spec,
        ),
{
    let cut_lengths = solution.cut_lengths(spec);
    ProgressMessage::Done {
        seed: 0,
        sheets_used: status.sheets_used(),
        cut_lengths,
        solution,
        pieces: copy_types(&spec.piece_types),
        proven_optimal: Some(status.is_proven()),
    }
}

/// Keeps the final solution and nothing else.
pub struct CapturingSink {
    pub solution: Option<SolutionSpec>,
}

impl Default for CapturingSink {
    fn default() -> (r: Self)
        ensures
            r.solution is None,
    {
        CapturingSink { solution: None }
    }
}

impl CapturingSink {
    /// Takes a message.
    pub fn send(&mut self, msg: &ProgressMessage)
        ensures
            match *msg {
                ProgressMessage::Done {
                    seed: _,
                    sheets_used: _,
                    cut_lengths: _,
                    solution,
                    pieces: _,
                    proven_optimal: _,
                } => {
                    &&& final(self).solution is Some
                    &&& final(self).solution->0.placements@ == solution.placements@
                    &&& final(self).solution->0.leftovers@ == solution.leftovers@
                },
                _ => final(self).solution == old(self).solution,
            },
    {
        match msg {
            ProgressMessage::Done {
                seed: _,
                sheets_used: _,
                cut_lengths: _,
                solution,
                pieces: _,
                proven_optimal: _,
            } => {
                self.solution = Some(solution.clone());
            },
            _ => {},
        }
    }
}

} // verus!
