//! From a problem and a choice of algorithm to solutions, and which of them to report.

use vstd::prelude::*;

use crate::expand::{
    copies, expand_problem, grown, grown_sheet, is_expansion, lemma_expansion,
    lemma_layout_shrinkable, shrink_solution, shrunk_as, workable,
};
use crate::ga::{Decodable, GaConfig, GaDecoder};
use crate::glas::decoder::{all_genes, genome_view, lemma_expansion_copies};
use crate::glas::ga::{classed, lemma_classed_genes, GlasDecoder};
use crate::heuristic::bfdh::{bfdh_solve, bfdh_state};
use crate::heuristic::gbaf::all_fit;
use crate::heuristic::jylanki::{
    best_pass, extended, jylanki_result, jylanki_solve, law_every_combination_is_tried,
    law_portfolio_is_best, strategy, Strategy, STRATEGIES,
};
use crate::heuristic::shelf::{all_stand, by_height, stand_h, stand_w, standing};
use crate::islands::{colony_evolved, colony_results, law_results_are_ranked};
use crate::model::{
    sheet_cell, FreeRect, PieceType, Placement, Problem, ProblemSpec, Sheet, SolutionSpec,
};
use crate::offcuts::{gradable, objective_of, scorable};
use crate::score::Objective;
use crate::slas::decoder::{decodable, decoded, fit, fits_sheet};
use crate::slas::ga::{permutation, SlasDecoder};

verus! {

/// The genetic algorithms.
#[derive(Debug, Clone, Copy, PartialEq, Eq, Structural)]
pub enum GaKind {
    Slas,
    Glas,
}

/// The heuristics.
#[derive(Debug, Clone, Copy, PartialEq, Eq, Structural)]
pub enum HeuristicKind {
    Bfdh,
    Jylanki,
}

/// An algorithm with the parameters it needs to run.
pub enum AlgConfig {
    Ga { kind: GaKind, cfg: GaConfig, seeds: Vec<u64>, progress_interval: usize },
    Heuristic { kind: HeuristicKind },
}

/// What a heuristic places.
pub open spec fn heuristic_placements(kind: HeuristicKind, p: Problem) -> Seq<Placement> {
    match kind {
        HeuristicKind::Bfdh => bfdh_state(p, by_height(p), p.pieces@.len()).placements,
        HeuristicKind::Jylanki => jylanki_result(
            p,
            strategy(best_pass(p, STRATEGIES as nat)),
        ).placements,
    }
}

/// What a heuristic leaves over.
pub open spec fn heuristic_leftovers(kind: HeuristicKind, p: Problem) -> Seq<FreeRect> {
    match kind {
        HeuristicKind::Bfdh => Seq::empty(),
        HeuristicKind::Jylanki => jylanki_result(
            p,
            strategy(best_pass(p, STRATEGIES as nat)),
        ).free,
    }
}

/// A heuristic can be run on a flat problem, and its result be scored and turned back.
pub open spec fn heuristic_ready(kind: HeuristicKind, spec: ProblemSpec, p: Problem) -> bool {
    &&& p.pieces@.len() < usize::MAX
    &&& match kind {
        HeuristicKind::Bfdh => {
            let list = heuristic_placements(kind, p);
            &&& gradable(p, list)
            &&& forall|i: int|
                0 <= i < list.len() ==> (#[trigger] list[i]).x + spec.margin <= u32::MAX
                    && list[i].y + spec.margin <= u32::MAX
        },
        HeuristicKind::Jylanki => {
            &&& all_fit(p)
            &&& extended(p)
            &&& scorable(p.sheet, p.pieces@.len())
        },
    }
}

/// Runs a heuristic: the objective and the solution in terms of piece types.
pub fn run_heuristic(spec: &ProblemSpec, kind: HeuristicKind) -> (r: (Objective, SolutionSpec))
    requires
        workable(*spec),
        forall|p: Problem| #[trigger] is_expansion(*spec, p) ==> heuristic_ready(kind, *spec, p),
    ensures
        exists|p: Problem| #[trigger]
            is_expansion(*spec, p) && r.0 == objective_of(p, heuristic_placements(kind, p))
                && shrunk_as(*spec, r.1, heuristic_placements(kind, p), heuristic_leftovers(kind, p)),
{
    let problem = expand_problem(spec);
    assert(heuristic_ready(kind, *spec, problem));
    let sol = match kind {
        HeuristicKind::Bfdh => bfdh_solve(&problem),
        HeuristicKind::Jylanki => jylanki_solve(&problem),
    };
    let objective = sol.eval(&problem);
    proof {
        assert(spec.piece_types@.len() == spec.piece_types.len());
        lemma_expansion(*spec, problem);
        assert(sol.leftovers@ =~= heuristic_leftovers(kind, problem));
        assert(sol.placements@ == heuristic_placements(kind, problem));
        if kind == HeuristicKind::Jylanki {
            lemma_layout_shrinkable(*spec, problem, sol);
        }
    }
    let r = shrink_solution(&sol, spec);
    assert(shrunk_as(
        *spec,
        r,
        heuristic_placements(kind, problem),
        heuristic_leftovers(kind, problem),
    ));
    assert(is_expansion(*spec, problem));
    (objective, r)
}

/// The results of an algorithm on a problem with a given flat form: seed, objective and
/// solution, from the best on. A heuristic has one result, with seed 0.
pub open spec fn results_of(
    spec: ProblemSpec,
    p: Problem,
    alg: AlgConfig,
    r: Seq<(u64, Objective, SolutionSpec)>,
) -> bool {
    match alg {
        AlgConfig::Heuristic { kind } => {
            &&& r.len() == 1
            &&& r[0].0 == 0
            &&& r[0].1 == objective_of(p, heuristic_placements(kind, p))
            &&& shrunk_as(
                spec,
                r[0].2,
                heuristic_placements(kind, p),
                heuristic_leftovers(kind, p),
            )
        },
        AlgConfig::Ga { kind: GaKind::Slas, cfg, seeds, progress_interval } => {
            &&& r.len() == seeds@.len()
            &&& forall|i: int|
                0 <= i < r.len() ==> slas_result(
                    spec,
                    p,
                    cfg,
                    seeds@,
                    progress_interval as int,
                    i,
                    #[trigger] r[i],
                )
        },
        AlgConfig::Ga { kind: GaKind::Glas, cfg, seeds, progress_interval } => {
            &&& r.len() == seeds@.len()
            &&& forall|i: int|
                0 <= i < r.len() ==> glas_result(
                    spec,
                    p,
                    cfg,
                    seeds@,
                    progress_interval as int,
                    i,
                    #[trigger] r[i],
                )
        },
    }
}

/// Result number `i` of the islands with one gene per piece.
pub open spec fn slas_result(
    spec: ProblemSpec,
    p: Problem,
    cfg: GaConfig,
    seeds: Seq<u64>,
    interval: int,
    i: int,
    r: (u64, Objective, SolutionSpec),
) -> bool {
    let d = SlasDecoder { problem: &p };
    let c = colony_evolved(d, cfg, seeds, interval, cfg.iteration_count as nat);
    let (seed, m) = colony_results(d, seeds, c, i);
    let st = decoded(p, m, m.len());
    &&& r.0 == seed
    &&& r.1 == d.objective(m)
    &&& shrunk_as(spec, r.2, st.placements, st.free)
}

/// Result number `i` of the islands with one gene per piece type.
pub open spec fn glas_result(
    spec: ProblemSpec,
    p: Problem,
    cfg: GaConfig,
    seeds: Seq<u64>,
    interval: int,
    i: int,
    r: (u64, Objective, SolutionSpec),
) -> bool {
    let d = GlasDecoder { spec: &spec, problem: &p };
    let c = colony_evolved(d, cfg, seeds, interval, cfg.iteration_count as nat);
    let (seed, m) = colony_results(d, seeds, c, i);
    let genes = all_genes(m, m.len());
    let pack = crate::glas::decoder::decoded(p, spec.piece_types@, genes, genes.len()).pack;
    &&& r.0 == seed
    &&& r.1 == d.objective(m)
    &&& shrunk_as(spec, r.2, pack.placements, pack.free)
}

/// An algorithm can be run on a flat problem.
pub open spec fn ready_for(spec: ProblemSpec, p: Problem, alg: AlgConfig) -> bool {
    match alg {
        AlgConfig::Heuristic { kind } => heuristic_ready(kind, spec, p),
        AlgConfig::Ga { kind: GaKind::Slas, cfg, .. } => cfg.runnable()
            && crate::slas::ga::playable(p),
        AlgConfig::Ga { kind: GaKind::Glas, cfg, .. } => cfg.runnable()
            && crate::glas::ga::playable(spec, p),
    }
}

fn run_slas(
    spec: &ProblemSpec,
    problem: &Problem,
    cfg: &GaConfig,
    seeds: &Vec<u64>,
    interval: usize,
) -> (r: Vec<(u64, Objective, SolutionSpec)>)
    requires
        workable(*spec),
        is_expansion(*spec, *problem),
        cfg.runnable(),
        crate::slas::ga::playable(*problem),
    ensures
        r@.len() == seeds@.len(),
        forall|i: int|
            0 <= i < r@.len() ==> slas_result(
                *spec,
                *problem,
                *cfg,
                seeds@,
                interval as int,
                i,
                #[trigger] r@[i],
            ),
{
    let decoder = SlasDecoder { problem };
    let pairs = crate::islands::run_ga_mt(&decoder, cfg, seeds, interval);
    let mut out: Vec<(u64, Objective, SolutionSpec)> = Vec::new();
    while out.len() < pairs.len()
        invariant
            decoder == (SlasDecoder { problem }),
            workable(*spec),
            is_expansion(*spec, *problem),
            crate::slas::ga::playable(*problem),
            out@.len() <= pairs@.len(),
            pairs@.len() == seeds@.len(),
            forall|i: int|
                0 <= i < pairs@.len() ==> {
                    &&& ((#[trigger] pairs@[i]).0, pairs@[i].1.genome@) == colony_results(
                        decoder,
                        seeds@,
                        colony_evolved(
                            decoder,
                            *cfg,
                            seeds@,
                            interval as int,
                            cfg.iteration_count as nat,
                        ),
                        i,
                    )
                    &&& decoder.valid(*cfg, pairs@[i].1.genome@)
                    &&& pairs@[i].1.objective == decoder.objective(pairs@[i].1.genome@)
                },
            forall|i: int|
                0 <= i < out@.len() ==> slas_result(
                    *spec,
                    *problem,
                    *cfg,
                    seeds@,
                    interval as int,
                    i,
                    #[trigger] out@[i],
                ),
        decreases pairs@.len() - out@.len(),
    {
        let k: usize = out.len();
        let genome = &pairs[k].1.genome;
        assert(permutation(genome@, problem.pieces@.len()));
        assert forall|i: int| 0 <= i < genome@.len() implies (#[trigger] genome@[i]).piece_idx
            < problem.pieces.len() && fits_sheet(*problem, genome@[i].piece_idx as int) by {}
        let sol = crate::slas::decoder::decode(problem, genome);
        proof {
            assert(spec.piece_types@.len() == spec.piece_types.len());
            lemma_layout_shrinkable(*spec, *problem, sol);
        }
        let shrunk = shrink_solution(&sol, spec);
        out.push((pairs[k].0, pairs[k].1.objective, shrunk));
    }
    out
}

fn run_glas(
    spec: &ProblemSpec,
    problem: &Problem,
    cfg: &GaConfig,
    seeds: &Vec<u64>,
    interval: usize,
) -> (r: Vec<(u64, Objective, SolutionSpec)>)
    requires
        workable(*spec),
        is_expansion(*spec, *problem),
        cfg.runnable(),
        crate::glas::ga::playable(*spec, *problem),
    ensures
        r@.len() == seeds@.len(),
        forall|i: int|
            0 <= i < r@.len() ==> glas_result(
                *spec,
                *problem,
                *cfg,
                seeds@,
                interval as int,
                i,
                #[trigger] r@[i],
            ),
{
    let decoder = GlasDecoder { spec, problem };
    let pairs = crate::islands::run_ga_mt(&decoder, cfg, seeds, interval);
    let mut out: Vec<(u64, Objective, SolutionSpec)> = Vec::new();
    while out.len() < pairs.len()
        invariant
            decoder == (GlasDecoder { spec, problem }),
            workable(*spec),
            is_expansion(*spec, *problem),
            crate::glas::ga::playable(*spec, *problem),
            out@.len() <= pairs@.len(),
            pairs@.len() == seeds@.len(),
            forall|i: int|
                0 <= i < pairs@.len() ==> {
                    &&& ((#[trigger] pairs@[i]).0, genome_view(pairs@[i].1.genome))
                        == colony_results(
                        decoder,
                        seeds@,
                        colony_evolved(
                            decoder,
                            *cfg,
                            seeds@,
                            interval as int,
                            cfg.iteration_count as nat,
                        ),
                        i,
                    )
                    &&& decoder.valid(*cfg, genome_view(pairs@[i].1.genome))
                    &&& pairs@[i].1.objective == decoder.objective(
                        genome_view(pairs@[i].1.genome),
                    )
                },
            forall|i: int|
                0 <= i < out@.len() ==> glas_result(
                    *spec,
                    *problem,
                    *cfg,
                    seeds@,
                    interval as int,
                    i,
                    #[trigger] out@[i],
                ),
        decreases pairs@.len() - out@.len(),
    {
        let k: usize = out.len();
        let genome = &pairs[k].1.genome;
        proof {
            let m = genome_view(*genome);
            assert(genome_view(pairs@[k as int].1.genome) == m);
            decoder.valid_is_usable(*cfg, m, m);
        }
        let sol = crate::glas::decoder::decode(problem, spec, genome);
        proof {
            lemma_layout_shrinkable(*spec, *problem, sol);
        }
        let shrunk = shrink_solution(&sol, spec);
        out.push((pairs[k].0, pairs[k].1.objective, shrunk));
    }
    out
}

/// Runs an algorithm to its end. Islands exchange at every report.
pub fn run_algorithm(spec: &ProblemSpec, alg_cfg: &AlgConfig) -> (r: Vec<
    (u64, Objective, SolutionSpec),
>)
    requires
        workable(*spec),
        forall|p: Problem| #[trigger] is_expansion(*spec, p) ==> ready_for(*spec, p, *alg_cfg),
    ensures
        exists|p: Problem| #[trigger]
            is_expansion(*spec, p) && results_of(*spec, p, *alg_cfg, r@),
{
    match alg_cfg {
        AlgConfig::Ga { kind, cfg, seeds, progress_interval } => {
            let problem = expand_problem(spec);
            assert(ready_for(*spec, problem, *alg_cfg));
            let r = match kind {
                GaKind::Slas => run_slas(spec, &problem, cfg, seeds, *progress_interval),
                GaKind::Glas => run_glas(spec, &problem, cfg, seeds, *progress_interval),
            };
            assert(is_expansion(*spec, problem) && results_of(*spec, problem, *alg_cfg, r@));
            r
        },
        AlgConfig::Heuristic { kind } => {
            assert forall|p: Problem| #[trigger] is_expansion(*spec, p) implies heuristic_ready(
                *kind,
                *spec,
                p,
            ) by {
                assert(ready_for(*spec, p, *alg_cfg));
            }
            let (objective, sol) = run_heuristic(spec, *kind);
            let mut r: Vec<(u64, Objective, SolutionSpec)> = Vec::new();
            r.push((0, objective, sol));
            proof {
                let p = choose|p: Problem| #[trigger]
                    is_expansion(*spec, p) && objective == objective_of(
                        p,
                        heuristic_placements(*kind, p),
                    ) && shrunk_as(
                        *spec,
                        sol,
                        heuristic_placements(*kind, p),
                        heuristic_leftovers(*kind, p),
                    );
                assert(is_expansion(*spec, p) && results_of(*spec, p, *alg_cfg, r@));
            }
            r
        },
    }
}

/// A problem on which the genetic algorithms and the portfolio of heuristics can be run: the
/// margin leaves room, pieces have sides and fit on a sheet, and every layout can be scored.
pub open spec fn solvable(spec: ProblemSpec) -> bool {
    &&& workable(spec)
    &&& scorable(grown_sheet(spec), copies(spec.piece_types@, spec.piece_types@.len()))
    &&& forall|t: int|
        0 <= t < spec.piece_types@.len() && (#[trigger] spec.piece_types@[t]).count > 0
            ==> sits(spec, spec.piece_types@[t])
}

/// A piece type that has sides and fits on a sheet, the width of the saw cut added to both.
pub open spec fn sits(spec: ProblemSpec, t: PieceType) -> bool {
    &&& grown(t, spec.kerf).solid()
    &&& fit(sheet_cell(grown_sheet(spec), 0), grown(t, spec.kerf), false) is Some
}

/// What can be run on a solvable problem.
pub proof fn law_solvable_is_ready(spec: ProblemSpec, p: Problem)
    requires
        solvable(spec),
        is_expansion(spec, p),
        spec.piece_types@.len() <= usize::MAX,
    ensures
        crate::slas::ga::playable(p),
        crate::glas::ga::playable(spec, p),
        heuristic_ready(HeuristicKind::Jylanki, spec, p),
{
    lemma_expansion(spec, p);
    lemma_expansion_copies(spec, p);
    let types = spec.piece_types@;
    assert forall|i: int| 0 <= i < p.pieces@.len() implies #[trigger] p.pieces@[i].solid()
        && fits_sheet(p, i) by {
        crate::expand::lemma_type_indices(types, types.len());
        let t = crate::expand::type_indices(types, types.len())[i] as int;
        assert(p.pieces@[i] == grown(types[t], spec.kerf));
        assert(copies(types, (t + 1) as nat) == copies(types, t as nat) + types[t].count);
        assert(sits(spec, types[t]));
    }
    assert forall|i: int| 0 <= i < p.pieces@.len() implies #[trigger] fits_sheet(p, i) by {
        assert(p.pieces@[i].solid());
    }
}

/// Every piece stands up on a sheet and layouts can be scored: shelves can be filled.
pub proof fn law_standing_is_ready(spec: ProblemSpec, p: Problem)
    requires
        workable(spec),
        is_expansion(spec, p),
        all_stand(p),
        scorable(p.sheet, p.pieces@.len()),
        p.pieces@.len() < usize::MAX,
        spec.piece_types@.len() <= usize::MAX,
    ensures
        heuristic_ready(HeuristicKind::Bfdh, spec, p),
{
    crate::heuristic::bfdh::lemma_bfdh_result(p);
    let list = heuristic_placements(HeuristicKind::Bfdh, p);
    let n = choose|n: nat| #[trigger]
        crate::packing::sliced_sheets(p, list, Seq::empty(), n);
    let c = crate::model::cells(p.pieces@, list);
    let used = crate::packing::all_cells(p.pieces@, list, Seq::empty());
    c.to_multiset_ensures();
    assert forall|i: int| 0 <= i < list.len() implies (#[trigger] list[i]).x + spec.margin
        <= u32::MAX && list[i].y + spec.margin <= u32::MAX by {
        assert(c[i] == list[i].cell(p.pieces@));
        assert(c.contains(c[i]));
        crate::layout::lemma_packed_within(p.sheet, n, used, c[i]);
    }
}

/// The number of copies, if it is at most `limit`.
fn copies_within(types: &Vec<PieceType>, limit: u64) -> (r: Option<u64>)
    ensures
        match r {
            Some(n) => n == copies(types@, types@.len()) && n <= limit,
            None => copies(types@, types@.len()) > limit,
        },
{
    let mut n: u64 = 0;
    let mut t: usize = 0;
    while t < types.len()
        invariant
            t <= types@.len(),
            n == copies(types@, t as nat),
            n <= limit,
        decreases types@.len() - t,
    {
        let c: u64 = types[t].count as u64;
        if c > limit - n {
            proof {
                crate::expand::lemma_copies_grow(types@, (t + 1) as nat, types@.len());
            }
            return None;
        }
        n = n + c;
        t += 1;
    }
    Some(n)
}

/// Whether every layout of `n` pieces on a sheet can be scored.
pub fn is_scorable(sheet: &Sheet, n: u64) -> (r: bool)
    requires
        n <= usize::MAX,
    ensures
        r == scorable(*sheet, n as nat),
{
    let (w, h) = (sheet.width as u128, sheet.height as u128);
    proof {
        let (a, b) = (sheet.width as int, sheet.height as int);
        assert(0 <= a * a <= 0xffff_ffff * 0xffff_ffff) by (nonlinear_arith)
            requires
                0 <= a <= 0xffff_ffff,
        ;
        assert(0 <= b * b <= 0xffff_ffff * 0xffff_ffff) by (nonlinear_arith)
            requires
                0 <= b <= 0xffff_ffff,
        ;
        assert(0 <= a * b <= 0xffff_ffff * 0xffff_ffff) by (nonlinear_arith)
            requires
                0 <= a <= 0xffff_ffff,
                0 <= b <= 0xffff_ffff,
        ;
    }
    if w * h > 0xffff_ffff {
        return false;
    }
    let s: u128 = w * w + h * h;
    let twice: u128 = 2 * (n as u128);
    match twice.checked_mul(s) {
        Some(v) => v <= 0xffff_ffff_ffff_ffff - 5_000 && twice <= usize::MAX as u128,
        None => false,
    }
}

/// Whether the algorithms can be run on a problem.
pub fn is_solvable(spec: &ProblemSpec) -> (r: bool)
    ensures
        r == solvable(*spec),
{
    let (k, m) = (spec.kerf as u64, spec.margin as u64);
    let top: u64 = 0xffff_ffff;
    if !(2 * m < spec.sheet.width as u64 && 2 * m < spec.sheet.height as u64) {
        return false;
    }
    if spec.sheet.width as u64 + k > top || spec.sheet.height as u64 + k > top {
        return false;
    }
    let sheet = Sheet {
        width: (spec.sheet.width as u64 - 2 * m + k) as u32,
        height: (spec.sheet.height as u64 - 2 * m + k) as u32,
    };
    assert(sheet == grown_sheet(*spec));
    let n: u64 = match copies_within(&spec.piece_types, (usize::MAX / 2) as u64) {
        Some(n) => n,
        None => {
            return false;
        },
    };
    if !is_scorable(&sheet, n) {
        return false;
    }
    let mut t: usize = 0;
    while t < spec.piece_types.len()
        invariant
            t <= spec.piece_types@.len(),
            k == spec.kerf,
            top == 0xffff_ffff,
            sheet == grown_sheet(*spec),
            forall|i: int|
                0 <= i < t ==> (#[trigger] spec.piece_types@[i]).width + k <= top
                    && spec.piece_types@[i].height + k <= top,
            forall|i: int|
                0 <= i < t && (#[trigger] spec.piece_types@[i]).count > 0 ==> sits(
                    *spec,
                    spec.piece_types@[i],
                ),
        decreases spec.piece_types@.len() - t,
    {
        let p = &spec.piece_types[t];
        assert(*p == spec.piece_types@[t as int]);
        if p.width as u64 + k > top || p.height as u64 + k > top {
            return false;
        }
        let (w, h) = (p.width + spec.kerf, p.height + spec.kerf);
        let fits = (w <= sheet.width && h <= sheet.height) || (p.can_rotate && h <= sheet.width
            && w <= sheet.height);
        assert(fits == (fit(sheet_cell(sheet, 0), grown(*p, spec.kerf), false) is Some));
        if p.count > 0 && (w == 0 || h == 0 || !fits) {
            assert(!sits(*spec, spec.piece_types@[t as int]));
            return false;
        }
        t += 1;
    }
    true
}

/// Whether every piece stands up on a sheet.
pub fn is_standing(problem: &Problem) -> (r: bool)
    ensures
        r == all_stand(*problem),
{
    let mut i: usize = 0;
    while i < problem.pieces.len()
        invariant
            i <= problem.pieces@.len(),
            forall|j: int|
                0 <= j < i ==> stand_w(#[trigger] problem.pieces[j]) <= problem.sheet.width
                    && stand_h(problem.pieces[j]) <= problem.sheet.height,
        decreases problem.pieces@.len() - i,
    {
        let (w, h, _) = standing(&problem.pieces[i]);
        if w > problem.sheet.width || h > problem.sheet.height {
            return false;
        }
        i += 1;
    }
    true
}

/// A report that was not sent yet, with what its solution can be had from.
pub struct PendingProgress<T> {
    pub seed: u64,
    pub generation: usize,
    pub objective: Objective,
    pub lazy: T,
}

/// What is done with a report.
pub enum Report<T> {
    /// Send the figures, without a solution.
    Figures(PendingProgress<T>),
    /// Send it with its solution.
    Solution(PendingProgress<T>),
    /// Send nothing now.
    Nothing,
}

/// The reports of a run on their way to a sink. Where sending is throttled, the best one waits.
pub struct Drain<T> {
    pub throttled: bool,
    pub best_pending: Option<PendingProgress<T>>,
}

/// The better of the waiting report and a new one; the waiting one where they are as good.
pub open spec fn kept<T>(pending: Option<PendingProgress<T>>, new: PendingProgress<T>) -> PendingProgress<
    T,
> {
    match pending {
        Some(old) if !new.objective.beats(old.objective) => old,
        _ => new,
    }
}

impl<T> Drain<T> {
    /// No report waits.
    pub fn new(sink_interval_ms: u64) -> (r: Drain<T>)
        ensures
            r.throttled == (sink_interval_ms > 0),
            r.best_pending is None,
    {
        Drain { throttled: sink_interval_ms > 0, best_pending: None }
    }

    /// Takes a report. `due` says whether the sink is ready for one.
    pub fn progress(&mut self, new: PendingProgress<T>, due: bool) -> (r: Report<T>)
        ensures
            final(self).throttled == old(self).throttled,
            !old(self).throttled ==> r == Report::Figures(new) && final(self).best_pending
                == old(self).best_pending,
            old(self).throttled && due ==> r == Report::Solution(
                kept(old(self).best_pending, new),
            ) && final(self).best_pending is None,
            old(self).throttled && !due ==> r == Report::<T>::Nothing && final(self).best_pending
                == Some(kept(old(self).best_pending, new)),
    {
        if !self.throttled {
            return Report::Figures(new);
        }
        let best = match self.best_pending.take() {
            Some(old) => if new.objective.is_better(&old.objective) {
                new
            } else {
                old
            },
            None => new,
        };
        if due {
            Report::Solution(best)
        } else {
            self.best_pending = Some(best);
            Report::Nothing
        }
    }

    /// The report that still waits at the end.
    pub fn flush(&mut self) -> (r: Option<PendingProgress<T>>)
        ensures
            r == old(self).best_pending,
            final(self).best_pending is None,
            final(self).throttled == old(self).throttled,
    {
        self.best_pending.take()
    }
}

/// Whether a sink is ready: nothing was sent yet, or the interval has passed since.
pub fn is_due(elapsed_ms: Option<u64>, sink_interval_ms: u64) -> (r: bool)
    ensures
        r == (match elapsed_ms {
            Some(t) => t >= sink_interval_ms,
            None => true,
        }),
{
    match elapsed_ms {
        Some(t) => t >= sink_interval_ms,
        None => true,
    }
}

/// What waits after `n` reports that found the sink not ready.
pub open spec fn kept_of<T>(reports: Seq<PendingProgress<T>>, n: nat) -> Option<PendingProgress<T>>
    decreases n,
{
    if n == 0 {
        None
    } else {
        Some(kept(kept_of(reports, (n - 1) as nat), reports[n - 1]))
    }
}

/// None of the reports that found the sink not ready beats the one that waits.
pub proof fn law_best_report_waits<T>(reports: Seq<PendingProgress<T>>, n: nat, i: int)
    requires
        0 <= i < n <= reports.len(),
    ensures
        kept_of(reports, n) is Some,
        !reports[i].objective.beats(kept_of(reports, n)->0.objective),
    decreases n,
{
    if i < n - 1 {
        law_best_report_waits(reports, (n - 1) as nat, i);
    }
}

/// A solution that is decoded only where it is asked for: reports are often superseded before
/// they are sent.
pub enum LazyDecode {
    Slas(crate::slas::decoder::Genome),
    Glas(crate::glas::decoder::Genome),
    Ready(SolutionSpec),
}

impl LazyDecode {
    /// There is a solution for this problem.
    pub open spec fn decodable_for(self, spec: ProblemSpec) -> bool {
        match self {
            LazyDecode::Slas(genome) => genome.decodable_for(spec),
            LazyDecode::Glas(genome) => genome.decodable_for(spec),
            LazyDecode::Ready(_) => true,
        }
    }

    /// The solution is the one that is meant.
    pub open spec fn decodes_to(self, spec: ProblemSpec, sol: SolutionSpec) -> bool {
        match self {
            LazyDecode::Slas(genome) => genome.decodes_to(spec, sol),
            LazyDecode::Glas(genome) => genome.decodes_to(spec, sol),
            LazyDecode::Ready(ready) => sol == ready,
        }
    }

    /// The solution.
    pub fn decode(self, spec: &ProblemSpec) -> (r: SolutionSpec)
        requires
            self.decodable_for(*spec),
        ensures
            self.decodes_to(*spec, r),
    {
        match self {
            LazyDecode::Slas(genome) => genome.decode(spec),
            LazyDecode::Glas(genome) => genome.decode(spec),
            LazyDecode::Ready(ready) => ready,
        }
    }
}

/// What a genetic algorithm comes to on a solvable problem can be decoded.
pub proof fn law_results_decode(spec: ProblemSpec, lazy: LazyDecode, cfg: GaConfig)
    requires
        solvable(spec),
        spec.piece_types@.len() <= usize::MAX,
        match lazy {
            LazyDecode::Slas(genome) => permutation(
                genome@,
                copies(spec.piece_types@, spec.piece_types@.len()),
            ),
            LazyDecode::Glas(genome) => classed(
                spec,
                cfg.long_dim_threshold,
                cfg.large_area_threshold,
                genome_view(genome),
            ),
            LazyDecode::Ready(_) => true,
        },
    ensures
        lazy.decodable_for(spec),
{
    assert forall|p: Problem| #[trigger] is_expansion(spec, p) implies crate::slas::ga::playable(
        p,
    ) && crate::glas::ga::playable(spec, p) && p.pieces@.len() == copies(
        spec.piece_types@,
        spec.piece_types@.len(),
    ) by {
        law_solvable_is_ready(spec, p);
        lemma_expansion(spec, p);
    }
    match lazy {
        LazyDecode::Slas(genome) => {
            assert forall|p: Problem| #[trigger] is_expansion(spec, p) implies decodable(
                p,
                genome@,
            ) by {
                assert(crate::slas::ga::playable(p));
                assert forall|i: int| 0 <= i < genome@.len() implies (
                #[trigger] genome@[i]).piece_idx < p.pieces.len() && fits_sheet(
                    p,
                    genome@[i].piece_idx as int,
                ) by {}
            }
        },
        LazyDecode::Glas(genome) => {
            lemma_classed_genes(
                spec,
                cfg.long_dim_threshold,
                cfg.large_area_threshold,
                genome_view(genome),
            );
        },
        LazyDecode::Ready(_) => {},
    }
}

/// The shelf heuristic places as the shelf packer does. The other one places as one of its passes
/// does, and no pass, by whatever rules, places better.
pub proof fn law_heuristic_places_best(p: Problem, how: Strategy)
    ensures
        heuristic_placements(HeuristicKind::Bfdh, p) == bfdh_state(
            p,
            by_height(p),
            p.pieces@.len(),
        ).placements,
        heuristic_leftovers(HeuristicKind::Bfdh, p).len() == 0,
        exists|h: Strategy|
            {
                &&& heuristic_placements(HeuristicKind::Jylanki, p) == (#[trigger] jylanki_result(
                    p,
                    h,
                )).placements
                &&& heuristic_leftovers(HeuristicKind::Jylanki, p) == jylanki_result(p, h).free
            },
        !objective_of(p, jylanki_result(p, how).placements).beats(
            objective_of(p, heuristic_placements(HeuristicKind::Jylanki, p)),
        ),
{
    law_every_combination_is_tried(how);
    let c = choose|c: int|
        {
            &&& 0 <= c < STRATEGIES
            &&& (#[trigger] strategy(c)).key == how.key
            &&& strategy(c).dir == how.dir
            &&& strategy(c).sel == how.sel
            &&& strategy(c).rule == how.rule
        };
    assert(strategy(c) == how);
    law_portfolio_is_best(p, c);
}

/// The results of an algorithm come from the best on: none beats one in front of it.
pub proof fn law_results_from_the_best_on(
    spec: ProblemSpec,
    p: Problem,
    alg: AlgConfig,
    r: Seq<(u64, Objective, SolutionSpec)>,
    i: int,
    j: int,
)
    requires
        results_of(spec, p, alg, r),
        r.len() <= usize::MAX,
        0 <= i < j < r.len(),
    ensures
        !r[j].1.beats(r[i].1),
{
    match alg {
        AlgConfig::Heuristic { kind } => {},
        AlgConfig::Ga { kind: GaKind::Slas, cfg, seeds, progress_interval } => {
            let d = SlasDecoder { problem: &p };
            let n = cfg.iteration_count as nat;
            let c = colony_evolved(d, cfg, seeds@, progress_interval as int, n);
            lemma_runs_per_seed(d, cfg, seeds@, progress_interval as int, n);
            law_results_are_ranked(d, seeds@, c, i, j);
            assert(slas_result(spec, p, cfg, seeds@, progress_interval as int, i, r[i]));
            assert(slas_result(spec, p, cfg, seeds@, progress_interval as int, j, r[j]));
        },
        AlgConfig::Ga { kind: GaKind::Glas, cfg, seeds, progress_interval } => {
            let d = GlasDecoder { spec: &spec, problem: &p };
            let n = cfg.iteration_count as nat;
            let c = colony_evolved(d, cfg, seeds@, progress_interval as int, n);
            lemma_runs_per_seed(d, cfg, seeds@, progress_interval as int, n);
            law_results_are_ranked(d, seeds@, c, i, j);
            assert(glas_result(spec, p, cfg, seeds@, progress_interval as int, i, r[i]));
            assert(glas_result(spec, p, cfg, seeds@, progress_interval as int, j, r[j]));
        },
    }
}

/// There is one island for each seed.
proof fn lemma_runs_per_seed<D: GaDecoder>(
    d: D,
    config: GaConfig,
    seeds: Seq<u64>,
    interval: int,
    n: nat,
)
    ensures
        colony_evolved(d, config, seeds, interval, n).runs.len() == seeds.len(),
    decreases n,
{
    if n > 0 {
        lemma_runs_per_seed(d, config, seeds, interval, (n - 1) as nat);
    }
}

} // verus!
