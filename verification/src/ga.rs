//! The genetic algorithm: selection, breeding and the exchange between islands.
//!
//! Chances are counted in parts of `CERTAIN`. Everything random is drawn from one generator, so
//! that a run is a function of the decoder, the configuration and the state of the generator.

use rand_xoshiro::Xoshiro256StarStar;
use vstd::prelude::*;

use crate::model::{ProblemSpec, SolutionSpec};
use crate::rng::{after, next_of, next_u64};
use crate::score::{best_index, law_best_index, Objective};
use crate::sorting::{in_order, lemma_order_exists, order_of, ranked, Order, Ranking};

verus! {

/// The chance that is sure to happen.
pub const CERTAIN: u64 = 9_007_199_254_740_992;

/// Hyperparameters.
#[derive(Debug, Clone, Copy, PartialEq, Eq)]
pub struct GaConfig {
    /// Number of individuals in the population.
    pub pop_size: usize,
    /// Number of generations to run.
    pub iteration_count: usize,
    /// Number of top individuals copied unchanged into the next generation; 0 disables this.
    pub elite_count: usize,
    /// Number of individuals competing for each parent slot.
    pub tournament_size: usize,
    /// Chance of crossover; otherwise children are clones of their parents.
    pub crossover_p: u64,
    /// Chance, for each gene, of an exchange with a random other gene.
    pub swap_p: u64,
    /// Chance, for each gene, of flipping the rotation preference.
    pub flip_p: u64,
    /// Chance of shifting a selector, which picks the free rectangle that is tried first.
    pub point_p: u64,
    /// Range, both ends included, of the shift of a selector.
    pub point_delta: (u32, u32),
    /// Chance of flipping a split direction.
    pub inverse_p: u64,
    /// Least longer side for a piece type to count as long; 0 stands for three tenths of the
    /// longer side of the sheet.
    pub long_dim_threshold: u32,
    /// Root of the least area for a long piece to count as large; 0 stands for the root of a
    /// twentieth of the sheet's area.
    pub large_area_threshold: u32,
}

impl Default for GaConfig {
    fn default() -> (r: Self)
        ensures
            r == default_config(),
    {
        GaConfig {
            pop_size: 200,
            iteration_count: 1000,
            elite_count: 2,
            tournament_size: 3,
            crossover_p: CROSSOVER_P,
            swap_p: SWAP_P,
            flip_p: FLIP_P,
            point_p: POINT_P,
            point_delta: (1, 3),
            inverse_p: INVERSE_P,
            long_dim_threshold: 0,
            large_area_threshold: 0,
        }
    }
}

/// Four in five.
pub const CROSSOVER_P: u64 = 7_205_759_403_792_794;

/// Three in twenty.
pub const SWAP_P: u64 = 1_351_079_888_211_149;

/// One in twenty.
pub const FLIP_P: u64 = 450_359_962_737_050;

/// One in ten.
pub const POINT_P: u64 = 900_719_925_474_100;

/// One in twenty.
pub const INVERSE_P: u64 = 450_359_962_737_050;

/// The configuration that is used where nothing else is asked for.
pub open spec fn default_config() -> GaConfig {
    GaConfig {
        pop_size: 200,
        iteration_count: 1000,
        elite_count: 2,
        tournament_size: 3,
        crossover_p: CROSSOVER_P,
        swap_p: SWAP_P,
        flip_p: FLIP_P,
        point_p: POINT_P,
        point_delta: (1, 3),
        inverse_p: INVERSE_P,
        long_dim_threshold: 0,
        large_area_threshold: 0,
    }
}

/// Three tenths of the longer side of a sheet.
pub open spec fn long_side(width: u32, height: u32) -> int {
    (if width >= height {
        width as int
    } else {
        height as int
    }) * 3 / 10
}

/// `r` is the root of a twentieth of the sheet's area, rounded down.
pub open spec fn large_root(width: u32, height: u32, r: int) -> bool {
    &&& 0 <= r
    &&& 20 * (r * r) <= width * height
    &&& width * height < 20 * ((r + 1) * (r + 1))
}

/// A root of a twentieth of the sheet's area is unique.
pub proof fn lemma_large_root(width: u32, height: u32, a: int, b: int)
    requires
        large_root(width, height, a),
        large_root(width, height, b),
    ensures
        a == b,
{
    if a < b {
        assert((a + 1) * (a + 1) <= b * b) by (nonlinear_arith)
            requires
                0 <= a,
                a + 1 <= b,
        ;
    } else if b < a {
        assert((b + 1) * (b + 1) <= a * a) by (nonlinear_arith)
            requires
                0 <= b,
                b + 1 <= a,
        ;
    }
}

/// The root of a twentieth of the sheet's area, rounded down.
pub open spec fn large_root_of(width: u32, height: u32) -> int {
    choose|r: int| large_root(width, height, r)
}

/// The longer side, least that of a long piece, when none is asked for.
pub fn default_long(width: u32, height: u32) -> (r: u32)
    ensures
        r == long_side(width, height),
{
    let side: u32 = if width >= height {
        width
    } else {
        height
    };
    (side as u64 * 3 / 10) as u32
}

/// The root of the area, least that of a large piece, when none is asked for.
pub fn default_large(width: u32, height: u32) -> (r: u32)
    ensures
        large_root(width, height, r as int),
        r == large_root_of(width, height),
{
    assert(width * height <= 0xffff_ffff * 0xffff_ffff) by (nonlinear_arith)
        requires
            0 <= width <= 0xffff_ffff,
            0 <= height <= 0xffff_ffff,
    ;
    let area: u64 = width as u64 * height as u64;
    let goal: u64 = area / 20;
    let mut lo: u64 = 0;
    let mut hi: u64 = 0x1_0000_0000;
    assert(goal < hi * hi) by {
        assert(0x1_0000_0000u64 * 0x1_0000_0000u64 == 0x1_0000_0000_0000_0000int);
    }
    while lo + 1 < hi
        invariant
            lo < hi <= 0x1_0000_0000,
            lo * lo <= goal < hi * hi,
        decreases hi - lo,
    {
        let mid: u64 = (lo + hi) / 2;
        assert(mid * mid <= 0xffff_ffff * 0xffff_ffff) by (nonlinear_arith)
            requires
                0 <= mid <= 0xffff_ffff,
        ;
        if mid * mid <= goal {
            lo = mid;
        } else {
            hi = mid;
        }
    }
    assert(hi == lo + 1);
    proof {
        lemma_large_root(width, height, lo as int, large_root_of(width, height));
    }
    lo as u32
}

impl GaConfig {
    /// A configuration for a sheet: the thresholds are derived from it where they are 0, all
    /// else is as by default.
    pub fn new(
        spec: &ProblemSpec,
        iteration_count: usize,
        pop_size: usize,
        large_area_threshold: u32,
        long_dim_threshold: u32,
    ) -> (r: Self)
        ensures
            r == (GaConfig {
                pop_size,
                iteration_count,
                long_dim_threshold: r.long_dim_threshold,
                large_area_threshold: r.large_area_threshold,
                ..default_config()
            }),
            r.long_dim_threshold == (if long_dim_threshold == 0 {
                long_side(spec.sheet.width, spec.sheet.height)
            } else {
                long_dim_threshold as int
            }),
            r.large_area_threshold == (if large_area_threshold == 0 {
                large_root_of(spec.sheet.width, spec.sheet.height)
            } else {
                large_area_threshold as int
            }),
            large_area_threshold == 0 ==> large_root(
                spec.sheet.width,
                spec.sheet.height,
                r.large_area_threshold as int,
            ),
    {
        let long_dim_threshold: u32 = if long_dim_threshold == 0 {
            default_long(spec.sheet.width, spec.sheet.height)
        } else {
            long_dim_threshold
        };
        let large_area_threshold: u32 = if large_area_threshold == 0 {
            default_large(spec.sheet.width, spec.sheet.height)
        } else {
            large_area_threshold
        };
        let mut config = GaConfig::default();
        config.pop_size = pop_size;
        config.iteration_count = iteration_count;
        config.long_dim_threshold = long_dim_threshold;
        config.large_area_threshold = large_area_threshold;
        config
    }

    /// The range of the shift has a number of values that can be counted.
    pub open spec fn delta_ok(self) -> bool {
        !(self.point_delta.0 == 0 && self.point_delta.1 == u32::MAX)
    }

    /// A run is possible: there is a population, and where parents are chosen a tournament is
    /// not larger than it.
    pub open spec fn runnable(self) -> bool {
        &&& self.pop_size >= 1
        &&& self.delta_ok()
        &&& self.iteration_count > 0 && self.elite_count < self.pop_size ==> 1
            <= self.tournament_size <= self.pop_size
    }
}

/// Whether something of chance `p` happens.
pub open spec fn happens(rng: Xoshiro256StarStar, p: u64) -> bool {
    next_of(rng) / 2048 < p
}

/// Draws whether something of chance `p` happens.
pub fn draw(rng: &mut Xoshiro256StarStar, p: u64) -> (r: bool)
    ensures
        r == happens(*old(rng), p),
        *final(rng) == after(*old(rng)),
{
    next_u64(rng) / 2048 < p
}

/// A thing that is certain happens, a thing without a chance does not.
pub proof fn law_certain_and_never(rng: Xoshiro256StarStar)
    ensures
        happens(rng, CERTAIN),
        !happens(rng, 0),
{
}

/// The index below `n` that is picked.
pub open spec fn pick(rng: Xoshiro256StarStar, n: int) -> int {
    (next_of(rng) as usize) as int % n
}

/// Picks an index below `n`.
pub fn draw_index(rng: &mut Xoshiro256StarStar, n: usize) -> (r: usize)
    requires
        n > 0,
    ensures
        r == pick(*old(rng), n as int),
        r < n,
        *final(rng) == after(*old(rng)),
{
    #[verifier::truncate]
    let v: usize = next_u64(rng) as usize;
    v % n
}

/// Whether the number drawn is odd.
pub open spec fn odd(rng: Xoshiro256StarStar) -> bool {
    next_of(rng) % 2 == 1
}

/// Draws a bit.
pub fn draw_bit(rng: &mut Xoshiro256StarStar) -> (r: bool)
    ensures
        r == odd(*old(rng)),
        *final(rng) == after(*old(rng)),
{
    next_u64(rng) % 2 == 1
}

/// The low half of the number drawn.
pub open spec fn low_half(rng: Xoshiro256StarStar) -> u32 {
    next_of(rng) as u32
}

/// Draws a selector.
pub fn draw_selector(rng: &mut Xoshiro256StarStar) -> (r: u32)
    ensures
        r == low_half(*old(rng)),
        *final(rng) == after(*old(rng)),
{
    #[verifier::truncate]
    let v: u32 = next_u64(rng) as u32;
    v
}

/// The number of values in the range of a shift; an empty range counts as its lower end.
pub open spec fn delta_span(delta: (u32, u32)) -> int {
    if delta.1 > delta.0 {
        delta.1 - delta.0 + 1
    } else {
        1
    }
}

/// A selector shifted by a drawn amount in a drawn direction, round the ends.
pub open spec fn nudged(selector: u32, delta: (u32, u32), rng: Xoshiro256StarStar) -> u32 {
    let d = delta.0 + next_of(rng) as int % delta_span(delta);
    if odd(after(rng)) {
        (if selector - d < 0 {
            selector - d + 0x1_0000_0000
        } else {
            selector - d
        }) as u32
    } else {
        (if selector + d > u32::MAX {
            selector + d - 0x1_0000_0000
        } else {
            selector + d
        }) as u32
    }
}

/// Shifts a selector.
pub fn nudge(selector: u32, delta: (u32, u32), rng: &mut Xoshiro256StarStar) -> (r: u32)
    requires
        !(delta.0 == 0 && delta.1 == u32::MAX),
    ensures
        r == nudged(selector, delta, *old(rng)),
        *final(rng) == after(after(*old(rng))),
{
    let span: u64 = if delta.1 > delta.0 {
        (delta.1 - delta.0 + 1) as u64
    } else {
        1
    };
    let rest: u64 = next_u64(rng) % span;
    let d: u32 = delta.0 + rest as u32;
    if draw_bit(rng) {
        selector.wrapping_sub(d)
    } else {
        selector.wrapping_add(d)
    }
}

/// The chances of a mutation.
pub struct Rates {
    pub swap_p: u64,
    pub flip_p: u64,
    pub point_p: u64,
    pub point_delta: (u32, u32),
    pub inverse_p: u64,
}

/// The chances of a mutation under a configuration.
pub open spec fn rates_of(config: GaConfig) -> Rates {
    Rates {
        swap_p: config.swap_p,
        flip_p: config.flip_p,
        point_p: config.point_p,
        point_delta: config.point_delta,
        inverse_p: config.inverse_p,
    }
}

/// The other gene that gene `i` of `n` is exchanged with.
pub open spec fn partner(rng: Xoshiro256StarStar, i: int, n: int) -> int {
    (i + 1 + pick(rng, n - 1)) % n
}

/// Picks a gene other than `i`.
pub fn draw_partner(rng: &mut Xoshiro256StarStar, i: usize, n: usize) -> (r: usize)
    requires
        i < n,
        n >= 2,
    ensures
        r == partner(*old(rng), i as int, n as int),
        r < n,
        r != i,
        *final(rng) == after(*old(rng)),
{
    let step: usize = draw_index(rng, n - 1);
    // Counted from `i + 1` on, round the end.
    let room: usize = n - 1 - i;
    if step < room {
        proof {
            vstd::arithmetic::div_mod::lemma_small_mod((i + 1 + step) as nat, n as nat);
        }
        i + 1 + step
    } else {
        proof {
            vstd::arithmetic::div_mod::lemma_small_mod((step - room) as nat, n as nat);
            vstd::arithmetic::div_mod::lemma_mod_multiples_vanish(
                1,
                (step - room) as int,
                n as int,
            );
        }
        step - room
    }
}

/// Genomes and genetic operators of one decoder.
///
/// Each operator is described by a function on what genomes say: what comes out, and the state
/// the generator is left in.
pub trait GaDecoder: Sized {
    type Genome: Clone;

    /// What a genome says.
    type Model;

    spec fn model(genome: Self::Genome) -> Self::Model;

    /// The decoder can be run with this configuration.
    spec fn ready(&self, config: GaConfig) -> bool;

    /// The genome can be decoded.
    spec fn decodes(&self, m: Self::Model) -> bool;

    /// The genomes can be crossed with each other.
    spec fn crossable(&self, a: Self::Model, b: Self::Model) -> bool;

    /// The genome is one that a run with this configuration works with.
    spec fn valid(&self, config: GaConfig, m: Self::Model) -> bool;

    spec fn objective(&self, m: Self::Model) -> Objective;

    spec fn random_model(&self, config: GaConfig, rng: Xoshiro256StarStar) -> (
        Self::Model,
        Xoshiro256StarStar,
    );

    spec fn crossed(&self, a: Self::Model, b: Self::Model, rng: Xoshiro256StarStar) -> (
        (Self::Model, Self::Model),
        Xoshiro256StarStar,
    );

    spec fn mutated(&self, m: Self::Model, config: GaConfig, rng: Xoshiro256StarStar) -> (
        Self::Model,
        Xoshiro256StarStar,
    );

    spec fn seed_models(&self, config: GaConfig) -> Seq<Self::Model>;

    proof fn clone_says_the_same(a: Self::Genome, b: Self::Genome)
        requires
            cloned(a, b),
        ensures
            Self::model(a) == Self::model(b),
    ;

    /// A random genome.
    fn random_genome(&self, config: &GaConfig, rng: &mut Xoshiro256StarStar) -> (r: Self::Genome)
        requires
            self.ready(*config),
        ensures
            (Self::model(r), *final(rng)) == self.random_model(*config, *old(rng)),
            self.valid(*config, Self::model(r)),
    ;

    /// How good a genome is.
    fn eval(&self, genome: &Self::Genome) -> (r: Objective)
        requires
            self.decodes(Self::model(*genome)),
        ensures
            r == self.objective(Self::model(*genome)),
    ;

    /// Two children of two parents.
    fn crossover(
        &self,
        p1: &Self::Genome,
        p2: &Self::Genome,
        rng: &mut Xoshiro256StarStar,
    ) -> (r: (Self::Genome, Self::Genome))
        requires
            self.crossable(Self::model(*p1), Self::model(*p2)),
        ensures
            ((Self::model(r.0), Self::model(r.1)), *final(rng)) == self.crossed(
                Self::model(*p1),
                Self::model(*p2),
                *old(rng),
            ),
            forall|config: GaConfig|
                self.valid(config, Self::model(*p1)) && self.valid(config, Self::model(*p2))
                    ==> #[trigger] self.valid(config, Self::model(r.0)) && self.valid(
                    config,
                    Self::model(r.1),
                ),
    ;

    /// Changes a genome a little.
    fn mutate(&self, genome: &mut Self::Genome, config: &GaConfig, rng: &mut Xoshiro256StarStar)
        requires
            self.ready(*config),
            self.valid(*config, Self::model(*old(genome))),
        ensures
            (Self::model(*final(genome)), *final(rng)) == self.mutated(
                Self::model(*old(genome)),
                *config,
                *old(rng),
            ),
            self.valid(*config, Self::model(*final(genome))),
    ;

    /// Genomes that the first population begins with.
    fn seed_genomes(&self, config: &GaConfig) -> (r: Vec<Self::Genome>)
        requires
            self.ready(*config),
        ensures
            r@.len() == self.seed_models(*config).len(),
            forall|i: int|
                0 <= i < r@.len() ==> {
                    &&& Self::model(#[trigger] r@[i]) == self.seed_models(*config)[i]
                    &&& self.valid(*config, Self::model(r@[i]))
                },
    ;

    /// Genomes that a run works with can be decoded and crossed.
    proof fn valid_is_usable(&self, config: GaConfig, a: Self::Model, b: Self::Model)
        requires
            self.valid(config, a),
            self.valid(config, b),
        ensures
            self.decodes(a),
            self.crossable(a, b),
    ;
}

/// A genome and how good it is.
#[derive(Debug, Clone)]
pub struct Individual<G> {
    pub genome: G,
    pub objective: Objective,
}

/// The best of a run so far.
#[derive(Debug, Clone)]
pub struct ProgressEvent<G> {
    pub seed: u64,
    pub generation: usize,
    pub genome: G,
    pub objective: Objective,
}

/// The results of all seeds, best first.
#[derive(Debug, Clone)]
pub struct DoneEvent<G> {
    pub pairs: Vec<(u64, Individual<G>)>,
}

/// What a run reports.
#[derive(Debug)]
pub enum GaEvent<G> {
    Progress(ProgressEvent<G>),
    Done(DoneEvent<G>),
}

/// A genome that can decode itself into a solution.
pub trait Decodable {
    /// The genome is one for this problem.
    spec fn decodable_for(&self, spec: ProblemSpec) -> bool;

    /// The solution is the one that the genome stands for.
    spec fn decodes_to(&self, spec: ProblemSpec, sol: SolutionSpec) -> bool;

    fn decode(&self, spec: &ProblemSpec) -> (r: SolutionSpec)
        requires
            self.decodable_for(*spec),
        ensures
            self.decodes_to(*spec, r),
    ;
}

/// The objectives of a population.
pub open spec fn grades<G>(list: Seq<Individual<G>>) -> Seq<Objective> {
    Seq::new(list.len(), |i: int| list[i].objective)
}

/// Objectives from the best on.
pub struct GradeOrder {
    pub grades: Seq<Objective>,
}

impl Order for GradeOrder {
    open spec fn ranks(self, i: int) -> bool {
        0 <= i < self.grades.len()
    }

    open spec fn leq(self, a: int, b: int) -> bool {
        !self.grades[b].beats(self.grades[a])
    }

    proof fn leq_total(self, a: int, b: int) {
    }

    proof fn leq_trans(self, a: int, b: int, c: int) {
    }
}

struct GradeRanking<'a, G> {
    list: &'a [Individual<G>],
}

impl<'a, G> Ranking for GradeRanking<'a, G> {
    type Of = GradeOrder;

    closed spec fn order(&self) -> GradeOrder {
        GradeOrder { grades: grades(self.list@) }
    }

    fn at_most(&self, a: usize, b: usize) -> (r: bool) {
        !self.list[b].objective.is_better(&self.list[a].objective)
    }
}

/// The indices of individuals from the best on, the earlier first where they are equal.
pub open spec fn by_grade(grades: Seq<Objective>) -> Seq<usize> {
    order_of(GradeOrder { grades }, grades.len())
}

fn rank_by_grade<G>(list: &[Individual<G>]) -> (r: Vec<usize>)
    ensures
        r@ == by_grade(grades(list@)),
        in_order(GradeOrder { grades: grades(list@) }, list@.len(), r@),
{
    let ranking = GradeRanking { list };
    ranked(&ranking, list.len())
}

/// The smaller of two counts.
pub open spec fn at_most(n: int, limit: int) -> int {
    if n < limit {
        n
    } else {
        limit
    }
}

/// The best individuals, `n_elite` of them or all if there are not so many, from the best on.
pub fn select_elite<G: Clone>(individuals: &[Individual<G>], n_elite: usize) -> (r: Vec<
    Individual<G>,
>)
    ensures
        r@.len() == at_most(individuals@.len() as int, n_elite as int),
        forall|i: int|
            0 <= i < r@.len() ==> {
                let from = individuals@[by_grade(grades(individuals@))[i] as int];
                &&& (#[trigger] r@[i]).objective == from.objective
                &&& cloned(from.genome, r@[i].genome)
            },
{
    let order = rank_by_grade(individuals);
    let mut out: Vec<Individual<G>> = Vec::new();
    while out.len() < n_elite && out.len() < individuals.len()
        invariant
            out@.len() <= at_most(individuals@.len() as int, n_elite as int),
            order@ == by_grade(grades(individuals@)),
            order@.len() == individuals@.len(),
            forall|i: int| 0 <= i < order@.len() ==> #[trigger] order@[i] < individuals@.len(),
            forall|i: int|
                0 <= i < out@.len() ==> {
                    let from = individuals@[by_grade(grades(individuals@))[i] as int];
                    &&& (#[trigger] out@[i]).objective == from.objective
                    &&& cloned(from.genome, out@[i].genome)
                },
        decreases individuals@.len() - out@.len(),
    {
        let k: usize = order[out.len()];
        let genome = individuals[k].genome.clone();
        out.push(Individual { genome, objective: individuals[k].objective });
    }
    out
}

/// The individuals that are left out of an elite beat none of its members.
pub proof fn law_elite_is_best(grades: Seq<Objective>, i: int, j: int)
    requires
        0 <= i < j < grades.len(),
        grades.len() <= usize::MAX,
    ensures
        by_grade(grades).len() == grades.len(),
        by_grade(grades)[i] < grades.len(),
        by_grade(grades)[j] < grades.len(),
        by_grade(grades)[i] != by_grade(grades)[j],
        !grades[by_grade(grades)[j] as int].beats(grades[by_grade(grades)[i] as int]),
{
    let rank = GradeOrder { grades };
    lemma_order_exists(rank, grades.len());
    let s = by_grade(grades);
    assert(in_order(rank, grades.len(), s));
    assert(crate::sorting::precedes(rank, s[i] as int, s[j] as int));
}

/// The order of grades holds indices only.
pub proof fn lemma_by_grade(grades: Seq<Objective>, i: int)
    requires
        0 <= i < grades.len(),
        grades.len() <= usize::MAX,
    ensures
        by_grade(grades).len() == grades.len(),
        by_grade(grades)[i] < grades.len(),
{
    let rank = GradeOrder { grades };
    lemma_order_exists(rank, grades.len());
    assert(in_order(rank, grades.len(), by_grade(grades)));
}

/// The winner of a tournament of `k`, and the generator afterwards: the best that was drawn,
/// the first where several are as good.
pub open spec fn tournament(grades: Seq<Objective>, k: nat, rng: Xoshiro256StarStar) -> (
    int,
    Xoshiro256StarStar,
)
    decreases k,
{
    let n = grades.len() as int;
    if k <= 1 {
        (pick(rng, n), after(rng))
    } else {
        let (best, r) = tournament(grades, (k - 1) as nat, rng);
        let i = pick(r, n);
        (
            if grades[i].beats(grades[best]) {
                i
            } else {
                best
            },
            after(r),
        )
    }
}

/// The index of the winner of a tournament.
pub fn tournament_winner<G>(individuals: &[Individual<G>], k: usize, rng: &mut Xoshiro256StarStar) -> (r: usize)
    requires
        1 <= k <= individuals@.len(),
    ensures
        (r as int, *final(rng)) == tournament(grades(individuals@), k as nat, *old(rng)),
        r < individuals@.len(),
{
    let n: usize = individuals.len();
    let ghost g = grades(individuals@);
    let mut best: usize = draw_index(rng, n);
    let mut i: usize = 1;
    while i < k
        invariant
            1 <= i <= k <= n,
            n == individuals@.len(),
            g == grades(individuals@),
            best < n,
            (best as int, *rng) == tournament(g, i as nat, *old(rng)),
        decreases k - i,
    {
        let idx: usize = draw_index(rng, n);
        if individuals[idx].objective.is_better(&individuals[best].objective) {
            best = idx;
        }
        i += 1;
    }
    best
}

/// Picks `k` individuals at random and returns the best of them.
pub fn tournament_select<'a, G>(
    individuals: &'a [Individual<G>],
    k: usize,
    rng: &mut Xoshiro256StarStar,
) -> (r: &'a Individual<G>)
    requires
        1 <= k <= individuals@.len(),
    ensures
        ({
            let t = tournament(grades(individuals@), k as nat, *old(rng));
            &&& 0 <= t.0 < individuals@.len()
            &&& *r == individuals@[t.0]
            &&& *final(rng) == t.1
        }),
{
    let i: usize = tournament_winner(individuals, k, rng);
    &individuals[i]
}

/// The grades of what genomes say.
pub open spec fn model_grades<D: GaDecoder>(d: D, pop: Seq<D::Model>) -> Seq<Objective> {
    Seq::new(pop.len(), |i: int| d.objective(pop[i]))
}

/// What the individuals of a population say.
pub open spec fn models<D: GaDecoder>(pop: Seq<Individual<D::Genome>>) -> Seq<D::Model> {
    Seq::new(pop.len(), |i: int| D::model(pop[i].genome))
}

/// A population of valid genomes, each with its own objective.
pub open spec fn sound<D: GaDecoder>(d: D, config: GaConfig, pop: Seq<Individual<D::Genome>>) -> bool {
    forall|i: int|
        0 <= i < pop.len() ==> {
            &&& d.valid(config, D::model((#[trigger] pop[i]).genome))
            &&& pop[i].objective == d.objective(D::model(pop[i].genome))
        }
}

/// `n` random genomes one after the other.
pub open spec fn random_models<D: GaDecoder>(
    d: D,
    config: GaConfig,
    n: nat,
    rng: Xoshiro256StarStar,
) -> (Seq<D::Model>, Xoshiro256StarStar)
    decreases n,
{
    if n == 0 {
        (Seq::empty(), rng)
    } else {
        let (list, r) = random_models(d, config, (n - 1) as nat, rng);
        let (m, r2) = d.random_model(config, r);
        (list.push(m), r2)
    }
}

/// The first population: seed genomes, as far as there is room, and random ones.
pub open spec fn first_population<D: GaDecoder>(
    d: D,
    config: GaConfig,
    size: nat,
    rng: Xoshiro256StarStar,
) -> (Seq<D::Model>, Xoshiro256StarStar) {
    let seeds = d.seed_models(config);
    let k = at_most(seeds.len() as int, size as int);
    let (list, r) = random_models(d, config, (size - k) as nat, rng);
    (seeds.take(k) + list, r)
}

/// Sets up the first population.
pub fn init_population<D: GaDecoder>(
    decoder: &D,
    config: &GaConfig,
    size: usize,
    rng: &mut Xoshiro256StarStar,
) -> (r: Vec<Individual<D::Genome>>)
    requires
        decoder.ready(*config),
    ensures
        (models::<D>(r@), *final(rng)) == first_population(
            *decoder,
            *config,
            size as nat,
            *old(rng),
        ),
        sound(*decoder, *config, r@),
        r@.len() == size,
{
    let seeds = decoder.seed_genomes(config);
    let ghost all = decoder.seed_models(*config);
    let ghost room = at_most(all.len() as int, size as int);
    let mut pop: Vec<Individual<D::Genome>> = Vec::new();
    assert(models::<D>(pop@) =~= all.take(0));
    while pop.len() < seeds.len() && pop.len() < size
        invariant
            room == at_most(all.len() as int, size as int),
            pop@.len() <= room,
            seeds@.len() == all.len(),
            forall|i: int|
                0 <= i < seeds@.len() ==> {
                    &&& D::model(#[trigger] seeds@[i]) == all[i]
                    &&& decoder.valid(*config, D::model(seeds@[i]))
                },
            models::<D>(pop@) == all.take(pop@.len() as int),
            sound(*decoder, *config, pop@),
        decreases room - pop@.len(),
    {
        let ghost k = pop@.len() as int;
        let genome = seeds[pop.len()].clone();
        proof {
            D::clone_says_the_same(seeds@[k], genome);
        }
        proof {
            decoder.valid_is_usable(*config, D::model(genome), D::model(genome));
        }
        let objective = decoder.eval(&genome);
        pop.push(Individual { genome, objective });
        assert(models::<D>(pop@) =~= all.take(k + 1));
    }
    assert(models::<D>(pop@) =~= all.take(room) + Seq::<D::Model>::empty());
    while pop.len() < size
        invariant
            decoder.ready(*config),
            0 <= room <= pop@.len() <= size,
            room <= all.len(),
            (models::<D>(pop@), *rng) == ({
                let t = random_models(*decoder, *config, (pop@.len() - room) as nat, *old(rng));
                (all.take(room) + t.0, t.1)
            }),
            sound(*decoder, *config, pop@),
        decreases size - pop@.len(),
    {
        let ghost before = models::<D>(pop@);
        let genome = decoder.random_genome(config, rng);
        proof {
            decoder.valid_is_usable(*config, D::model(genome), D::model(genome));
        }
        let objective = decoder.eval(&genome);
        pop.push(Individual { genome, objective });
        assert(models::<D>(pop@) =~= before.push(D::model(genome)));
        assert(models::<D>(pop@) =~= all.take(room) + random_models(
            *decoder,
            *config,
            (pop@.len() - room) as nat,
            *old(rng),
        ).0);
    }
    pop
}

/// A pair of children, and the generator afterwards: two parents by tournament, crossed or
/// not; the first child changed.
pub open spec fn pair<D: GaDecoder>(
    d: D,
    config: GaConfig,
    pop: Seq<D::Model>,
    rng: Xoshiro256StarStar,
) -> ((D::Model, D::Model), Xoshiro256StarStar) {
    let g = model_grades(d, pop);
    let (i, r1) = tournament(g, config.tournament_size as nat, rng);
    let (j, r2) = tournament(g, config.tournament_size as nat, r1);
    let (children, r3) = if happens(r2, config.crossover_p) {
        d.crossed(pop[i], pop[j], after(r2))
    } else {
        ((pop[i], pop[j]), after(r2))
    };
    let (first, r4) = d.mutated(children.0, config, r3);
    ((first, children.1), r4)
}

/// Fills a population up to its size with children, two at a time; the second is changed only
/// where there is room for it.
pub open spec fn bred<D: GaDecoder>(
    d: D,
    config: GaConfig,
    pop: Seq<D::Model>,
    next: Seq<D::Model>,
    rng: Xoshiro256StarStar,
) -> (Seq<D::Model>, Xoshiro256StarStar)
    decreases config.pop_size - next.len(),
{
    if next.len() >= config.pop_size {
        (next, rng)
    } else {
        let (children, r1) = pair(d, config, pop, rng);
        let one = next.push(children.0);
        if one.len() < config.pop_size {
            let (second, r2) = d.mutated(children.1, config, r1);
            bred(d, config, pop, one.push(second), r2)
        } else {
            (one, r1)
        }
    }
}

/// The elite of a population.
pub open spec fn elite<D: GaDecoder>(d: D, pop: Seq<D::Model>, n: int) -> Seq<D::Model> {
    let order = by_grade(model_grades(d, pop));
    Seq::new(at_most(pop.len() as int, n) as nat, |i: int| pop[order[i] as int])
}

/// The state of a run: the population, the best individual seen, and the generator.
pub struct Run<M> {
    pub pop: Seq<M>,
    pub best: M,
    pub rng: Xoshiro256StarStar,
}

/// The best of a population, the first where several are as good.
pub open spec fn best_of<D: GaDecoder>(d: D, pop: Seq<D::Model>) -> D::Model {
    pop[best_index(model_grades(d, pop), pop.len())]
}

/// A run before its first generation.
pub open spec fn begun<D: GaDecoder>(d: D, config: GaConfig, rng: Xoshiro256StarStar) -> Run<
    D::Model,
> {
    let (pop, r) = first_population(d, config, config.pop_size as nat, rng);
    Run { pop, best: best_of(d, pop), rng: r }
}

/// One generation: the elite stays, children fill the rest.
pub open spec fn generation<D: GaDecoder>(d: D, config: GaConfig, run: Run<D::Model>) -> Run<
    D::Model,
> {
    let (pop, r) = bred(
        d,
        config,
        run.pop,
        elite(d, run.pop, config.elite_count as int),
        run.rng,
    );
    let b = best_of(d, pop);
    Run {
        pop,
        best: if d.objective(b).beats(d.objective(run.best)) {
            b
        } else {
            run.best
        },
        rng: r,
    }
}

/// A run after `n` generations.
pub open spec fn evolved<D: GaDecoder>(
    d: D,
    config: GaConfig,
    rng: Xoshiro256StarStar,
    n: nat,
) -> Run<D::Model>
    decreases n,
{
    if n == 0 {
        begun(d, config, rng)
    } else {
        generation(d, config, evolved(d, config, rng, (n - 1) as nat))
    }
}

/// A population under evolution, with the best individual seen.
pub struct Island<G> {
    pub pop: Vec<Individual<G>>,
    pub best: Individual<G>,
}

/// The island is sound and holds a population of the configured size.
pub open spec fn settled<D: GaDecoder>(d: D, config: GaConfig, island: Island<D::Genome>) -> bool {
    &&& sound(d, config, island.pop@)
    &&& island.pop@.len() == config.pop_size
    &&& d.valid(config, D::model(island.best.genome))
    &&& island.best.objective == d.objective(D::model(island.best.genome))
}

/// The run that an island is in, given its generator.
pub open spec fn run_of<D: GaDecoder>(island: Island<D::Genome>, rng: Xoshiro256StarStar) -> Run<
    D::Model,
> {
    Run { pop: models::<D>(island.pop@), best: D::model(island.best.genome), rng }
}

/// The grades that a sound population carries are those of what it says.
pub proof fn lemma_grades<D: GaDecoder>(d: D, config: GaConfig, pop: Seq<Individual<D::Genome>>)
    requires
        sound(d, config, pop),
    ensures
        grades(pop) == model_grades(d, models::<D>(pop)),
{
    assert(grades(pop) =~= model_grades(d, models::<D>(pop)));
}

fn best_position<G>(list: &[Individual<G>]) -> (r: usize)
    requires
        list@.len() > 0,
    ensures
        r == best_index(grades(list@), list@.len()),
        r < list@.len(),
{
    let mut best: usize = 0;
    let mut k: usize = 1;
    while k < list.len()
        invariant
            1 <= k <= list@.len(),
            best < k,
            best == best_index(grades(list@), k as nat),
        decreases list@.len() - k,
    {
        if list[k].objective.is_better(&list[best].objective) {
            best = k;
        }
        k += 1;
    }
    best
}

pub(crate) fn copy_individual<D: GaDecoder>(i: &Individual<D::Genome>) -> (r: Individual<D::Genome>)
    ensures
        D::model(r.genome) == D::model(i.genome),
        r.objective == i.objective,
{
    let genome = i.genome.clone();
    proof {
        D::clone_says_the_same(i.genome, genome);
    }
    Individual { genome, objective: i.objective }
}

/// An island before its first generation.
pub fn settle<D: GaDecoder>(decoder: &D, config: &GaConfig, rng: &mut Xoshiro256StarStar) -> (r:
    Island<D::Genome>)
    requires
        decoder.ready(*config),
        config.pop_size >= 1,
    ensures
        settled(*decoder, *config, r),
        run_of::<D>(r, *final(rng)) == begun(*decoder, *config, *old(rng)),
{
    let pop = init_population(decoder, config, config.pop_size, rng);
    proof {
        lemma_grades(*decoder, *config, pop@);
    }
    let b: usize = best_position(&pop);
    let best = copy_individual::<D>(&pop[b]);
    Island { pop, best }
}

/// Fills `next` up with children of `pop`.
fn breed<D: GaDecoder>(
    decoder: &D,
    config: &GaConfig,
    pop: &Vec<Individual<D::Genome>>,
    next: &mut Vec<Individual<D::Genome>>,
    rng: &mut Xoshiro256StarStar,
)
    requires
        decoder.ready(*config),
        sound(*decoder, *config, pop@),
        sound(*decoder, *config, old(next)@),
        old(next)@.len() <= config.pop_size,
        pop@.len() == config.pop_size,
        old(next)@.len() < config.pop_size ==> 1 <= config.tournament_size <= config.pop_size,
    ensures
        sound(*decoder, *config, final(next)@),
        final(next)@.len() == config.pop_size,
        (models::<D>(final(next)@), *final(rng)) == bred(
            *decoder,
            *config,
            models::<D>(pop@),
            models::<D>(old(next)@),
            *old(rng),
        ),
{
    let ghost ms = models::<D>(pop@);
    proof {
        lemma_grades(*decoder, *config, pop@);
    }
    while next.len() < config.pop_size
        invariant
            decoder.ready(*config),
            sound(*decoder, *config, pop@),
            sound(*decoder, *config, next@),
            next@.len() <= config.pop_size,
            pop@.len() == config.pop_size,
            next@.len() < config.pop_size ==> 1 <= config.tournament_size <= config.pop_size,
            ms == models::<D>(pop@),
            grades(pop@) == model_grades(*decoder, ms),
            bred(*decoder, *config, ms, models::<D>(next@), *rng) == bred(
                *decoder,
                *config,
                ms,
                models::<D>(old(next)@),
                *old(rng),
            ),
        decreases config.pop_size - next@.len(),
    {
        let ghost before = models::<D>(next@);
        let ghost rng0 = *rng;
        let i: usize = tournament_winner(pop, config.tournament_size, rng);
        let j: usize = tournament_winner(pop, config.tournament_size, rng);
        let p1 = &pop[i].genome;
        let p2 = &pop[j].genome;
        let (mut g1, mut g2) = if draw(rng, config.crossover_p) {
            proof {
                decoder.valid_is_usable(*config, D::model(*p1), D::model(*p2));
            }
            decoder.crossover(p1, p2, rng)
        } else {
            let (a, b) = (p1.clone(), p2.clone());
            proof {
                D::clone_says_the_same(*p1, a);
                D::clone_says_the_same(*p2, b);
            }
            (a, b)
        };
        decoder.mutate(&mut g1, config, rng);
        proof {
            decoder.valid_is_usable(*config, D::model(g1), D::model(g1));
        }
        let o1 = decoder.eval(&g1);
        let ghost children = pair(*decoder, *config, ms, rng0);
        assert(children == ((D::model(g1), D::model(g2)), *rng));
        let ghost m1 = D::model(g1);
        next.push(Individual { genome: g1, objective: o1 });
        assert(models::<D>(next@) =~= before.push(m1));
        if next.len() < config.pop_size {
            decoder.mutate(&mut g2, config, rng);
            proof {
                decoder.valid_is_usable(*config, D::model(g2), D::model(g2));
            }
            let o2 = decoder.eval(&g2);
            let ghost m2 = D::model(g2);
            next.push(Individual { genome: g2, objective: o2 });
            assert(models::<D>(next@) =~= before.push(m1).push(m2));
        }
    }
}

/// One generation of an island.
pub fn advance<D: GaDecoder>(
    decoder: &D,
    config: &GaConfig,
    island: &mut Island<D::Genome>,
    rng: &mut Xoshiro256StarStar,
)
    requires
        decoder.ready(*config),
        settled(*decoder, *config, *old(island)),
        config.pop_size >= 1,
        config.elite_count < config.pop_size ==> 1 <= config.tournament_size <= config.pop_size,
    ensures
        settled(*decoder, *config, *final(island)),
        run_of::<D>(*final(island), *final(rng)) == generation(
            *decoder,
            *config,
            run_of::<D>(*old(island), *old(rng)),
        ),
{
    proof {
        lemma_grades(*decoder, *config, island.pop@);
    }
    let ghost ms = models::<D>(island.pop@);
    let mut next = select_elite(&island.pop, config.elite_count);
    proof {
        let order = by_grade(grades(island.pop@));
        lemma_order_exists(GradeOrder { grades: grades(island.pop@) }, island.pop@.len());
        assert(in_order(GradeOrder { grades: grades(island.pop@) }, island.pop@.len(), order));
        assert forall|i: int| 0 <= i < next@.len() implies {
            &&& decoder.valid(*config, D::model((#[trigger] next@[i]).genome))
            &&& next@[i].objective == decoder.objective(D::model(next@[i].genome))
            &&& D::model(next@[i].genome) == ms[order[i] as int]
        } by {
            let k = order[i] as int;
            D::clone_says_the_same(island.pop@[k].genome, next@[i].genome);
            assert(decoder.valid(*config, D::model(island.pop@[k].genome)));
        }
        assert(models::<D>(next@) =~= elite(*decoder, ms, config.elite_count as int));
    }
    breed(decoder, config, &island.pop, &mut next, rng);
    proof {
        lemma_grades(*decoder, *config, next@);
    }
    let b: usize = best_position(&next);
    if next[b].objective.is_better(&island.best.objective) {
        island.best = copy_individual::<D>(&next[b]);
    }
    island.pop = next;
}

/// No individual of any generation beats the best that is kept.
pub proof fn law_best_is_kept<D: GaDecoder>(
    d: D,
    config: GaConfig,
    rng: Xoshiro256StarStar,
    k: nat,
    n: nat,
    i: int,
)
    requires
        k <= n,
        0 <= i < evolved(d, config, rng, k).pop.len(),
    ensures
        !d.objective(evolved(d, config, rng, k).pop[i]).beats(
            d.objective(evolved(d, config, rng, n).best),
        ),
    decreases n,
{
    let pop = evolved(d, config, rng, k).pop;
    let o = d.objective(pop[i]);
    if k == n {
        let g = model_grades(d, pop);
        law_best_index(g, pop.len(), i);
        assert(g[i] == o);
        assert(g[best_index(g, pop.len())] == d.objective(best_of(d, pop)));
    } else {
        law_best_is_kept(d, config, rng, k, (n - 1) as nat, i);
    }
}

/// The best that is kept never gets worse from one generation to a later one.
pub proof fn law_best_never_worse<D: GaDecoder>(
    d: D,
    config: GaConfig,
    rng: Xoshiro256StarStar,
    k: nat,
    n: nat,
)
    requires
        k <= n,
    ensures
        !d.objective(evolved(d, config, rng, k).best).beats(
            d.objective(evolved(d, config, rng, n).best),
        ),
    decreases n,
{
    if k < n {
        law_best_never_worse(d, config, rng, k, (n - 1) as nat);
    }
}

/// No genome that the first population begins with beats the best that is kept.
pub proof fn law_seeds_are_kept<D: GaDecoder>(
    d: D,
    config: GaConfig,
    rng: Xoshiro256StarStar,
    n: nat,
    i: int,
)
    requires
        0 <= i < d.seed_models(config).len(),
        i < config.pop_size,
    ensures
        !d.objective(d.seed_models(config)[i]).beats(
            d.objective(evolved(d, config, rng, n).best),
        ),
{
    assert(evolved(d, config, rng, 0).pop[i] == d.seed_models(config)[i]);
    law_best_is_kept(d, config, rng, 0, n, i);
}

/// The configurations differ in the number of generations only, and the decoder takes no notice
/// of it.
pub open spec fn alike<D: GaDecoder>(d: D, a: GaConfig, b: GaConfig) -> bool {
    &&& b == (GaConfig { iteration_count: b.iteration_count, ..a })
    &&& d.seed_models(a) == d.seed_models(b)
    &&& forall|rng: Xoshiro256StarStar| #[trigger]
        d.random_model(a, rng) == d.random_model(b, rng)
    &&& forall|m: D::Model, rng: Xoshiro256StarStar| #[trigger]
        d.mutated(m, a, rng) == d.mutated(m, b, rng)
}

proof fn lemma_random_alike<D: GaDecoder>(
    d: D,
    a: GaConfig,
    b: GaConfig,
    n: nat,
    rng: Xoshiro256StarStar,
)
    requires
        alike(d, a, b),
    ensures
        random_models(d, a, n, rng) == random_models(d, b, n, rng),
    decreases n,
{
    if n > 0 {
        lemma_random_alike(d, a, b, (n - 1) as nat, rng);
        let r = random_models(d, a, (n - 1) as nat, rng).1;
        assert(d.random_model(a, r) == d.random_model(b, r));
    }
}

proof fn lemma_bred_alike<D: GaDecoder>(
    d: D,
    a: GaConfig,
    b: GaConfig,
    pop: Seq<D::Model>,
    next: Seq<D::Model>,
    rng: Xoshiro256StarStar,
)
    requires
        alike(d, a, b),
    ensures
        bred(d, a, pop, next, rng) == bred(d, b, pop, next, rng),
    decreases a.pop_size - next.len(),
{
    if next.len() < a.pop_size {
        let (children, r1) = pair(d, a, pop, rng);
        assert(pair(d, a, pop, rng) == pair(d, b, pop, rng));
        let one = next.push(children.0);
        if one.len() < a.pop_size {
            assert(d.mutated(children.1, a, r1) == d.mutated(children.1, b, r1));
            let (second, r2) = d.mutated(children.1, a, r1);
            lemma_bred_alike(d, a, b, pop, one.push(second), r2);
        }
    }
}

proof fn lemma_evolved_alike<D: GaDecoder>(
    d: D,
    a: GaConfig,
    b: GaConfig,
    rng: Xoshiro256StarStar,
    n: nat,
)
    requires
        alike(d, a, b),
    ensures
        evolved(d, a, rng, n) == evolved(d, b, rng, n),
    decreases n,
{
    if n == 0 {
        let k = at_most(d.seed_models(a).len() as int, a.pop_size as int);
        lemma_random_alike(d, a, b, (a.pop_size - k) as nat, rng);
    } else {
        lemma_evolved_alike(d, a, b, rng, (n - 1) as nat);
        let run = evolved(d, a, rng, (n - 1) as nat);
        lemma_bred_alike(
            d,
            a,
            b,
            run.pop,
            elite(d, run.pop, a.elite_count as int),
            run.rng,
        );
    }
}

/// From the same state of the generator, a run with more generations is never worse.
pub proof fn law_longer_run_is_no_worse<D: GaDecoder>(
    d: D,
    a: GaConfig,
    b: GaConfig,
    rng: Xoshiro256StarStar,
)
    requires
        alike(d, a, b),
        a.iteration_count <= b.iteration_count,
    ensures
        !d.objective(evolved(d, a, rng, a.iteration_count as nat).best).beats(
            d.objective(evolved(d, b, rng, b.iteration_count as nat).best),
        ),
{
    lemma_evolved_alike(d, a, b, rng, a.iteration_count as nat);
    law_best_never_worse(d, b, rng, a.iteration_count as nat, b.iteration_count as nat);
}

/// With an elite, the next generation holds an individual as good as any of this one.
pub proof fn law_elite_survives<D: GaDecoder>(d: D, config: GaConfig, run: Run<D::Model>, i: int)
    requires
        1 <= config.elite_count,
        1 <= run.pop.len() <= config.pop_size,
        0 <= i < run.pop.len(),
    ensures
        generation(d, config, run).pop.len() >= 1,
        !d.objective(run.pop[i]).beats(d.objective(generation(d, config, run).pop[0])),
{
    let g = model_grades(d, run.pop);
    let rank = GradeOrder { grades: g };
    lemma_order_exists(rank, g.len());
    let s = by_grade(g);
    assert(in_order(rank, g.len(), s));
    let e = elite(d, run.pop, config.elite_count as int);
    lemma_bred_keeps(d, config, run.pop, e, run.rng);
    assert(e[0] == run.pop[s[0] as int]);
    crate::sorting::lemma_in_order_all(rank, g.len(), s, i as usize);
    let k = choose|k: int| 0 <= k < s.len() && s[k] == i;
    if k > 0 {
        assert(crate::sorting::precedes(rank, s[0] as int, s[k] as int));
    }
    assert(g[i] == d.objective(run.pop[i]));
    assert(g[s[0] as int] == d.objective(run.pop[s[0] as int]));
}

/// Breeding keeps those that are there already.
proof fn lemma_bred_keeps<D: GaDecoder>(
    d: D,
    config: GaConfig,
    pop: Seq<D::Model>,
    next: Seq<D::Model>,
    rng: Xoshiro256StarStar,
)
    ensures
        bred(d, config, pop, next, rng).0.len() >= next.len(),
        forall|i: int|
            0 <= i < next.len() ==> #[trigger] bred(d, config, pop, next, rng).0[i] == next[i],
    decreases config.pop_size - next.len(),
{
    if next.len() < config.pop_size {
        let (children, r1) = pair(d, config, pop, rng);
        let one = next.push(children.0);
        if one.len() < config.pop_size {
            let (second, r2) = d.mutated(children.1, config, r1);
            let two = one.push(second);
            lemma_bred_keeps(d, config, pop, two, r2);
            assert forall|i: int| 0 <= i < next.len() implies #[trigger] bred(
                d,
                config,
                pop,
                next,
                rng,
            ).0[i] == next[i] by {
                assert(bred(d, config, pop, two, r2).0[i] == two[i]);
            }
        }
    }
}

/// What an island does after a generation.
#[derive(Debug, Clone, Copy, PartialEq, Eq, Structural)]
pub enum Pause {
    /// Goes on.
    Go,
    /// Reports its own best, then goes on unless it was asked to stop.
    Report,
    /// Exchanges its best with the other islands, then goes on unless it was asked to stop.
    Exchange,
}

/// What an island does after generation number `generation`, counted from 1. Islands that
/// exchange report only when they do; with one island, or an interval of 0, there is no
/// exchange.
pub open spec fn pause_after(
    generation: int,
    islands: int,
    progress_interval: int,
    migration_interval: int,
) -> Pause {
    if migration_interval > 0 && islands > 1 {
        if generation % migration_interval == 0 {
            Pause::Exchange
        } else {
            Pause::Go
        }
    } else if progress_interval > 0 && generation % progress_interval == 0 {
        Pause::Report
    } else {
        Pause::Go
    }
}

/// What an island does after a generation.
pub fn next_pause(
    generation: usize,
    islands: usize,
    progress_interval: usize,
    migration_interval: usize,
) -> (r: Pause)
    ensures
        r == pause_after(
            generation as int,
            islands as int,
            progress_interval as int,
            migration_interval as int,
        ),
{
    if migration_interval > 0 && islands > 1 {
        if generation % migration_interval == 0 {
            Pause::Exchange
        } else {
            Pause::Go
        }
    } else if progress_interval > 0 && generation % progress_interval == 0 {
        Pause::Report
    } else {
        Pause::Go
    }
}

/// Whether an island writes its best into its slot: the slot is empty or holds a worse one.
pub fn offers<G>(best: &Individual<G>, slot: &Option<Individual<G>>) -> (r: bool)
    ensures
        r == (match *slot {
            Some(held) => best.objective.beats(held.objective),
            None => true,
        }),
{
    match slot {
        Some(held) => best.objective.is_better(&held.objective),
        None => true,
    }
}

/// The slot with the best individual among the first `n`, the first where several are as good.
pub open spec fn best_slot<G>(slots: Seq<Option<Individual<G>>>, n: nat) -> Option<int>
    decreases n,
{
    if n == 0 {
        None
    } else {
        let b = best_slot(slots, (n - 1) as nat);
        match slots[n - 1] {
            Some(held) => match b {
                Some(i) if !held.objective.beats(slots[i]->0.objective) => b,
                _ => Some(n - 1),
            },
            None => b,
        }
    }
}

/// The slot of the best individual of all islands.
pub fn global_best<G>(slots: &Vec<Option<Individual<G>>>) -> (r: Option<usize>)
    ensures
        match r {
            Some(i) => {
                &&& i < slots@.len()
                &&& slots@[i as int] is Some
                &&& best_slot(slots@, slots@.len()) == Some(i as int)
            },
            None => best_slot(slots@, slots@.len()) is None,
        },
{
    let mut best: Option<usize> = None;
    let mut k: usize = 0;
    while k < slots.len()
        invariant
            k <= slots@.len(),
            match best {
                Some(i) => {
                    &&& i < k
                    &&& slots@[i as int] is Some
                    &&& best_slot(slots@, k as nat) == Some(i as int)
                },
                None => best_slot(slots@, k as nat) is None,
            },
        decreases slots@.len() - k,
    {
        if let Some(held) = &slots[k] {
            match best {
                Some(i) => {
                    if let Some(other) = &slots[i] {
                        if held.objective.is_better(&other.objective) {
                            best = Some(k);
                        }
                    }
                },
                None => {
                    best = Some(k);
                },
            }
        }
        k += 1;
    }
    best
}

/// No slot holds an individual that beats the one in the best slot.
pub proof fn law_best_slot<G>(slots: Seq<Option<Individual<G>>>, n: nat, i: int)
    requires
        0 <= i < n <= slots.len(),
        slots[i] is Some,
    ensures
        best_slot(slots, n) is Some,
        0 <= best_slot(slots, n)->0 < n,
        slots[best_slot(slots, n)->0] is Some,
        !slots[i]->0.objective.beats(slots[best_slot(slots, n)->0]->0.objective),
    decreases n,
{
    lemma_best_slot(slots, (n - 1) as nat);
    if i < n - 1 {
        law_best_slot(slots, (n - 1) as nat, i);
    }
}

proof fn lemma_best_slot<G>(slots: Seq<Option<Individual<G>>>, n: nat)
    requires
        n <= slots.len(),
    ensures
        best_slot(slots, n) is Some ==> 0 <= best_slot(slots, n)->0 < n && slots[best_slot(
            slots,
            n,
        )->0] is Some,
    decreases n,
{
    if n > 0 {
        lemma_best_slot(slots, (n - 1) as nat);
    }
}

/// The worst individual among the first `n`, the last where several are as bad.
pub open spec fn worst_index(grades: Seq<Objective>, n: nat) -> int
    decreases n,
{
    if n <= 1 {
        0
    } else {
        let w = worst_index(grades, (n - 1) as nat);
        if grades[n - 1].beats(grades[w]) {
            w
        } else {
            n - 1
        }
    }
}

/// The worst individual beats none, and all behind it beat it.
pub proof fn law_worst_index(grades: Seq<Objective>, n: nat, c: int)
    requires
        0 <= c < n <= grades.len(),
    ensures
        0 <= worst_index(grades, n) < n,
        !grades[worst_index(grades, n)].beats(grades[c]),
        c > worst_index(grades, n) ==> grades[c].beats(grades[worst_index(grades, n)]),
    decreases n,
{
    if n > 1 {
        law_worst_index(grades, (n - 1) as nat, 0);
        if c < n - 1 {
            law_worst_index(grades, (n - 1) as nat, c);
        }
    }
}

/// A population that an individual has come into: it takes the place of the worst one where it
/// beats that.
pub open spec fn immigrated<D: GaDecoder>(d: D, pop: Seq<D::Model>, m: D::Model) -> Seq<D::Model> {
    let w = worst_index(model_grades(d, pop), pop.len());
    if d.objective(m).beats(d.objective(pop[w])) {
        pop.update(w, m)
    } else {
        pop
    }
}

/// Takes the best individual of all islands into the population.
pub fn immigrate<D: GaDecoder>(
    decoder: &D,
    config: &GaConfig,
    island: &mut Island<D::Genome>,
    newcomer: &Individual<D::Genome>,
)
    requires
        settled(*decoder, *config, *old(island)),
        config.pop_size >= 1,
        decoder.valid(*config, D::model(newcomer.genome)),
        newcomer.objective == decoder.objective(D::model(newcomer.genome)),
    ensures
        settled(*decoder, *config, *final(island)),
        final(island).best == old(island).best,
        models::<D>(final(island).pop@) == immigrated(
            *decoder,
            models::<D>(old(island).pop@),
            D::model(newcomer.genome),
        ),
{
    proof {
        lemma_grades(*decoder, *config, island.pop@);
    }
    let ghost before = models::<D>(island.pop@);
    let ghost g = grades(island.pop@);
    let mut worst: usize = 0;
    let mut k: usize = 1;
    while k < island.pop.len()
        invariant
            1 <= k <= island.pop@.len(),
            worst < k,
            g == grades(island.pop@),
            worst == worst_index(g, k as nat),
        decreases island.pop@.len() - k,
    {
        if !island.pop[k].objective.is_better(&island.pop[worst].objective) {
            worst = k;
        }
        k += 1;
    }
    assert(g[worst as int] == decoder.objective(before[worst as int]));
    if newcomer.objective.is_better(&island.pop[worst].objective) {
        let guest = copy_individual::<D>(newcomer);
        island.pop.set(worst, guest);
        assert(models::<D>(island.pop@) =~= before.update(
            worst as int,
            D::model(newcomer.genome),
        ));
    }
}

/// The results of the islands from the best on.
pub fn rank_results<G: Clone>(results: &Vec<(u64, Individual<G>)>) -> (r: Vec<(u64, Individual<G>)>)
    ensures
        r@.len() == results@.len(),
        forall|i: int|
            0 <= i < r@.len() ==> {
                let from = results@[by_grade(result_grades(results@))[i] as int];
                &&& (#[trigger] r@[i]).0 == from.0
                &&& r@[i].1.objective == from.1.objective
                &&& cloned(from.1.genome, r@[i].1.genome)
            },
{
    let ranking = ResultRanking { list: results };
    let order = ranked(&ranking, results.len());
    let mut out: Vec<(u64, Individual<G>)> = Vec::new();
    while out.len() < results.len()
        invariant
            out@.len() <= results@.len(),
            order@ == by_grade(result_grades(results@)),
            order@.len() == results@.len(),
            forall|i: int| 0 <= i < order@.len() ==> #[trigger] order@[i] < results@.len(),
            forall|i: int|
                0 <= i < out@.len() ==> {
                    let from = results@[by_grade(result_grades(results@))[i] as int];
                    &&& (#[trigger] out@[i]).0 == from.0
                    &&& out@[i].1.objective == from.1.objective
                    &&& cloned(from.1.genome, out@[i].1.genome)
                },
        decreases results@.len() - out@.len(),
    {
        let k: usize = order[out.len()];
        let genome = results[k].1.genome.clone();
        out.push((results[k].0, Individual { genome, objective: results[k].1.objective }));
    }
    out
}

/// The objectives of the results of islands.
pub open spec fn result_grades<G>(list: Seq<(u64, Individual<G>)>) -> Seq<Objective> {
    Seq::new(list.len(), |i: int| list[i].1.objective)
}

struct ResultRanking<'a, G> {
    list: &'a Vec<(u64, Individual<G>)>,
}

impl<'a, G> Ranking for ResultRanking<'a, G> {
    type Of = GradeOrder;

    closed spec fn order(&self) -> GradeOrder {
        GradeOrder { grades: result_grades(self.list@) }
    }

    fn at_most(&self, a: usize, b: usize) -> (r: bool) {
        !self.list[b].1.objective.is_better(&self.list[a].1.objective)
    }
}

/// Runs the algorithm for the configured number of generations and returns the best individual
/// found.
pub fn run_ga<D: GaDecoder>(decoder: &D, config: &GaConfig, rng: &mut Xoshiro256StarStar) -> (r:
    Individual<D::Genome>)
    requires
        decoder.ready(*config),
        config.runnable(),
    ensures
        ({
            let run = evolved(*decoder, *config, *old(rng), config.iteration_count as nat);
            &&& D::model(r.genome) == run.best
            &&& *final(rng) == run.rng
        }),
        decoder.valid(*config, D::model(r.genome)),
        r.objective == decoder.objective(D::model(r.genome)),
{
    let mut island = settle(decoder, config, rng);
    let mut step: usize = 0;
    while step < config.iteration_count
        invariant
            step <= config.iteration_count,
            decoder.ready(*config),
            config.runnable(),
            settled(*decoder, *config, island),
            run_of::<D>(island, *rng) == evolved(*decoder, *config, *old(rng), step as nat),
        decreases config.iteration_count - step,
    {
        advance(decoder, config, &mut island, rng);
        step += 1;
    }
    island.best
}

} // verus!
