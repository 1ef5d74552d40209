//! Several populations that evolve side by side and share their best individuals.
//!
//! Islands meet only at an exchange, so what they come to does not depend on the order in which
//! they are advanced between two exchanges: the outcome is a function of the decoder, the
//! configuration and the seeds.

use rand_xoshiro::Xoshiro256StarStar;
use vstd::prelude::*;

use crate::ga::{
    advance, begun, best_slot, by_grade, generation, global_best, immigrate, immigrated,
    law_elite_is_best, model_grades, next_pause, offers, pause_after, rank_results, result_grades,
    run_of, settle, settled, GaConfig, GaDecoder, Individual, Island, Pause, Run,
};
use crate::rng::{from_seed, next_u64, seeded};
use crate::score::best_index;

verus! {

/// The islands and what each of them has offered at exchanges.
pub struct Colony<M> {
    pub runs: Seq<Run<M>>,
    pub offered: Seq<Option<M>>,
}

/// Islands before their first generation.
pub open spec fn colony_begun<D: GaDecoder>(d: D, config: GaConfig, seeds: Seq<u64>) -> Colony<
    D::Model,
> {
    Colony {
        runs: Seq::new(seeds.len(), |i: int| begun(d, config, seeded(seeds[i]))),
        offered: Seq::new(seeds.len(), |i: int| None),
    }
}

/// What an island offers: its best, unless what it offered before is as good.
pub open spec fn offer<D: GaDecoder>(d: D, run: Run<D::Model>, before: Option<D::Model>) -> D::Model {
    match before {
        Some(m) => if d.objective(run.best).beats(d.objective(m)) {
            run.best
        } else {
            m
        },
        None => run.best,
    }
}

/// What the islands offer.
pub open spec fn offers_of<D: GaDecoder>(d: D, c: Colony<D::Model>) -> Seq<D::Model> {
    Seq::new(c.runs.len(), |i: int| offer(d, c.runs[i], c.offered[i]))
}

/// The best that is offered, of the first island where several are as good.
pub open spec fn shared<D: GaDecoder>(d: D, c: Colony<D::Model>) -> D::Model {
    let list = offers_of(d, c);
    list[best_index(model_grades(d, list), list.len())]
}

/// A run into whose population an individual has come.
pub open spec fn joined<D: GaDecoder>(d: D, run: Run<D::Model>, m: D::Model) -> Run<D::Model> {
    Run { pop: immigrated(d, run.pop, m), best: run.best, rng: run.rng }
}

/// An exchange: the best that is offered comes into every population.
pub open spec fn exchanged<D: GaDecoder>(d: D, c: Colony<D::Model>) -> Colony<D::Model> {
    Colony {
        runs: Seq::new(c.runs.len(), |i: int| joined(d, c.runs[i], shared(d, c))),
        offered: Seq::new(c.runs.len(), |i: int| Some(offers_of(d, c)[i])),
    }
}

/// One generation of every island.
pub open spec fn colony_generation<D: GaDecoder>(
    d: D,
    config: GaConfig,
    c: Colony<D::Model>,
) -> Colony<D::Model> {
    Colony {
        runs: Seq::new(c.runs.len(), |i: int| generation(d, config, c.runs[i])),
        offered: c.offered,
    }
}

/// The islands after `n` generations, with an exchange at each multiple of the interval.
pub open spec fn colony_evolved<D: GaDecoder>(
    d: D,
    config: GaConfig,
    seeds: Seq<u64>,
    interval: int,
    n: nat,
) -> Colony<D::Model>
    decreases n,
{
    if n == 0 {
        colony_begun(d, config, seeds)
    } else {
        let c = colony_generation(
            d,
            config,
            colony_evolved(d, config, seeds, interval, (n - 1) as nat),
        );
        if pause_after(n as int, seeds.len() as int, 0, interval) == Pause::Exchange {
            exchanged(d, c)
        } else {
            c
        }
    }
}

/// The runs that islands are in.
pub open spec fn runs_of<D: GaDecoder>(
    islands: Seq<Island<D::Genome>>,
    rngs: Seq<Xoshiro256StarStar>,
) -> Seq<Run<D::Model>> {
    Seq::new(islands.len(), |i: int| run_of::<D>(islands[i], rngs[i]))
}

/// What the slots of the islands say.
pub open spec fn slots_of<D: GaDecoder>(slots: Seq<Option<Individual<D::Genome>>>) -> Seq<
    Option<D::Model>,
> {
    Seq::new(
        slots.len(),
        |i: int|
            match slots[i] {
                Some(held) => Some(D::model(held.genome)),
                None => None,
            },
    )
}

/// Every island is settled and every slot holds a valid individual with its own objective.
pub open spec fn in_place<D: GaDecoder>(
    d: D,
    config: GaConfig,
    islands: Seq<Island<D::Genome>>,
    slots: Seq<Option<Individual<D::Genome>>>,
) -> bool {
    &&& slots.len() == islands.len()
    &&& forall|i: int| 0 <= i < islands.len() ==> settled(d, config, #[trigger] islands[i])
    &&& forall|i: int|
        0 <= i < slots.len() ==> match #[trigger] slots[i] {
            Some(held) => {
                &&& d.valid(config, D::model(held.genome))
                &&& held.objective == d.objective(D::model(held.genome))
            },
            None => true,
        }
}

/// Advances every island by one generation.
fn advance_all<D: GaDecoder>(
    decoder: &D,
    config: &GaConfig,
    islands: &mut Vec<Island<D::Genome>>,
    rngs: &mut Vec<Xoshiro256StarStar>,
)
    requires
        decoder.ready(*config),
        config.pop_size >= 1,
        config.elite_count < config.pop_size ==> 1 <= config.tournament_size <= config.pop_size,
        old(rngs)@.len() == old(islands)@.len(),
        forall|i: int|
            0 <= i < old(islands)@.len() ==> settled(
                *decoder,
                *config,
                #[trigger] old(islands)@[i],
            ),
    ensures
        final(islands)@.len() == old(islands)@.len(),
        final(rngs)@.len() == old(rngs)@.len(),
        forall|i: int|
            0 <= i < final(islands)@.len() ==> settled(
                *decoder,
                *config,
                #[trigger] final(islands)@[i],
            ),
        forall|i: int|
            0 <= i < final(islands)@.len() ==> run_of::<D>(
                #[trigger] final(islands)@[i],
                final(rngs)@[i],
            ) == generation(*decoder, *config, run_of::<D>(old(islands)@[i], old(rngs)@[i])),
{
    let n: usize = islands.len();
    let mut k: usize = 0;
    while k < n
        invariant
            k <= n,
            n == islands@.len(),
            n == rngs@.len(),
            old(islands)@.len() == n,
            old(rngs)@.len() == n,
            decoder.ready(*config),
            config.pop_size >= 1,
            config.elite_count < config.pop_size ==> 1 <= config.tournament_size
                <= config.pop_size,
            forall|i: int|
                0 <= i < n ==> settled(*decoder, *config, #[trigger] islands@[i]),
            forall|i: int|
                0 <= i < k ==> run_of::<D>(#[trigger] islands@[i], rngs@[i]) == generation(
                    *decoder,
                    *config,
                    run_of::<D>(old(islands)@[i], old(rngs)@[i]),
                ),
            forall|i: int| k <= i < n ==> #[trigger] islands@[i] == old(islands)@[i],
            forall|i: int| k <= i < n ==> #[trigger] rngs@[i] == old(rngs)@[i],
        decreases n - k,
    {
        assert(islands@[k as int] == old(islands)@[k as int]);
        assert(rngs@[k as int] == old(rngs)@[k as int]);
        advance(decoder, config, &mut islands[k], &mut rngs[k]);
        k += 1;
    }
}

/// Full slots name the same best as a list does.
proof fn lemma_best_slot<D: GaDecoder>(
    d: D,
    slots: Seq<Option<Individual<D::Genome>>>,
    list: Seq<D::Model>,
    n: nat,
)
    requires
        n <= slots.len(),
        slots.len() == list.len(),
        forall|i: int|
            0 <= i < slots.len() ==> (#[trigger] slots[i]) is Some && slots[i]->0.objective
                == d.objective(list[i]),
    ensures
        n > 0 ==> best_slot(slots, n) == Some(best_index(model_grades(d, list), n)),
        n > 0 ==> 0 <= best_index(model_grades(d, list), n) < n,
        n == 0 ==> best_slot(slots, n) is None,
    decreases n,
{
    if n > 0 {
        lemma_best_slot(d, slots, list, (n - 1) as nat);
        assert(slots[n - 1] is Some);
        if n > 1 {
            let b = best_index(model_grades(d, list), (n - 1) as nat);
            assert(slots[b] is Some);
        }
    }
}

/// The colony that islands with their slots are.
pub open spec fn colony_of<D: GaDecoder>(
    islands: Seq<Island<D::Genome>>,
    rngs: Seq<Xoshiro256StarStar>,
    slots: Seq<Option<Individual<D::Genome>>>,
) -> Colony<D::Model> {
    Colony { runs: runs_of::<D>(islands, rngs), offered: slots_of::<D>(slots) }
}

/// Every island writes its best into its slot unless that holds one as good.
fn offer_all<D: GaDecoder>(
    decoder: &D,
    config: &GaConfig,
    islands: &Vec<Island<D::Genome>>,
    slots: &mut Vec<Option<Individual<D::Genome>>>,
    Ghost(rngs): Ghost<Seq<Xoshiro256StarStar>>,
)
    requires
        in_place(*decoder, *config, islands@, old(slots)@),
        rngs.len() == islands@.len(),
    ensures
        in_place(*decoder, *config, islands@, final(slots)@),
        forall|i: int|
            0 <= i < final(slots)@.len() ==> {
                &&& (#[trigger] final(slots)@[i]) is Some
                &&& D::model(final(slots)@[i]->0.genome) == offers_of(
                    *decoder,
                    colony_of::<D>(islands@, rngs, old(slots)@),
                )[i]
            },
{
    let n: usize = islands.len();
    let ghost c = colony_of::<D>(islands@, rngs, slots@);
    let mut k: usize = 0;
    while k < n
        invariant
            k <= n,
            n == islands@.len(),
            n == rngs.len(),
            n == old(slots)@.len(),
            c == colony_of::<D>(islands@, rngs, old(slots)@),
            in_place(*decoder, *config, islands@, slots@),
            forall|i: int|
                0 <= i < k ==> {
                    &&& (#[trigger] slots@[i]) is Some
                    &&& D::model(slots@[i]->0.genome) == offers_of(*decoder, c)[i]
                },
            forall|i: int| k <= i < n ==> #[trigger] slots@[i] == old(slots)@[i],
        decreases n - k,
    {
        assert(slots@[k as int] == old(slots)@[k as int]);
        assert(settled(*decoder, *config, islands@[k as int]));
        assert(c.runs[k as int].best == D::model(islands@[k as int].best.genome));
        assert(offers_of(*decoder, c)[k as int] == offer(
            *decoder,
            c.runs[k as int],
            c.offered[k as int],
        ));
        if offers(&islands[k].best, &slots[k]) {
            let mine = crate::ga::copy_individual::<D>(&islands[k].best);
            slots.set(k, Some(mine));
        }
        k += 1;
    }
}

/// An exchange between islands.
fn exchange<D: GaDecoder>(
    decoder: &D,
    config: &GaConfig,
    islands: &mut Vec<Island<D::Genome>>,
    slots: &mut Vec<Option<Individual<D::Genome>>>,
    Ghost(rngs): Ghost<Seq<Xoshiro256StarStar>>,
)
    requires
        config.pop_size >= 1,
        in_place(*decoder, *config, old(islands)@, old(slots)@),
        rngs.len() == old(islands)@.len(),
        old(islands)@.len() > 0,
    ensures
        final(islands)@.len() == old(islands)@.len(),
        in_place(*decoder, *config, final(islands)@, final(slots)@),
        colony_of::<D>(final(islands)@, rngs, final(slots)@) == exchanged(
            *decoder,
            colony_of::<D>(old(islands)@, rngs, old(slots)@),
        ),
{
    let ghost c = colony_of::<D>(islands@, rngs, slots@);
    let ghost start = islands@;
    offer_all(decoder, config, islands, slots, Ghost(rngs));
    let ghost list = offers_of(*decoder, c);
    proof {
        assert forall|i: int| 0 <= i < slots@.len() implies (#[trigger] slots@[i]) is Some
            && slots@[i]->0.objective == decoder.objective(list[i]) by {}
        lemma_best_slot(*decoder, slots@, list, slots@.len());
    }
    let found = global_best(slots);
    if let Some(at) = found {
        if let Some(newcomer) = &slots[at] {
            assert(D::model(newcomer.genome) == list[at as int]);
            assert(list[at as int] == shared(*decoder, c));
            let n: usize = islands.len();
            let mut k: usize = 0;
            while k < n
                invariant
                    k <= n,
                    n == islands@.len(),
                    n == start.len(),
                    n == rngs.len(),
                    config.pop_size >= 1,
                    decoder.valid(*config, D::model(newcomer.genome)),
                    newcomer.objective == decoder.objective(D::model(newcomer.genome)),
                    D::model(newcomer.genome) == shared(*decoder, c),
                    forall|i: int|
                        0 <= i < n ==> settled(*decoder, *config, #[trigger] islands@[i]),
                    forall|i: int|
                        0 <= i < k ==> run_of::<D>(#[trigger] islands@[i], rngs[i]) == joined(
                            *decoder,
                            run_of::<D>(start[i], rngs[i]),
                            shared(*decoder, c),
                        ),
                    forall|i: int| k <= i < n ==> #[trigger] islands@[i] == start[i],
                decreases n - k,
            {
                assert(islands@[k as int] == start[k as int]);
                immigrate(decoder, config, &mut islands[k], newcomer);
                k += 1;
            }
        }
    }
    proof {
        let after = exchanged(*decoder, c);
        assert(slots_of::<D>(slots@) =~= after.offered);
        assert(runs_of::<D>(islands@, rngs) =~= after.runs);
    }
}

/// The results of a colony from the best on.
pub open spec fn colony_results<D: GaDecoder>(
    d: D,
    seeds: Seq<u64>,
    c: Colony<D::Model>,
    i: int,
) -> (u64, D::Model) {
    let k = by_grade(model_grades(d, bests(c)))[i] as int;
    (seeds[k], c.runs[k].best)
}

/// The best individuals of the islands.
pub open spec fn bests<M>(c: Colony<M>) -> Seq<M> {
    Seq::new(c.runs.len(), |i: int| c.runs[i].best)
}

/// Runs one island for each seed, with an exchange every `migration_interval` generations
/// unless that is 0, and returns the best individual of each with its seed, from the best on.
pub fn run_ga_mt<D: GaDecoder>(
    decoder: &D,
    config: &GaConfig,
    seeds: &Vec<u64>,
    migration_interval: usize,
) -> (r: Vec<(u64, Individual<D::Genome>)>)
    requires
        decoder.ready(*config),
        config.runnable(),
    ensures
        r@.len() == seeds@.len(),
        forall|i: int|
            0 <= i < r@.len() ==> {
                &&& ((#[trigger] r@[i]).0, D::model(r@[i].1.genome)) == colony_results(
                    *decoder,
                    seeds@,
                    colony_evolved(
                        *decoder,
                        *config,
                        seeds@,
                        migration_interval as int,
                        config.iteration_count as nat,
                    ),
                    i,
                )
                &&& decoder.valid(*config, D::model(r@[i].1.genome))
                &&& r@[i].1.objective == decoder.objective(D::model(r@[i].1.genome))
            },
{
    let n: usize = seeds.len();
    let mut islands: Vec<Island<D::Genome>> = Vec::new();
    let mut rngs: Vec<Xoshiro256StarStar> = Vec::new();
    let mut slots: Vec<Option<Individual<D::Genome>>> = Vec::new();
    while islands.len() < n
        invariant
            n == seeds@.len(),
            islands@.len() <= n,
            rngs@.len() == islands@.len(),
            in_place(*decoder, *config, islands@, slots@),
            decoder.ready(*config),
            config.runnable(),
            forall|i: int| 0 <= i < slots@.len() ==> (#[trigger] slots@[i]) is None,
            forall|i: int|
                0 <= i < islands@.len() ==> run_of::<D>(#[trigger] islands@[i], rngs@[i])
                    == begun(*decoder, *config, seeded(seeds@[i])),
        decreases n - islands@.len(),
    {
        let mut rng = from_seed(seeds[islands.len()]);
        let island = settle(decoder, config, &mut rng);
        islands.push(island);
        rngs.push(rng);
        slots.push(None);
    }
    proof {
        let c = colony_begun(*decoder, *config, seeds@);
        assert(runs_of::<D>(islands@, rngs@) =~= c.runs);
        assert(slots_of::<D>(slots@) =~= c.offered);
    }
    let mut step: usize = 0;
    while step < config.iteration_count
        invariant
            step <= config.iteration_count,
            n == seeds@.len(),
            islands@.len() == n,
            rngs@.len() == n,
            in_place(*decoder, *config, islands@, slots@),
            decoder.ready(*config),
            config.runnable(),
            colony_of::<D>(islands@, rngs@, slots@) == colony_evolved(
                *decoder,
                *config,
                seeds@,
                migration_interval as int,
                step as nat,
            ),
        decreases config.iteration_count - step,
    {
        let ghost c = colony_of::<D>(islands@, rngs@, slots@);
        let ghost before = islands@;
        let ghost states = rngs@;
        advance_all(decoder, config, &mut islands, &mut rngs);
        step += 1;
        proof {
            let next = colony_generation(*decoder, *config, c);
            assert forall|i: int| 0 <= i < n implies runs_of::<D>(islands@, rngs@)[i]
                == next.runs[i] by {
                assert(run_of::<D>(islands@[i], rngs@[i]) == generation(
                    *decoder,
                    *config,
                    run_of::<D>(before[i], states[i]),
                ));
                assert(c.runs[i] == run_of::<D>(before[i], states[i]));
            }
            assert(runs_of::<D>(islands@, rngs@) =~= next.runs);
        }
        if next_pause(step, n, 0, migration_interval) == Pause::Exchange {
            exchange(decoder, config, &mut islands, &mut slots, Ghost(rngs@));
        }
    }
    let ghost c = colony_of::<D>(islands@, rngs@, slots@);
    let mut results: Vec<(u64, Individual<D::Genome>)> = Vec::new();
    while results.len() < n
        invariant
            n == seeds@.len(),
            islands@.len() == n,
            rngs@.len() == n,
            results@.len() <= n,
            in_place(*decoder, *config, islands@, slots@),
            c == colony_of::<D>(islands@, rngs@, slots@),
            forall|i: int|
                0 <= i < results@.len() ==> {
                    &&& (#[trigger] results@[i]).0 == seeds@[i]
                    &&& D::model(results@[i].1.genome) == c.runs[i].best
                    &&& decoder.valid(*config, c.runs[i].best)
                    &&& results@[i].1.objective == decoder.objective(c.runs[i].best)
                },
        decreases n - results@.len(),
    {
        let k: usize = results.len();
        assert(settled(*decoder, *config, islands@[k as int]));
        let best = crate::ga::copy_individual::<D>(&islands[k].best);
        results.push((seeds[k], best));
    }
    let r = rank_results(&results);
    proof {
        let g = model_grades(*decoder, bests(c));
        assert(result_grades(results@) =~= g);
        assert forall|i: int| 0 <= i < r@.len() implies {
            &&& ((#[trigger] r@[i]).0, D::model(r@[i].1.genome)) == colony_results(
                *decoder,
                seeds@,
                c,
                i,
            )
            &&& decoder.valid(*config, D::model(r@[i].1.genome))
            &&& r@[i].1.objective == decoder.objective(D::model(r@[i].1.genome))
        } by {
            crate::ga::lemma_by_grade(g, i);
            let k = by_grade(g)[i] as int;
            assert(results@[k].0 == seeds@[k]);
            D::clone_says_the_same(results@[k].1.genome, r@[i].1.genome);
        }
    }
    r
}

/// No island comes to a better individual than the first result.
pub proof fn law_first_result_is_best<D: GaDecoder>(
    d: D,
    seeds: Seq<u64>,
    c: Colony<D::Model>,
    i: int,
)
    requires
        c.runs.len() == seeds.len(),
        seeds.len() <= usize::MAX,
        0 <= i < c.runs.len(),
    ensures
        !d.objective(c.runs[i].best).beats(d.objective(colony_results(d, seeds, c, 0).1)),
{
    let g = model_grades(d, bests(c));
    let s = by_grade(g);
    let rank = crate::ga::GradeOrder { grades: g };
    crate::sorting::lemma_order_exists(rank, g.len());
    crate::sorting::lemma_in_order_all(rank, g.len(), s, i as usize);
    let k = choose|k: int| 0 <= k < s.len() && s[k] == i;
    if k > 0 {
        law_elite_is_best(g, 0, k);
    }
    crate::ga::lemma_by_grade(g, 0);
    assert(g[i] == d.objective(c.runs[i].best));
    assert(g[s[0] as int] == d.objective(c.runs[s[0] as int].best));
}

/// Islands that never exchange come to what each comes to alone.
pub proof fn law_without_exchange<D: GaDecoder>(
    d: D,
    config: GaConfig,
    seeds: Seq<u64>,
    n: nat,
    i: int,
)
    requires
        0 <= i < seeds.len(),
    ensures
        colony_evolved(d, config, seeds, 0, n).runs.len() == seeds.len(),
        colony_evolved(d, config, seeds, 0, n).runs[i] == crate::ga::evolved(
            d,
            config,
            seeded(seeds[i]),
            n,
        ),
    decreases n,
{
    if n > 0 {
        law_without_exchange(d, config, seeds, (n - 1) as nat, i);
    }
}

/// The seeds that follow from a base seed.
pub open spec fn seeds_from(rng: Xoshiro256StarStar, n: nat) -> (Seq<u64>, Xoshiro256StarStar)
    decreases n,
{
    if n == 0 {
        (Seq::empty(), rng)
    } else {
        let (list, r) = seeds_from(rng, (n - 1) as nat);
        (list.push(crate::rng::next_of(r)), crate::rng::after(r))
    }
}

/// One seed for each of `n` islands, drawn from a base seed.
pub fn draw_seeds(base_seed: u64, n: usize) -> (r: Vec<u64>)
    ensures
        r@ == seeds_from(seeded(base_seed), n as nat).0,
        r@.len() == n,
{
    let mut rng = from_seed(base_seed);
    let mut out: Vec<u64> = Vec::new();
    while out.len() < n
        invariant
            out@.len() <= n,
            (out@, rng) == seeds_from(seeded(base_seed), out@.len()),
        decreases n - out@.len(),
    {
        let seed: u64 = next_u64(&mut rng);
        out.push(seed);
    }
    out
}

/// `m` comes into a population `a`, which becomes `b`: it takes the place of the worst individual,
/// the last of equally bad ones, where it beats that one. All others stay.
pub open spec fn comes_in<D: GaDecoder>(
    d: D,
    a: Seq<D::Model>,
    b: Seq<D::Model>,
    m: D::Model,
    w: int,
) -> bool {
    &&& 0 <= w < a.len()
    &&& b.len() == a.len()
    &&& forall|c: int|
        0 <= c < a.len() ==> !d.objective(a[w]).beats(d.objective(#[trigger] a[c])) && (c > w
            ==> d.objective(a[c]).beats(d.objective(a[w])))
    &&& forall|c: int| 0 <= c < a.len() && c != w ==> #[trigger] b[c] == a[c]
    &&& b[w] == if d.objective(m).beats(d.objective(a[w])) {
        m
    } else {
        a[w]
    }
}

/// The best individual of all islands comes into a population in place of its worst.
pub proof fn law_newcomer_replaces_the_worst<D: GaDecoder>(d: D, pop: Seq<D::Model>, m: D::Model)
    requires
        pop.len() >= 1,
    ensures
        exists|w: int| #[trigger] comes_in(d, pop, immigrated(d, pop, m), m, w),
{
    let g = model_grades(d, pop);
    let w = crate::ga::worst_index(g, pop.len());
    crate::ga::law_worst_index(g, pop.len(), 0);
    assert forall|c: int| 0 <= c < pop.len() implies !d.objective(pop[w]).beats(
        d.objective(#[trigger] pop[c]),
    ) && (c > w ==> d.objective(pop[c]).beats(d.objective(pop[w]))) by {
        crate::ga::law_worst_index(g, pop.len(), c);
        assert(g[c] == d.objective(pop[c]) && g[w] == d.objective(pop[w]));
    }
    assert(comes_in(d, pop, immigrated(d, pop, m), m, w));
}

/// From one generation to the next every island goes through a generation of its own. At every
/// multiple of the interval, where there are several islands, they exchange: one individual, that
/// no best of an island beats and that is the best of an island or was one at an earlier
/// exchange, comes into every population. Otherwise nothing passes between them.
pub proof fn law_islands_exchange_their_best<D: GaDecoder>(
    d: D,
    config: GaConfig,
    seeds: Seq<u64>,
    interval: int,
    n: nat,
)
    requires
        seeds.len() >= 1,
        config.pop_size >= 1,
        config.tournament_size >= 1,
        config.elite_count <= config.pop_size,
    ensures
        ({
            let a = colony_evolved(d, config, seeds, interval, n);
            let b = colony_evolved(d, config, seeds, interval, n + 1);
            let now = Seq::new(a.runs.len(), |i: int| generation(d, config, a.runs[i]));
            &&& a.runs.len() == seeds.len()
            &&& b.runs.len() == seeds.len()
            &&& interval > 0 && seeds.len() > 1 && (n as int + 1) % interval == 0 ==> exists|
                m: D::Model,
            |
                #[trigger] passed_round(d, a, b, now, m)
            &&& !(interval > 0 && seeds.len() > 1 && (n as int + 1) % interval == 0)
                ==> b.runs =~= now && b.offered == a.offered
        }),
{
    let a = colony_evolved(d, config, seeds, interval, n);
    let b = colony_evolved(d, config, seeds, interval, n + 1);
    lemma_colony_size(d, config, seeds, interval, n);
    lemma_colony_size(d, config, seeds, interval, n + 1);
    let now = Seq::new(a.runs.len(), |i: int| generation(d, config, a.runs[i]));
    let c = colony_generation(d, config, a);
    assert(c.runs =~= now);
    if interval > 0 && seeds.len() > 1 && (n as int + 1) % interval == 0 {
        let m = shared(d, c);
        let list = offers_of(d, c);
        let g = model_grades(d, list);
        crate::score::law_best_index(g, list.len(), 0);
        let k = best_index(g, list.len());
        assert(m == list[k] && g[k] == d.objective(m));
        assert forall|i: int| 0 <= i < now.len() implies !d.objective(
            (#[trigger] now[i]).best,
        ).beats(d.objective(m)) by {
            crate::score::law_best_index(g, list.len(), i);
            assert(g[i] == d.objective(list[i]));
        }
        assert(m == now[k].best || a.offered[k] == Some(m));
        assert forall|i: int| 0 <= i < now.len() implies (#[trigger] b.runs[i]).best
            == now[i].best && b.runs[i].rng == now[i].rng && exists|w: int|
            #[trigger] comes_in(d, now[i].pop, b.runs[i].pop, m, w) by {
            assert(now[i].pop.len() >= 1);
            law_newcomer_replaces_the_worst(d, now[i].pop, m);
        }
        assert forall|i: int| 0 <= i < now.len() implies (#[trigger] b.offered[i]) == Some(
            now[i].best,
        ) || (b.offered[i] == a.offered[i] && a.offered[i] is Some) by {}
        assert(passed_round(d, a, b, now, m));
    }
}

/// At an exchange from `a` to `b`, after the generation that led to `now`, `m` is passed round.
pub open spec fn passed_round<D: GaDecoder>(
    d: D,
    a: Colony<D::Model>,
    b: Colony<D::Model>,
    now: Seq<Run<D::Model>>,
    m: D::Model,
) -> bool {
    &&& exists|k: int|
        0 <= k < now.len() && ((#[trigger] now[k]).best == m || a.offered[k] == Some(m))
    &&& forall|i: int|
        0 <= i < now.len() ==> !d.objective((#[trigger] now[i]).best).beats(d.objective(m))
    &&& forall|i: int|
        0 <= i < now.len() ==> (#[trigger] b.runs[i]).best == now[i].best && b.runs[i].rng
            == now[i].rng && exists|w: int|
            #[trigger] comes_in(d, now[i].pop, b.runs[i].pop, m, w)
    &&& forall|i: int|
        0 <= i < now.len() ==> (#[trigger] b.offered[i]) == Some(now[i].best) || (b.offered[i]
            == a.offered[i] && a.offered[i] is Some)
}

proof fn lemma_colony_size<D: GaDecoder>(
    d: D,
    config: GaConfig,
    seeds: Seq<u64>,
    interval: int,
    n: nat,
)
    requires
        config.pop_size >= 1,
        config.tournament_size >= 1,
        config.elite_count <= config.pop_size,
    ensures
        ({
            let c = colony_evolved(d, config, seeds, interval, n);
            &&& c.runs.len() == seeds.len()
            &&& c.offered.len() == seeds.len()
            &&& forall|i: int|
                0 <= i < c.runs.len() ==> (#[trigger] c.runs[i]).pop.len() == config.pop_size
            &&& forall|i: int|
                0 <= i < c.runs.len() ==> generation(d, config, #[trigger] c.runs[i]).pop.len()
                    == config.pop_size
        }),
    decreases n,
{
    let c = colony_evolved(d, config, seeds, interval, n);
    if n == 0 {
        assert forall|i: int| 0 <= i < c.runs.len() implies (#[trigger] c.runs[i]).pop.len()
            == config.pop_size by {
            crate::breeding::law_run_begins_with_seeds(d, config, seeded(seeds[i]));
        }
    } else {
        lemma_colony_size(d, config, seeds, interval, (n - 1) as nat);
        let before = colony_evolved(d, config, seeds, interval, (n - 1) as nat);
        assert forall|i: int| 0 <= i < c.runs.len() implies (#[trigger] c.runs[i]).pop.len()
            == config.pop_size by {
            assert(generation(d, config, before.runs[i]).pop.len() == config.pop_size);
            let p = generation(d, config, before.runs[i]).pop;
            crate::ga::law_worst_index(model_grades(d, p), p.len(), 0);
        }
    }
    assert forall|i: int| 0 <= i < c.runs.len() implies generation(
        d,
        config,
        #[trigger] c.runs[i],
    ).pop.len() == config.pop_size by {
        crate::breeding::law_generation_is_bred(d, config, c.runs[i]);
    }
}

/// The results are those of all islands, each with its seed, from the best on; of equally good
/// ones the earlier island comes first.
pub proof fn law_results_are_ranked<D: GaDecoder>(
    d: D,
    seeds: Seq<u64>,
    c: Colony<D::Model>,
    i: int,
    j: int,
)
    requires
        c.runs.len() == seeds.len(),
        seeds.len() <= usize::MAX,
        0 <= i < j < seeds.len(),
    ensures
        exists|x: int, y: int|
            {
                &&& 0 <= x < seeds.len()
                &&& 0 <= y < seeds.len()
                &&& x != y
                &&& colony_results(d, seeds, c, i) == (#[trigger] seeds[x], c.runs[x].best)
                &&& colony_results(d, seeds, c, j) == (#[trigger] seeds[y], c.runs[y].best)
                &&& !d.objective(c.runs[y].best).beats(d.objective(c.runs[x].best))
                &&& d.objective(c.runs[x].best).beats(d.objective(c.runs[y].best)) || x < y
            },
{
    let g = model_grades(d, bests(c));
    let s = by_grade(g);
    let rank = crate::ga::GradeOrder { grades: g };
    crate::sorting::lemma_order_exists(rank, g.len());
    assert(crate::sorting::in_order(rank, g.len(), s));
    assert(crate::sorting::precedes(rank, s[i] as int, s[j] as int));
    let (x, y) = (s[i] as int, s[j] as int);
    assert(g[x] == d.objective(c.runs[x].best) && g[y] == d.objective(c.runs[y].best));
    assert(colony_results(d, seeds, c, i) == (seeds[x], c.runs[x].best));
    assert(colony_results(d, seeds, c, j) == (seeds[y], c.runs[y].best));
}

/// The seeds of the islands are the numbers that a generator gives one after the other.
pub proof fn law_seeds_follow_each_other(rng: Xoshiro256StarStar, n: nat)
    ensures
        seeds_from(rng, n).0.len() == n,
        seeds_from(rng, n).1 == crate::breeding::onward(rng, n),
        forall|i: int|
            0 <= i < n ==> #[trigger] seeds_from(rng, n).0[i] == crate::rng::next_of(
                crate::breeding::onward(rng, i as nat),
            ),
    decreases n,
{
    if n > 0 {
        law_seeds_follow_each_other(rng, (n - 1) as nat);
    }
}

} // verus!
