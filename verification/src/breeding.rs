//! What one generation of the genetic algorithm is: who stays, who the parents are, and what
//! becomes of their children.

use rand_xoshiro::Xoshiro256StarStar;
use vstd::prelude::*;

use crate::ga::{
    begun, best_of, bred, by_grade, elite, evolved, generation, happens, law_elite_is_best,
    model_grades, pair, pick, random_models, tournament, GaConfig, GaDecoder, GradeOrder, Run,
};
use crate::rng::after;
use crate::score::{best_index, law_best_index, Objective};

verus! {

/// The state of the generator `t` numbers later.
pub open spec fn onward(rng: Xoshiro256StarStar, t: nat) -> Xoshiro256StarStar
    decreases t,
{
    if t == 0 {
        rng
    } else {
        after(onward(rng, (t - 1) as nat))
    }
}

/// Number `t` of those that are drawn one after the other, from state `q` on.
pub open spec fn contender(q: Xoshiro256StarStar, t: int, n: int) -> int {
    pick(onward(q, t as nat), n)
}

/// `i` wins the tournament of the `k` that are drawn from state `q` on: it is one of them, none
/// of them beats it, and it beats those that were drawn before it.
pub open spec fn wins(grades: Seq<Objective>, k: int, q: Xoshiro256StarStar, i: int) -> bool {
    let n = grades.len() as int;
    exists|t: int|
        {
            &&& 0 <= t < k
            &&& i == #[trigger] contender(q, t, n)
            &&& forall|u: int|
                0 <= u < k ==> {
                    let c = #[trigger] contender(q, u, n);
                    &&& !grades[c].beats(grades[i])
                    &&& u < t ==> grades[i].beats(grades[c])
                }
        }
}

proof fn lemma_onward(rng: Xoshiro256StarStar, s: nat, t: nat)
    ensures
        onward(onward(rng, s), t) == onward(rng, s + t),
    decreases t,
{
    if t > 0 {
        lemma_onward(rng, s, (t - 1) as nat);
    }
}

/// A tournament draws as many as take part, and the best of them wins, the one drawn first of
/// equally good ones.
pub proof fn law_best_contender_wins(grades: Seq<Objective>, k: nat, q: Xoshiro256StarStar)
    requires
        k >= 1,
        grades.len() >= 1,
    ensures
        wins(grades, k as int, q, tournament(grades, k, q).0),
        0 <= tournament(grades, k, q).0 < grades.len(),
        tournament(grades, k, q).1 == onward(q, k),
    decreases k,
{
    let n = grades.len() as int;
    let w = tournament(grades, k, q).0;
    vstd::arithmetic::div_mod::lemma_mod_bound(
        (crate::rng::next_of(onward(q, (k - 1) as nat)) as usize) as int,
        n,
    );
    if k == 1 {
        assert(onward(q, 1) == after(onward(q, 0)));
        assert(w == contender(q, 0, n));
    } else {
        let m = (k - 1) as nat;
        law_best_contender_wins(grades, m, q);
        let best = tournament(grades, m, q).0;
        let i = contender(q, k - 1, n);
        let t = choose|t: int|
            {
                &&& 0 <= t < m
                &&& best == #[trigger] contender(q, t, n)
                &&& forall|u: int|
                    0 <= u < m ==> {
                        let c = #[trigger] contender(q, u, n);
                        &&& !grades[c].beats(grades[best])
                        &&& u < t ==> grades[best].beats(grades[c])
                    }
            };
        if grades[i].beats(grades[best]) {
            assert(w == i && w == contender(q, k - 1, n));
            assert forall|u: int| 0 <= u < k implies ({
                let c = #[trigger] contender(q, u, n);
                &&& !grades[c].beats(grades[w])
                &&& u < k - 1 ==> grades[w].beats(grades[c])
            }) by {
                if u < m {
                    assert(!grades[contender(q, u, n)].beats(grades[best]));
                }
            }
        } else {
            assert(w == best && w == contender(q, t, n));
            assert forall|u: int| 0 <= u < k implies ({
                let c = #[trigger] contender(q, u, n);
                &&& !grades[c].beats(grades[w])
                &&& u < t ==> grades[w].beats(grades[c])
            }) by {
                if u < m {
                    assert(!grades[contender(q, u, n)].beats(grades[best]));
                }
            }
        }
    }
}

/// From state `q` of the generator to state `end`, individuals `i` and `j` of a population have
/// children. Each parent wins a tournament of its own. If the next draw is below the chance of
/// crossover the children are those of a crossover of the two, else they are copies of the
/// parents. `one` is the first child after mutation; `two` is the second one after mutation,
/// where it is taken at all.
pub open spec fn litter<D: GaDecoder>(
    d: D,
    config: GaConfig,
    pop: Seq<D::Model>,
    q: Xoshiro256StarStar,
    i: int,
    j: int,
    one: D::Model,
    two: Option<D::Model>,
    end: Xoshiro256StarStar,
) -> bool {
    let grades = Seq::new(pop.len(), |x: int| d.objective(pop[x]));
    let k = config.tournament_size as nat;
    let s = onward(q, k + k);
    let crossed = d.crossed(pop[i], pop[j], after(s));
    let crosses = happens(s, config.crossover_p);
    let first = if crosses {
        crossed.0.0
    } else {
        pop[i]
    };
    let second = if crosses {
        crossed.0.1
    } else {
        pop[j]
    };
    let begin = if crosses {
        crossed.1
    } else {
        after(s)
    };
    let mid = d.mutated(first, config, begin).1;
    &&& 0 <= i < pop.len()
    &&& 0 <= j < pop.len()
    &&& wins(grades, k as int, q, i)
    &&& wins(grades, k as int, onward(q, k), j)
    &&& one == d.mutated(first, config, begin).0
    &&& match two {
        Some(m) => m == d.mutated(second, config, mid).0 && end == d.mutated(
            second,
            config,
            mid,
        ).1,
        None => end == mid,
    }
}

/// Behind the first `e` of `next`, children stand two by two, from litters that follow each
/// other: number `p` is born from state `states[p]` to state `states[p + 1]`.
pub open spec fn littered<D: GaDecoder>(
    d: D,
    config: GaConfig,
    pop: Seq<D::Model>,
    e: int,
    next: Seq<D::Model>,
    states: Seq<Xoshiro256StarStar>,
) -> bool {
    let n = next.len() as int;
    &&& states.len() == (n - e + 1) / 2 + 1
    &&& forall|p: int|
        0 <= p < states.len() - 1 ==> bears(
            d,
            config,
            pop,
            #[trigger] states[p],
            next[e + 2 * p],
            item_at(next, e + 2 * p + 1),
            states[p + 1],
        )
}

/// Item number `x`, where there is one.
pub open spec fn item_at<M>(s: Seq<M>, x: int) -> Option<M> {
    if x < s.len() {
        Some(s[x])
    } else {
        None
    }
}

/// Two individuals of the population have these children.
pub open spec fn bears<D: GaDecoder>(
    d: D,
    config: GaConfig,
    pop: Seq<D::Model>,
    q: Xoshiro256StarStar,
    one: D::Model,
    two: Option<D::Model>,
    end: Xoshiro256StarStar,
) -> bool {
    exists|i: int, j: int| #[trigger] litter(d, config, pop, q, i, j, one, two, end)
}

proof fn lemma_pair<D: GaDecoder>(
    d: D,
    config: GaConfig,
    pop: Seq<D::Model>,
    q: Xoshiro256StarStar,
) -> (r: (int, int))
    requires
        pop.len() >= 1,
        config.tournament_size >= 1,
    ensures
        ({
            let (children, r1) = pair(d, config, pop, q);
            let (second, r2) = d.mutated(children.1, config, r1);
            &&& litter(d, config, pop, q, r.0, r.1, children.0, Some(second), r2)
            &&& litter(d, config, pop, q, r.0, r.1, children.0, None, r1)
        }),
{
    let g = model_grades(d, pop);
    let k = config.tournament_size as nat;
    assert(g =~= Seq::new(pop.len(), |x: int| d.objective(pop[x])));
    law_best_contender_wins(g, k, q);
    law_best_contender_wins(g, k, onward(q, k));
    lemma_onward(q, k, k);
    (tournament(g, k, q).0, tournament(g, k, onward(q, k)).0)
}

proof fn lemma_littered<D: GaDecoder>(
    d: D,
    config: GaConfig,
    pop: Seq<D::Model>,
    next: Seq<D::Model>,
    rng: Xoshiro256StarStar,
) -> (states: Seq<Xoshiro256StarStar>)
    requires
        pop.len() >= 1,
        config.tournament_size >= 1,
        next.len() <= config.pop_size,
    ensures
        bred(d, config, pop, next, rng).0.len() == config.pop_size,
        forall|x: int|
            0 <= x < next.len() ==> #[trigger] bred(d, config, pop, next, rng).0[x] == next[x],
        littered(d, config, pop, next.len() as int, bred(d, config, pop, next, rng).0, states),
        states[0] == rng,
        states.last() == bred(d, config, pop, next, rng).1,
    decreases config.pop_size - next.len(),
{
    let size = config.pop_size as int;
    let e = next.len() as int;
    let (all, end) = bred(d, config, pop, next, rng);
    if e >= size {
        seq![rng]
    } else {
        let (i, j) = lemma_pair(d, config, pop, rng);
        let (children, r1) = pair(d, config, pop, rng);
        let one = next.push(children.0);
        if e + 1 < size {
            let (second, r2) = d.mutated(children.1, config, r1);
            let two = one.push(second);
            let later = lemma_littered(d, config, pop, two, r2);
            let states = seq![rng] + later;
            assert(bred(d, config, pop, two, r2).0 == all);
            assert(two[e] == children.0 && two[e + 1] == second);
            assert(all[e] == children.0 && all[e + 1] == second);
            assert forall|x: int| 0 <= x < next.len() implies #[trigger] all[x] == next[x] by {
                assert(two[x] == next[x]);
            }
            assert forall|p: int| 0 <= p < states.len() - 1 implies bears(
                d,
                config,
                pop,
                #[trigger] states[p],
                all[e + 2 * p],
                item_at(all, e + 2 * p + 1),
                states[p + 1],
            ) by {
                if p == 0 {
                    assert(states[1] == later[0]);
                    assert(litter(d, config, pop, rng, i, j, all[e], Some(all[e + 1]), r2));
                } else {
                    assert(states[p] == later[p - 1]);
                    assert(states[p + 1] == later[(p - 1) + 1]);
                    assert(two.len() + 2 * (p - 1) == e + 2 * p);
                }
            }
            states
        } else {
            let states = seq![rng, r1];
            assert(all == one && end == r1);
            assert(litter(d, config, pop, states[0], i, j, all[e], None, states[1]));
            states
        }
    }
}

/// How many of `n` individuals stay.
pub open spec fn stayers(config: GaConfig, n: nat) -> int {
    if config.elite_count < n {
        config.elite_count as int
    } else {
        n as int
    }
}

/// One generation: behind the elite, every individual is a child after mutation. The litters
/// follow each other, from the state of the generator before the generation to that after it.
pub proof fn law_generation_is_bred<D: GaDecoder>(d: D, config: GaConfig, run: Run<D::Model>)
    requires
        1 <= run.pop.len(),
        config.tournament_size >= 1,
        config.elite_count <= config.pop_size || run.pop.len() <= config.pop_size,
    ensures
        ({
            let next = generation(d, config, run);
            let e = stayers(config, run.pop.len());
            &&& next.pop.len() == config.pop_size
            &&& exists|states: Seq<Xoshiro256StarStar>|
                {
                    &&& #[trigger] littered(d, config, run.pop, e, next.pop, states)
                    &&& states[0] == run.rng
                    &&& states.last() == next.rng
                }
        }),
{
    let stay = elite(d, run.pop, config.elite_count as int);
    let states = lemma_littered(d, config, run.pop, stay, run.rng);
    let e = stayers(config, run.pop.len());
    assert(e == stay.len() as int);
    assert(littered(d, config, run.pop, e, generation(d, config, run).pop, states));
}

/// Every individual behind the elite is a mutation of what its parents pass on: with a chance of
/// crossover a child of a crossover of two individuals, else a copy of one; without a chance of
/// crossover always a copy.
pub proof fn law_every_child_is_mutated<D: GaDecoder>(
    d: D,
    config: GaConfig,
    run: Run<D::Model>,
    x: int,
)
    requires
        1 <= run.pop.len(),
        config.tournament_size >= 1,
        config.elite_count <= config.pop_size || run.pop.len() <= config.pop_size,
        config.elite_count <= x < config.pop_size || run.pop.len() <= x < config.pop_size,
    ensures
        exists|i: int, j: int, s: Xoshiro256StarStar, r: Xoshiro256StarStar|
            {
                let crossed = d.crossed(run.pop[i], run.pop[j], after(s)).0;
                let m = generation(d, config, run).pop[x];
                &&& 0 <= i < run.pop.len()
                &&& 0 <= j < run.pop.len()
                &&& #[trigger] born(i, j, s, r)
                &&& if happens(s, config.crossover_p) {
                    m == d.mutated(crossed.0, config, r).0 || m == d.mutated(
                        crossed.1,
                        config,
                        r,
                    ).0
                } else {
                    m == d.mutated(run.pop[i], config, r).0 || m == d.mutated(
                        run.pop[j],
                        config,
                        r,
                    ).0
                }
            },
{
    law_generation_is_bred(d, config, run);
    let next = generation(d, config, run);
    let n = next.pop.len() as int;
    let e = stayers(config, run.pop.len());
    let states = choose|states: Seq<Xoshiro256StarStar>|
        #[trigger] littered(d, config, run.pop, e, next.pop, states);
    let p = (x - e) / 2;
    let at = e + 2 * p;
    assert(0 <= p < states.len() - 1);
    assert(x == at || x == at + 1);
    let two = item_at(next.pop, at + 1);
    assert(bears(d, config, run.pop, states[p], next.pop[at], two, states[p + 1]));
    let (i, j) = choose|i: int, j: int|
        #[trigger] litter(
            d,
            config,
            run.pop,
            states[p],
            i,
            j,
            next.pop[at],
            two,
            states[p + 1],
        );
    let k = config.tournament_size as nat;
    let s = onward(states[p], k + k);
    let crossed = d.crossed(run.pop[i], run.pop[j], after(s));
    let crosses = happens(s, config.crossover_p);
    let first = if crosses {
        crossed.0.0
    } else {
        run.pop[i]
    };
    let begin = if crosses {
        crossed.1
    } else {
        after(s)
    };
    let r = if x == at {
        begin
    } else {
        d.mutated(first, config, begin).1
    };
    assert(born(i, j, s, r));
}

/// Any two parents, with the states of the generator at crossover and at mutation.
pub open spec fn born(i: int, j: int, s: Xoshiro256StarStar, r: Xoshiro256StarStar) -> bool {
    true
}

/// The elite goes unchanged to the front of the next generation: as many as configured, no
/// individual twice, the better ones first, and nobody who is left out beats any of them.
pub proof fn law_elite_is_carried_over<D: GaDecoder>(d: D, config: GaConfig, run: Run<D::Model>)
    requires
        1 <= run.pop.len() <= usize::MAX,
        config.tournament_size >= 1,
        config.elite_count <= config.pop_size || run.pop.len() <= config.pop_size,
    ensures
        ({
            let next = generation(d, config, run).pop;
            let e = stayers(config, run.pop.len());
            exists|who: Seq<int>| #[trigger] carried_over(d, run.pop, next, e, who)
        }),
{
    let g = model_grades(d, run.pop);
    let order = by_grade(g);
    let stay = elite(d, run.pop, config.elite_count as int);
    let e = stayers(config, run.pop.len());
    assert(e == stay.len() as int);
    let next = generation(d, config, run).pop;
    let states = lemma_littered(d, config, run.pop, stay, run.rng);
    let who = Seq::new(e as nat, |x: int| order[x] as int);
    let rank = GradeOrder { grades: g };
    crate::sorting::lemma_order_exists(rank, g.len());
    assert(crate::sorting::in_order(rank, g.len(), order));
    assert forall|x: int| 0 <= x < e implies 0 <= #[trigger] who[x] < run.pop.len() && next[x]
        == run.pop[who[x]] by {
        assert(bred(d, config, run.pop, stay, run.rng).0[x] == stay[x]);
    }
    assert forall|x: int, y: int| 0 <= x < y < e implies #[trigger] who[x] != #[trigger] who[y]
        && !d.objective(run.pop[who[y]]).beats(d.objective(run.pop[who[x]])) by {
        law_elite_is_best(g, x, y);
    }
    assert forall|i: int, x: int|
        0 <= i < run.pop.len() && 0 <= x < e && !who.contains(i) implies !d.objective(
        #[trigger] run.pop[i],
    ).beats(d.objective(run.pop[#[trigger] who[x]])) by {
        crate::sorting::lemma_in_order_all(rank, g.len(), order, i as usize);
        let y = choose|y: int| 0 <= y < order.len() && order[y] == i;
        if y < e {
            assert(who[y] == i);
        }
        law_elite_is_best(g, x, y);
    }
    assert(carried_over(d, run.pop, next, e, who));
}

/// The first `e` of `next` are the individuals `who` of the population, its best.
pub open spec fn carried_over<D: GaDecoder>(
    d: D,
    pop: Seq<D::Model>,
    next: Seq<D::Model>,
    e: int,
    who: Seq<int>,
) -> bool {
    &&& who.len() == e
    &&& forall|x: int|
        0 <= x < e ==> 0 <= #[trigger] who[x] < pop.len() && next[x] == pop[who[x]]
    &&& forall|x: int, y: int|
        0 <= x < y < e ==> #[trigger] who[x] != #[trigger] who[y] && !d.objective(
            pop[who[y]],
        ).beats(d.objective(pop[who[x]]))
    &&& forall|i: int, x: int|
        0 <= i < pop.len() && 0 <= x < e && !who.contains(i) ==> !d.objective(
            #[trigger] pop[i],
        ).beats(d.objective(pop[#[trigger] who[x]]))
}

/// The best that is kept after a generation is the best that was kept before, or an individual
/// of the generation that beats it; nobody in the generation beats the one that is kept.
pub proof fn law_best_is_best_seen<D: GaDecoder>(d: D, config: GaConfig, run: Run<D::Model>)
    requires
        1 <= config.pop_size,
        1 <= run.pop.len(),
        config.tournament_size >= 1,
        config.elite_count <= config.pop_size || run.pop.len() <= config.pop_size,
    ensures
        ({
            let next = generation(d, config, run);
            &&& next.best == run.best || (next.pop.contains(next.best) && d.objective(
                next.best,
            ).beats(d.objective(run.best)))
            &&& forall|i: int|
                0 <= i < next.pop.len() ==> !d.objective(#[trigger] next.pop[i]).beats(
                    d.objective(next.best),
                )
        }),
{
    law_generation_is_bred(d, config, run);
    let next = generation(d, config, run);
    let g = model_grades(d, next.pop);
    let b = best_index(g, next.pop.len());
    law_best_index(g, next.pop.len(), 0);
    assert(g[b] == d.objective(next.pop[b]));
    assert forall|i: int| 0 <= i < next.pop.len() implies !d.objective(
        #[trigger] next.pop[i],
    ).beats(d.objective(next.best)) by {
        law_best_index(g, next.pop.len(), i);
        assert(g[i] == d.objective(next.pop[i]));
    }
}

/// The random genomes of a population are made one after the other, each from the state in which
/// the one before it left the generator.
pub proof fn law_random_ones_follow_each_other<D: GaDecoder>(
    d: D,
    config: GaConfig,
    n: nat,
    rng: Xoshiro256StarStar,
)
    ensures
        random_models(d, config, n, rng).0.len() == n,
        random_models(d, config, 0, rng).1 == rng,
        forall|i: nat|
            i < n ==> random_models(d, config, n, rng).0[i as int] == (#[trigger] d.random_model(
                config,
                random_models(d, config, i, rng).1,
            )).0 && random_models(d, config, i + 1, rng).1 == d.random_model(
                config,
                random_models(d, config, i, rng).1,
            ).1,
    decreases n,
{
    if n > 0 {
        law_random_ones_follow_each_other(d, config, (n - 1) as nat, rng);
    }
}

/// A run begins with the seed genomes, as far as there is room, then random ones; the best of
/// them is kept, the first of equally good ones.
pub proof fn law_run_begins_with_seeds<D: GaDecoder>(
    d: D,
    config: GaConfig,
    rng: Xoshiro256StarStar,
)
    requires
        config.pop_size >= 1,
    ensures
        ({
            let run = begun(d, config, rng);
            let seeds = d.seed_models(config);
            let k = if seeds.len() < config.pop_size {
                seeds.len() as int
            } else {
                config.pop_size as int
            };
            let list = random_models(d, config, (config.pop_size - k) as nat, rng);
            &&& evolved(d, config, rng, 0) == run
            &&& run.pop.len() == config.pop_size
            &&& forall|i: int| 0 <= i < k ==> #[trigger] run.pop[i] == seeds[i]
            &&& forall|i: int| k <= i < config.pop_size ==> #[trigger] run.pop[i] == list.0[i - k]
            &&& run.rng == list.1
            &&& exists|b: int|
                {
                    &&& 0 <= b < run.pop.len()
                    &&& run.best == #[trigger] run.pop[b]
                    &&& forall|i: int|
                        0 <= i < run.pop.len() ==> !d.objective(#[trigger] run.pop[i]).beats(
                            d.objective(run.best),
                        )
                    &&& forall|i: int|
                        0 <= i < b ==> d.objective(run.best).beats(
                            d.objective(#[trigger] run.pop[i]),
                        )
                }
        }),
{
    let run = begun(d, config, rng);
    let seeds = d.seed_models(config);
    let k = if seeds.len() < config.pop_size {
        seeds.len() as int
    } else {
        config.pop_size as int
    };
    law_random_ones_follow_each_other(d, config, (config.pop_size - k) as nat, rng);
    let g = model_grades(d, run.pop);
    let b = best_index(g, run.pop.len());
    law_best_index(g, run.pop.len(), 0);
    assert(run.best == best_of(d, run.pop));
    assert(run.best == run.pop[b]);
    assert forall|i: int| 0 <= i < run.pop.len() implies !d.objective(
        #[trigger] run.pop[i],
    ).beats(d.objective(run.best)) && (i < b ==> d.objective(run.best).beats(
        d.objective(run.pop[i]),
    )) by {
        law_best_index(g, run.pop.len(), i);
        assert(g[i] == d.objective(run.pop[i]));
        assert(g[b] == d.objective(run.pop[b]));
    }
}

/// A run goes from generation to generation, and makes so many.
pub proof fn law_generations_follow_each_other<D: GaDecoder>(
    d: D,
    config: GaConfig,
    rng: Xoshiro256StarStar,
    n: nat,
)
    ensures
        evolved(d, config, rng, n + 1) == generation(d, config, evolved(d, config, rng, n)),
{
}

} // verus!
