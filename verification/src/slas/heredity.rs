//! What becomes of genomes with one gene per piece: by mutation, in a generation, and by chance.

use rand_xoshiro::Xoshiro256StarStar;
use vstd::prelude::*;

use super::decoder::{decoded, Gene};
use super::ga::{
    dressed, keys, mutated_genes, mutation, ox_child, ox_drawn, random_genome_of, shuffled,
    SlasDecoder,
};
use crate::breeding::{born, law_every_child_is_mutated};
use crate::crossover::{exchanged, law_ox_keeps_segment_and_order, ox_plan, same_keys};
use crate::ga::{
    generation, happens, law_certain_and_never, nudged, pick, rates_of, GaConfig, GaDecoder, Rates,
    Run, CERTAIN,
};
use crate::laying::ahead;
use crate::offcuts::objective_of;
use crate::rng::{after, next_of};

verus! {

/// The shift that is drawn from a range, both ends included; a range that is not in order counts
/// as its first end.
pub open spec fn drawn_shift(delta: (u32, u32), q: Xoshiro256StarStar) -> int {
    delta.0 + if delta.0 < delta.1 {
        next_of(q) as int % (delta.1 - delta.0 + 1)
    } else {
        0
    }
}

/// `new` is `old_selector` shifted by a drawn amount, up or down by a coin, and round the ends.
pub open spec fn shifted(
    old_selector: u32,
    new: u32,
    delta: (u32, u32),
    q: Xoshiro256StarStar,
) -> bool {
    let d = drawn_shift(delta, q);
    if next_of(after(q)) % 2 == 1 {
        new == (old_selector - d) % 0x1_0000_0000
    } else {
        new == (old_selector + d) % 0x1_0000_0000
    }
}

/// A drawn shift lies in its range, and a selector is shifted by it.
pub proof fn law_shift_is_in_range(selector: u32, delta: (u32, u32), q: Xoshiro256StarStar)
    ensures
        shifted(selector, nudged(selector, delta, q), delta, q),
        delta.0 <= drawn_shift(delta, q),
        delta.0 <= delta.1 ==> drawn_shift(delta, q) <= delta.1,
        delta.0 > delta.1 ==> drawn_shift(delta, q) == delta.0,
{
    if delta.0 < delta.1 {
        let span = delta.1 - delta.0 + 1;
        vstd::arithmetic::div_mod::lemma_mod_bound(next_of(q) as int, span);
    } else {
        assert(next_of(q) as int % 1 == 0);
    }
}

/// What happens at gene `k` when a genome `g` mutates to `h`, from state `q` of the generator to
/// state `r`: with the chance of a swap it trades places with another gene; then, each with its
/// own chance, the rotation of the gene that is there now is flipped, its selector is shifted,
/// and its split direction is flipped. All else stays as it is.
pub open spec fn gene_changes(
    g: Seq<Gene>,
    h: Seq<Gene>,
    k: int,
    rates: Rates,
    q: Xoshiro256StarStar,
    r: Xoshiro256StarStar,
) -> bool {
    let n = g.len() as int;
    let swaps = happens(q, rates.swap_p);
    let other = (k + 1 + pick(after(q), n - 1)) % n;
    let from = if swaps {
        other
    } else {
        k
    };
    let q1 = if swaps {
        after(after(q))
    } else {
        after(q)
    };
    let q2 = after(q1);
    let shifts = happens(q2, rates.point_p);
    let q3 = if shifts {
        after(after(after(q2)))
    } else {
        after(q2)
    };
    &&& h.len() == n
    &&& swaps ==> 0 <= other < n && other != k && h[other] == g[k]
    &&& forall|j: int| 0 <= j < n && j != k && j != from ==> #[trigger] h[j] == g[j]
    &&& h[k].piece_idx == g[from].piece_idx
    &&& h[k].rotate == (g[from].rotate != happens(q1, rates.flip_p))
    &&& if shifts {
        shifted(g[from].point_selector, h[k].point_selector, rates.point_delta, after(q2))
    } else {
        h[k].point_selector == g[from].point_selector
    }
    &&& h[k].inverse == (g[from].inverse != happens(q3, rates.inverse_p))
    &&& r == after(q3)
}

/// A mutation goes from gene to gene; a genome of fewer than two genes does not mutate.
pub proof fn law_mutation_goes_gene_by_gene(
    g: Seq<Gene>,
    k: nat,
    rates: Rates,
    rng: Xoshiro256StarStar,
)
    requires
        g.len() >= 2,
        k < g.len(),
    ensures
        mutated_genes(g, 0, rates, rng) == (g, rng),
        mutation(g, rates, rng) == mutated_genes(g, g.len(), rates, rng),
        gene_changes(
            mutated_genes(g, k, rates, rng).0,
            mutated_genes(g, k + 1, rates, rng).0,
            k as int,
            rates,
            mutated_genes(g, k, rates, rng).1,
            mutated_genes(g, k + 1, rates, rng).1,
        ),
{
    lemma_same_length(g, k, rates, rng);
    let (a, q) = mutated_genes(g, k, rates, rng);
    let n = a.len() as int;
    let p = pick(after(q), n - 1);
    vstd::arithmetic::div_mod::lemma_mod_bound((next_of(after(q)) as usize) as int, n - 1);
    lemma_partner(k as int, p, n);
    let other = (k + 1 + p) % n;
    let g1 = if happens(q, rates.swap_p) {
        exchanged(a, k as int, other)
    } else {
        a
    };
    let q1 = if happens(q, rates.swap_p) {
        after(after(q))
    } else {
        after(q)
    };
    law_shift_is_in_range(g1[k as int].point_selector, rates.point_delta, after(after(q1)));
}

pub(crate) proof fn lemma_partner(k: int, p: int, n: int)
    requires
        0 <= k < n,
        n >= 2,
        0 <= p < n - 1,
    ensures
        0 <= (k + 1 + p) % n < n,
        (k + 1 + p) % n != k,
{
    vstd::arithmetic::div_mod::lemma_mod_bound(k + 1 + p, n);
    if k + 1 + p < n {
        vstd::arithmetic::div_mod::lemma_small_mod((k + 1 + p) as nat, n as nat);
    } else {
        vstd::arithmetic::div_mod::lemma_small_mod((k + 1 + p - n) as nat, n as nat);
        vstd::arithmetic::div_mod::lemma_mod_sub_multiples_vanish(k + 1 + p, n);
    }
}

proof fn lemma_same_length(g: Seq<Gene>, k: nat, rates: Rates, rng: Xoshiro256StarStar)
    requires
        g.len() >= 2,
        k <= g.len(),
    ensures
        mutated_genes(g, k, rates, rng).0.len() == g.len(),
    decreases k,
{
    if k > 0 {
        lemma_same_length(g, (k - 1) as nat, rates, rng);
        let (a, q) = mutated_genes(g, (k - 1) as nat, rates, rng);
        let n = a.len() as int;
        vstd::arithmetic::div_mod::lemma_mod_bound((next_of(after(q)) as usize) as int, n - 1);
        lemma_partner(k - 1, pick(after(q), n - 1), n);
    }
}

/// The genome with all rotations flipped, all split directions flipped, or both.
pub open spec fn all_flipped(g: Seq<Gene>, h: Seq<Gene>, rotations: bool, directions: bool) -> bool {
    &&& h.len() == g.len()
    &&& forall|i: int|
        0 <= i < g.len() ==> {
            &&& (#[trigger] h[i]).piece_idx == g[i].piece_idx
            &&& h[i].rotate == (g[i].rotate != rotations)
            &&& h[i].point_selector == g[i].point_selector
            &&& h[i].inverse == (g[i].inverse != directions)
        }
}

/// A flip that is certain happens at every gene, and where nothing else has a chance nothing else
/// happens.
pub proof fn law_certain_flips_flip_all(g: Seq<Gene>, rates: Rates, rng: Xoshiro256StarStar)
    requires
        g.len() >= 2,
        rates.swap_p == 0,
        rates.flip_p == 0 || rates.flip_p == CERTAIN,
        rates.point_p == 0,
        rates.inverse_p == 0 || rates.inverse_p == CERTAIN,
    ensures
        all_flipped(
            g,
            mutation(g, rates, rng).0,
            rates.flip_p == CERTAIN,
            rates.inverse_p == CERTAIN,
        ),
{
    lemma_flips(g, g.len(), rates, rng);
}

proof fn lemma_flips(g: Seq<Gene>, k: nat, rates: Rates, rng: Xoshiro256StarStar)
    requires
        g.len() >= 2,
        k <= g.len(),
        rates.swap_p == 0,
        rates.flip_p == 0 || rates.flip_p == CERTAIN,
        rates.point_p == 0,
        rates.inverse_p == 0 || rates.inverse_p == CERTAIN,
    ensures
        ({
            let h = mutated_genes(g, k, rates, rng).0;
            &&& h.len() == g.len()
            &&& forall|i: int|
                0 <= i < g.len() ==> {
                    &&& (#[trigger] h[i]).piece_idx == g[i].piece_idx
                    &&& h[i].rotate == (g[i].rotate != (i < k && rates.flip_p == CERTAIN))
                    &&& h[i].point_selector == g[i].point_selector
                    &&& h[i].inverse == (g[i].inverse != (i < k && rates.inverse_p == CERTAIN))
                }
        }),
    decreases k,
{
    if k > 0 {
        let m = (k - 1) as nat;
        lemma_flips(g, m, rates, rng);
        law_mutation_goes_gene_by_gene(g, m, rates, rng);
        let (a, q) = mutated_genes(g, m, rates, rng);
        law_certain_and_never(q);
        law_certain_and_never(after(q));
        law_certain_and_never(after(after(q)));
        law_certain_and_never(after(after(after(q))));
        let h = mutated_genes(g, k, rates, rng).0;
        assert forall|i: int| 0 <= i < g.len() implies {
            &&& (#[trigger] h[i]).piece_idx == g[i].piece_idx
            &&& h[i].rotate == (g[i].rotate != (i < k && rates.flip_p == CERTAIN))
            &&& h[i].point_selector == g[i].point_selector
            &&& h[i].inverse == (g[i].inverse != (i < k && rates.inverse_p == CERTAIN))
        } by {
            if i != m {
                assert(h[i] == a[i]);
            }
        }
    }
}

/// A mutation that can only swap keeps every gene whole: the genome holds the same genes in
/// another order.
pub proof fn law_swaps_keep_genes_whole(g: Seq<Gene>, rates: Rates, rng: Xoshiro256StarStar)
    requires
        rates.flip_p == 0,
        rates.point_p == 0,
        rates.inverse_p == 0,
    ensures
        mutation(g, rates, rng).0.to_multiset() == g.to_multiset(),
{
    if g.len() >= 2 {
        lemma_swaps(g, g.len(), rates, rng);
    }
}

proof fn lemma_swaps(g: Seq<Gene>, k: nat, rates: Rates, rng: Xoshiro256StarStar)
    requires
        g.len() >= 2,
        k <= g.len(),
        rates.flip_p == 0,
        rates.point_p == 0,
        rates.inverse_p == 0,
    ensures
        mutated_genes(g, k, rates, rng).0.to_multiset() == g.to_multiset(),
    decreases k,
{
    if k > 0 {
        let m = (k - 1) as nat;
        lemma_swaps(g, m, rates, rng);
        lemma_same_length(g, m, rates, rng);
        law_mutation_goes_gene_by_gene(g, m, rates, rng);
        let (a, q) = mutated_genes(g, m, rates, rng);
        let h = mutated_genes(g, k, rates, rng).0;
        let swaps = happens(q, rates.swap_p);
        let other = (m + 1 + pick(after(q), a.len() - 1)) % (a.len() as int);
        let q1 = if swaps {
            after(after(q))
        } else {
            after(q)
        };
        law_certain_and_never(q1);
        law_certain_and_never(after(q1));
        law_certain_and_never(after(after(q1)));
        if swaps {
            assert(h =~= exchanged(a, m as int, other));
            lemma_traded(a, m as int, other);
        } else {
            assert(h =~= a);
        }
    }
}

proof fn lemma_traded<T>(a: Seq<T>, i: int, j: int)
    requires
        0 <= i < a.len(),
        0 <= j < a.len(),
        i != j,
    ensures
        exchanged(a, i, j).to_multiset() == a.to_multiset(),
{
    let b = a.update(i, a[j]);
    let c = b.update(j, a[i]);
    a.to_multiset_ensures();
    b.to_multiset_ensures();
    vstd::seq_lib::to_multiset_update(a, i, a[j]);
    vstd::seq_lib::to_multiset_update(b, j, a[i]);
    assert(a.contains(a[i]));
    assert(b.contains(b[j]));
    assert(c.to_multiset() =~= a.to_multiset());
}

/// In a generation without crossover, where a rotation is sure to be flipped and nothing else has
/// a chance, every individual behind the elite is one of the population before it with every
/// rotation flipped.
pub proof fn law_generation_of_flips<'a>(
    d: SlasDecoder<'a>,
    config: GaConfig,
    run: Run<Seq<Gene>>,
    x: int,
)
    requires
        1 <= run.pop.len() <= config.pop_size,
        config.tournament_size >= 1,
        config.elite_count <= x < config.pop_size,
        config.crossover_p == 0,
        config.swap_p == 0,
        config.flip_p == CERTAIN,
        config.point_p == 0,
        config.inverse_p == 0,
        forall|i: int| 0 <= i < run.pop.len() ==> (#[trigger] run.pop[i]).len() >= 2,
    ensures
        exists|i: int|
            0 <= i < run.pop.len() && all_flipped(
                #[trigger] run.pop[i],
                generation(d, config, run).pop[x],
                true,
                false,
            ),
{
    law_every_child_is_mutated(d, config, run, x);
    let m = generation(d, config, run).pop[x];
    let (i, j, s, r) = choose|i: int, j: int, s: Xoshiro256StarStar, r: Xoshiro256StarStar|
        {
            &&& 0 <= i < run.pop.len()
            &&& 0 <= j < run.pop.len()
            &&& #[trigger] born(i, j, s, r)
            &&& !happens(s, config.crossover_p) ==> m == mutation(
                run.pop[i],
                rates_of(config),
                r,
            ).0 || m == mutation(run.pop[j], rates_of(config), r).0
        };
    law_certain_and_never(s);
    law_certain_flips_flip_all(run.pop[i], rates_of(config), r);
    law_certain_flips_flip_all(run.pop[j], rates_of(config), r);
}

/// A shuffle draws the item for the last place from all, then that for the place in front of it
/// from those that are left, and so on: the item at place `i` is one that was drawn from the
/// first `i + 1`, whose own place is taken by the item that stood at place `i`.
pub proof fn law_shuffle_draws_item_by_item(s: Seq<usize>, i: int, rng: Xoshiro256StarStar)
    requires
        0 < i < s.len(),
    ensures
        ({
            let j = pick(rng, i + 1);
            let (t, r) = shuffled(s, i, rng);
            let rest = s.update(j, s[i]).take(i);
            &&& 0 <= j <= i
            &&& t.len() == s.len()
            &&& t[i] == s[j]
            &&& forall|x: int| i < x < s.len() ==> #[trigger] t[x] == s[x]
            &&& t.take(i) == shuffled(rest, i - 1, after(rng)).0
            &&& r == shuffled(rest, i - 1, after(rng)).1
            &&& t.to_multiset() == s.to_multiset()
        }),
{
    let j = pick(rng, i + 1);
    vstd::arithmetic::div_mod::lemma_mod_bound((next_of(rng) as usize) as int, i + 1);
    let e = exchanged(s, i, j);
    lemma_shuffle_below(e, i - 1, i, after(rng));
    assert(e.take(i) =~= s.update(j, s[i]).take(i));
    lemma_shuffled_items(s, i, rng);
}

proof fn lemma_shuffled_items(s: Seq<usize>, i: int, rng: Xoshiro256StarStar)
    requires
        i < s.len(),
    ensures
        shuffled(s, i, rng).0.len() == s.len(),
        shuffled(s, i, rng).0.to_multiset() == s.to_multiset(),
        forall|x: int| 0 <= i < x < s.len() ==> #[trigger] shuffled(s, i, rng).0[x] == s[x],
    decreases i,
{
    if i > 0 {
        let j = pick(rng, i + 1);
        vstd::arithmetic::div_mod::lemma_mod_bound((next_of(rng) as usize) as int, i + 1);
        let e = exchanged(s, i, j);
        lemma_shuffled_items(e, i - 1, after(rng));
        assert(e.to_multiset() == s.to_multiset()) by {
            if i == j {
                assert(e =~= s);
            } else {
                lemma_traded(s, i, j);
            }
        }
    }
}

/// A shuffle of the first items does not look at those behind.
proof fn lemma_shuffle_below(s: Seq<usize>, i: int, m: int, rng: Xoshiro256StarStar)
    requires
        0 <= i < m <= s.len(),
    ensures
        shuffled(s, i, rng).0.len() == s.len(),
        shuffled(s, i, rng).0.take(m) == shuffled(s.take(m), i, rng).0,
        shuffled(s, i, rng).1 == shuffled(s.take(m), i, rng).1,
        forall|x: int| i < x < s.len() ==> #[trigger] shuffled(s, i, rng).0[x] == s[x],
    decreases i,
{
    if i > 0 {
        let j = pick(rng, i + 1);
        vstd::arithmetic::div_mod::lemma_mod_bound((next_of(rng) as usize) as int, i + 1);
        let e = exchanged(s, i, j);
        lemma_shuffle_below(e, i - 1, m, after(rng));
        assert(e.take(m) =~= exchanged(s.take(m), i, j));
    }
}

/// A random genome takes the pieces in a shuffled order; each gene draws a coin for its rotation,
/// then its selector, and splits the plain way.
pub proof fn law_random_genome_is_shuffled(n: nat, rng: Xoshiro256StarStar)
    requires
        n <= usize::MAX,
    ensures
        ({
            let (order, q) = shuffled(Seq::new(n, |i: int| i as usize), n - 1, rng);
            let (g, r) = random_genome_of(n, rng);
            &&& g.len() == n
            &&& r == crate::breeding::onward(q, 2 * n)
            &&& forall|i: int|
                0 <= i < n ==> {
                    let at = crate::breeding::onward(q, (2 * i) as nat);
                    &&& (#[trigger] g[i]).piece_idx == order[i]
                    &&& g[i].rotate == (next_of(at) % 2 == 1)
                    &&& g[i].point_selector == next_of(after(at)) as u32
                    &&& !g[i].inverse
                }
        }),
{
    let (order, q) = shuffled(Seq::new(n, |i: int| i as usize), n - 1, rng);
    lemma_dressed(order, n, q);
}

proof fn lemma_dressed(order: Seq<usize>, k: nat, q: Xoshiro256StarStar)
    ensures
        ({
            let (g, r) = dressed(order, k, q);
            &&& g.len() == k
            &&& r == crate::breeding::onward(q, 2 * k)
            &&& forall|i: int|
                0 <= i < k ==> {
                    let at = crate::breeding::onward(q, (2 * i) as nat);
                    &&& (#[trigger] g[i]).piece_idx == order[i]
                    &&& g[i].rotate == (next_of(at) % 2 == 1)
                    &&& g[i].point_selector == next_of(after(at)) as u32
                    &&& !g[i].inverse
                }
        }),
    decreases k,
{
    if k > 0 {
        let m = (k - 1) as nat;
        lemma_dressed(order, m, q);
        reveal_with_fuel(crate::breeding::onward, 3);
        assert((2 * k - 1) as nat - 1 == 2 * m);
        let (g, r) = dressed(order, m, q);
        let (h, z) = dressed(order, k, q);
        assert forall|i: int| 0 <= i < k implies ({
            let at = crate::breeding::onward(q, (2 * i) as nat);
            &&& (#[trigger] h[i]).piece_idx == order[i]
            &&& h[i].rotate == (next_of(at) % 2 == 1)
            &&& h[i].point_selector == next_of(after(at)) as u32
            &&& !h[i].inverse
        }) by {
            if i < m {
                assert(h[i] == g[i]);
            }
        }
    }
}

/// `child` has the genes of `donor` from `lo` up to `hi` where they are. Every other place takes a
/// whole gene of `filler`, of a piece that is not among those; `from` says which. From `hi` on,
/// and round the end, they stand in the order in which `filler` has them from there.
pub open spec fn crossed_in_order(
    donor: Seq<Gene>,
    filler: Seq<Gene>,
    child: Seq<Gene>,
    lo: int,
    hi: int,
    from: Seq<int>,
) -> bool {
    let n = donor.len() as int;
    &&& child.len() == n
    &&& from.len() == n
    &&& forall|p: int| lo <= p < hi ==> #[trigger] child[p] == donor[p]
    &&& forall|p: int|
        0 <= p < n && !(lo <= p < hi) ==> {
            &&& 0 <= #[trigger] from[p] < n
            &&& child[p] == filler[from[p]]
            &&& forall|q: int| lo <= q < hi ==> child[p].piece_idx != (#[trigger] donor[q]).piece_idx
        }
    &&& forall|p: int, q: int|
        0 <= p < n && 0 <= q < n && !(lo <= p < hi) && !(lo <= q < hi) && ahead(p, hi, n) < ahead(
            q,
            hi,
            n,
        ) ==> ahead(#[trigger] from[p], hi, n) < ahead(#[trigger] from[q], hi, n)
}

proof fn lemma_ox_child(donor: Seq<Gene>, filler: Seq<Gene>, lo: int, hi: int)
    requires
        same_keys(keys(donor), keys(filler)),
        0 <= lo <= hi <= donor.len(),
        donor.len() <= usize::MAX,
    ensures
        exists|from: Seq<int>|
            #[trigger] crossed_in_order(
                donor,
                filler,
                ox_child(donor, filler, lo, hi),
                lo,
                hi,
                from,
            ),
{
    let (a, b) = (keys(donor), keys(filler));
    law_ox_keeps_segment_and_order(a, b, lo, hi);
    let n = donor.len() as int;
    let plan = ox_plan(a, b, lo, hi);
    let from = Seq::new(n as nat, |p: int| plan[p].pos as int);
    let child = ox_child(donor, filler, lo, hi);
    assert forall|p: int| 0 <= p < n && !(lo <= p < hi) implies {
        &&& 0 <= #[trigger] from[p] < n
        &&& child[p] == filler[from[p]]
        &&& forall|q: int| lo <= q < hi ==> child[p].piece_idx != (#[trigger] donor[q]).piece_idx
    } by {
        assert(plan[p].second);
        assert forall|q: int| lo <= q < hi implies child[p].piece_idx != (
        #[trigger] donor[q]).piece_idx by {
            assert(b[plan[p].pos as int] != a[q]);
        }
    }
    assert forall|p: int, q: int|
        0 <= p < n && 0 <= q < n && !(lo <= p < hi) && !(lo <= q < hi) && ahead(p, hi, n) < ahead(
            q,
            hi,
            n,
        ) implies ahead(#[trigger] from[p], hi, n) < ahead(#[trigger] from[q], hi, n) by {
        assert(ahead(plan[p].pos as int, hi, n) < ahead(plan[q].pos as int, hi, n));
    }
    assert forall|p: int| lo <= p < hi implies #[trigger] child[p] == donor[p] by {
        assert(!plan[p].second && plan[p].pos == p);
    }
    assert(crossed_in_order(donor, filler, child, lo, hi, from));
}

/// A crossover draws a segment that is not empty. The first child keeps the segment of the first
/// parent and fills in from the second, the second child the other way round. Genomes of fewer
/// than two genes are copied.
pub proof fn law_crossover_keeps_a_segment(
    a: Seq<Gene>,
    b: Seq<Gene>,
    rng: Xoshiro256StarStar,
)
    requires
        same_keys(keys(a), keys(b)),
        a.len() <= usize::MAX,
    ensures
        ({
            let n = a.len() as int;
            let c = ox_drawn(a, b, rng).0.0;
            let d = ox_drawn(a, b, rng).0.1;
            let r = ox_drawn(a, b, rng).1;
            let lo = pick(rng, n - 1);
            let hi = lo + 1 + pick(after(rng), n - lo);
            &&& n < 2 ==> c == a && d == b && r == rng
            &&& n >= 2 ==> {
                &&& 0 <= lo < hi <= n
                &&& lo <= n - 2
                &&& r == after(after(rng))
                &&& exists|from: Seq<int>| #[trigger] crossed_in_order(a, b, c, lo, hi, from)
                &&& exists|from: Seq<int>| #[trigger] crossed_in_order(b, a, d, lo, hi, from)
            }
        }),
{
    let n = a.len() as int;
    assert(keys(a).len() == n && keys(b).len() == b.len());
    if n >= 2 {
        let lo = pick(rng, n - 1);
        vstd::arithmetic::div_mod::lemma_mod_bound((next_of(rng) as usize) as int, n - 1);
        vstd::arithmetic::div_mod::lemma_mod_bound((next_of(after(rng)) as usize) as int, n - lo);
        let hi = lo + 1 + pick(after(rng), n - lo);
        lemma_ox_child(a, b, lo, hi);
        lemma_ox_child(b, a, lo, hi);
        assert(ox_drawn(a, b, rng).0.0 == ox_child(a, b, lo, hi));
        assert(ox_drawn(a, b, rng).0.1 == ox_child(b, a, lo, hi));
    }
}

/// What the genetic algorithm breeds with: genomes are judged by the layout that they decode to;
/// two cross in order; one mutates with the chances of the configuration; new ones are random,
/// and there are no others to begin with.
pub proof fn law_bred_with_these<'a>(
    d: SlasDecoder<'a>,
    config: GaConfig,
    a: Seq<Gene>,
    b: Seq<Gene>,
    rng: Xoshiro256StarStar,
)
    ensures
        d.objective(a) == objective_of(
            *d.problem,
            decoded(*d.problem, a, a.len()).placements,
        ),
        d.crossed(a, b, rng) == ox_drawn(a, b, rng),
        d.mutated(a, config, rng) == mutation(
            a,
            Rates {
                swap_p: config.swap_p,
                flip_p: config.flip_p,
                point_p: config.point_p,
                point_delta: config.point_delta,
                inverse_p: config.inverse_p,
            },
            rng,
        ),
        d.random_model(config, rng) == random_genome_of(d.problem.pieces@.len(), rng),
        d.seed_models(config).len() == 0,
{
}

} // verus!
