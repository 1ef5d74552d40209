//! Genetic operators on one gene per piece.

use rand_xoshiro::Xoshiro256StarStar;
use vstd::prelude::*;

use crate::crossover::{
    child_keys, exchanged, find_odd_cycles, key_at, law_cx_keeps_keys, lemma_exchanged_keys,
    odd_cycles, ox_plan, plan_ox, same_keys, sound_plan, Source,
};
use crate::expand::{expand_problem, expandable, is_expansion, shrunk_as, workable};
use crate::ga::{
    self, draw, draw_bit, draw_index, draw_partner, draw_selector, evolved, happens, low_half,
    nudge, nudged, odd, partner, pick, rates_of, Decodable, GaConfig, GaDecoder, Rates,
};
use crate::islands::{self, colony_evolved, colony_results};
use crate::model::{Problem, ProblemSpec, SolutionSpec};
use crate::offcuts::{objective_of, scorable};
use crate::packing::lemma_coherent_gradable;
use crate::rng::after;
use crate::score::Objective;
use crate::slas::decoder::{
    decodable, decode, decode_spec, decoded, fits_sheet, lemma_decoded, Gene, Genome,
};
use crate::sorting::lemma_all_present;

verus! {

/// An individual with one gene per piece.
pub type Individual = crate::ga::Individual<Genome>;

/// The pieces in placement order.
pub open spec fn keys(g: Seq<Gene>) -> Seq<usize> {
    Seq::new(g.len(), |i: int| g[i].piece_idx)
}

/// Each piece has one gene.
pub open spec fn permutation(g: Seq<Gene>, n: nat) -> bool {
    &&& g.len() == n
    &&& keys(g).no_duplicates()
    &&& forall|i: int| 0 <= i < g.len() ==> (#[trigger] g[i]).piece_idx < n
}

/// Genomes with one gene for each piece are orders of the same keys.
pub proof fn lemma_permutations(a: Seq<Gene>, b: Seq<Gene>, n: nat)
    requires
        permutation(a, n),
        permutation(b, n),
    ensures
        same_keys(keys(a), keys(b)),
{
    assert forall|v: usize| keys(a).contains(v) <==> keys(b).contains(v) by {
        if keys(a).contains(v) {
            let i = choose|i: int| 0 <= i < keys(a).len() && keys(a)[i] == v;
            assert(a[i].piece_idx < n);
            lemma_all_present(keys(b), n, v);
        }
        if keys(b).contains(v) {
            let i = choose|i: int| 0 <= i < keys(b).len() && keys(b)[i] == v;
            assert(b[i].piece_idx < n);
            lemma_all_present(keys(a), n, v);
        }
    }
}

/// A genome with the keys of one with a gene for each piece has one for each piece.
pub proof fn lemma_still_permutation(a: Seq<Gene>, b: Seq<Gene>, n: nat)
    requires
        permutation(a, n),
        same_keys(keys(a), keys(b)),
    ensures
        permutation(b, n),
{
    assert(keys(b).len() == b.len());
    assert forall|i: int| 0 <= i < b.len() implies (#[trigger] b[i]).piece_idx < n by {
        assert(keys(b)[i] == b[i].piece_idx);
        assert(keys(b).contains(b[i].piece_idx));
        assert(keys(a).contains(b[i].piece_idx));
        let j = choose|j: int| 0 <= j < keys(a).len() && keys(a)[j] == b[i].piece_idx;
        assert(a[j].piece_idx < n);
    }
}

/// The child that a plan makes: each gene travels whole.
pub open spec fn planned(a: Seq<Gene>, b: Seq<Gene>, plan: Seq<Source>) -> Seq<Gene> {
    Seq::new(
        plan.len(),
        |i: int|
            if plan[i].second {
                b[plan[i].pos as int]
            } else {
                a[plan[i].pos as int]
            },
    )
}

proof fn lemma_planned_keys(a: Seq<Gene>, b: Seq<Gene>, plan: Seq<Source>)
    requires
        a.len() == b.len(),
        sound_plan(a.len(), plan),
    ensures
        keys(planned(a, b, plan)) == child_keys(keys(a), keys(b), plan),
{
    let c = planned(a, b, plan);
    assert forall|i: int| 0 <= i < plan.len() implies keys(c)[i] == key_at(
        keys(a),
        keys(b),
        plan[i],
    ) by {
        assert(plan[i].pos < a.len());
    }
    assert(keys(c) =~= child_keys(keys(a), keys(b), plan));
}

fn piece_order(g: &Genome) -> (r: Vec<usize>)
    ensures
        r@ == keys(g@),
{
    let mut out: Vec<usize> = Vec::new();
    while out.len() < g.len()
        invariant
            out@.len() <= g@.len(),
            out@ =~= keys(g@).take(out@.len() as int),
        decreases g@.len() - out@.len(),
    {
        out.push(g[out.len()].piece_idx);
    }
    assert(out@ =~= keys(g@));
    out
}

fn build_child(donor: &Genome, filler: &Genome, lo: usize, hi: usize) -> (child: Genome)
    requires
        same_keys(keys(donor@), keys(filler@)),
        lo <= hi <= donor@.len(),
    ensures
        child@ == ox_child(donor@, filler@, lo as int, hi as int),
        same_keys(keys(donor@), keys(child@)),
{
    let a = piece_order(donor);
    let b = piece_order(filler);
    let plan = plan_ox(&a, &b, lo, hi);
    let mut child: Genome = Vec::new();
    while child.len() < plan.len()
        invariant
            donor@.len() == filler@.len(),
            sound_plan(donor@.len(), plan@),
            child@.len() <= plan@.len(),
            child@ =~= planned(donor@, filler@, plan@).take(child@.len() as int),
        decreases plan@.len() - child@.len(),
    {
        let s = plan[child.len()];
        assert(plan@[child@.len() as int].pos < donor@.len());
        if s.second {
            child.push(filler[s.pos]);
        } else {
            child.push(donor[s.pos]);
        }
    }
    assert(child@ =~= planned(donor@, filler@, plan@));
    proof {
        lemma_planned_keys(donor@, filler@, plan@);
    }
    child
}

/// The child of an ordered crossover.
pub open spec fn ox_child(donor: Seq<Gene>, filler: Seq<Gene>, lo: int, hi: int) -> Seq<Gene> {
    planned(donor, filler, ox_plan(keys(donor), keys(filler), lo, hi))
}

/// Ordered crossover at a given segment: each child keeps the segment of one parent, and has
/// the other pieces in the order of the other parent.
pub fn ox_at(p1: &Genome, p2: &Genome, lo: usize, hi: usize) -> (r: (Genome, Genome))
    requires
        same_keys(keys(p1@), keys(p2@)),
        lo <= hi <= p1@.len(),
    ensures
        r.0@ == ox_child(p1@, p2@, lo as int, hi as int),
        r.1@ == ox_child(p2@, p1@, lo as int, hi as int),
        same_keys(keys(p1@), keys(r.0@)),
        same_keys(keys(p2@), keys(r.1@)),
{
    (build_child(p1, p2, lo, hi), build_child(p2, p1, lo, hi))
}

/// Ordered crossover at a drawn segment.
pub open spec fn ox_drawn(a: Seq<Gene>, b: Seq<Gene>, rng: Xoshiro256StarStar) -> (
    (Seq<Gene>, Seq<Gene>),
    Xoshiro256StarStar,
) {
    let n = a.len() as int;
    if n < 2 {
        ((a, b), rng)
    } else {
        let lo = pick(rng, n - 1);
        let hi = lo + 1 + pick(after(rng), n - lo);
        ((ox_child(a, b, lo, hi), ox_child(b, a, lo, hi)), after(after(rng)))
    }
}

fn copy_genome(g: &Genome) -> (r: Genome)
    ensures
        r@ == g@,
{
    let mut out: Genome = Vec::new();
    while out.len() < g.len()
        invariant
            out@.len() <= g@.len(),
            out@ =~= g@.take(out@.len() as int),
        decreases g@.len() - out@.len(),
    {
        out.push(g[out.len()]);
    }
    assert(out@ =~= g@);
    out
}

/// Ordered crossover of two orders of the same pieces.
///
/// A random segment is copied from each parent into one child. The remaining positions are
/// filled from the other parent, from the end of the segment on, round the end, without the
/// pieces that the child has already. A gene travels whole.
///
/// ```text
///          lo    hi
///           |     |
/// P1: [ 0 | 1  2 | 3  4 ]  -->  C1: [ 4 | 1  2 | 3  0 ]
/// P2: [ 3 | 0  4 | 1  2 ]  -->  C2: [ 2 | 0  4 | 3  1 ]
/// ```
pub fn ox_crossover(p1: &Genome, p2: &Genome, rng: &mut Xoshiro256StarStar) -> (r: (
    Genome,
    Genome,
))
    requires
        same_keys(keys(p1@), keys(p2@)),
    ensures
        ((r.0@, r.1@), *final(rng)) == ox_drawn(p1@, p2@, *old(rng)),
        same_keys(keys(p1@), keys(r.0@)),
        same_keys(keys(p2@), keys(r.1@)),
{
    let n: usize = p1.len();
    if n < 2 {
        assert(keys(p1@).len() == p1@.len() && keys(p2@).len() == p2@.len());
        return (copy_genome(p1), copy_genome(p2));
    }
    let lo: usize = draw_index(rng, n - 1);
    let hi: usize = lo + 1 + draw_index(rng, n - lo);
    ox_at(p1, p2, lo, hi)
}

/// The children of a cycle crossover.
pub open spec fn cx_children(a: Seq<Gene>, b: Seq<Gene>) -> (Seq<Gene>, Seq<Gene>) {
    let odd = odd_cycles(keys(a), keys(b));
    (
        Seq::new(
            a.len(),
            |i: int|
                if odd[i] {
                    b[i]
                } else {
                    a[i]
                },
        ),
        Seq::new(
            a.len(),
            |i: int|
                if odd[i] {
                    a[i]
                } else {
                    b[i]
                },
        ),
    )
}

/// Cycle crossover of two orders of the same pieces.
///
/// A cycle goes from a position to the one at which the first parent has the piece that the
/// second has here. Even cycles keep their parents, odd cycles exchange them.
///
/// ```text
/// pos:  0  1  2  3  4
/// P1: [ 0  1  2  3  4 ]
/// P2: [ 3  0  4  1  2 ]
/// cy:   0  0  1  0  1
///
/// C1: [ 0  1  4  3  2 ]
/// C2: [ 3  0  2  1  4 ]
/// ```
pub fn cx_crossover(p1: &Genome, p2: &Genome) -> (r: (Genome, Genome))
    requires
        same_keys(keys(p1@), keys(p2@)),
    ensures
        (r.0@, r.1@) == (if p1@.len() < 2 {
            (p1@, p2@)
        } else {
            cx_children(p1@, p2@)
        }),
        same_keys(keys(p1@), keys(r.0@)),
        same_keys(keys(p1@), keys(r.1@)),
{
    let n: usize = p1.len();
    assert(keys(p1@).len() == p1@.len() && keys(p2@).len() == p2@.len());
    if n < 2 {
        return (copy_genome(p1), copy_genome(p2));
    }
    let a = piece_order(p1);
    let b = piece_order(p2);
    let odd = find_odd_cycles(&a, &b);
    let mut c1: Genome = Vec::new();
    let mut c2: Genome = Vec::new();
    while c1.len() < n
        invariant
            n == p1@.len(),
            n == p2@.len(),
            n == odd@.len(),
            odd@ == odd_cycles(keys(p1@), keys(p2@)),
            c1@.len() <= n,
            c2@.len() == c1@.len(),
            c1@ =~= cx_children(p1@, p2@).0.take(c1@.len() as int),
            c2@ =~= cx_children(p1@, p2@).1.take(c1@.len() as int),
        decreases n - c1@.len(),
    {
        let i: usize = c1.len();
        if odd[i] {
            c1.push(p2[i]);
            c2.push(p1[i]);
        } else {
            c1.push(p1[i]);
            c2.push(p2[i]);
        }
    }
    assert(c1@ =~= cx_children(p1@, p2@).0);
    assert(c2@ =~= cx_children(p1@, p2@).1);
    proof {
        law_cx_keeps_keys(keys(p1@), keys(p2@), odd@);
        assert(keys(c1@) =~= Seq::new(
            n as nat,
            |i: int|
                if odd@[i] {
                    keys(p2@)[i]
                } else {
                    keys(p1@)[i]
                },
        ));
        assert(keys(c2@) =~= Seq::new(
            n as nat,
            |i: int|
                if odd@[i] {
                    keys(p1@)[i]
                } else {
                    keys(p2@)[i]
                },
        ));
    }
    (c1, c2)
}

/// Gene `i` after it may have been exchanged with another one.
pub open spec fn swap_step(g: Seq<Gene>, i: int, p: u64, rng: Xoshiro256StarStar) -> (
    Seq<Gene>,
    Xoshiro256StarStar,
) {
    if happens(rng, p) {
        (
            exchanged(g, i, partner(after(rng), i, g.len() as int)),
            after(after(rng)),
        )
    } else {
        (g, after(rng))
    }
}

/// Gene `i` after its rotation may have been flipped.
pub open spec fn flip_step(g: Seq<Gene>, i: int, p: u64, rng: Xoshiro256StarStar) -> (
    Seq<Gene>,
    Xoshiro256StarStar,
) {
    (
        if happens(rng, p) {
            g.update(i, Gene { rotate: !g[i].rotate, ..g[i] })
        } else {
            g
        },
        after(rng),
    )
}

/// Gene `i` after its selector may have been shifted.
pub open spec fn point_step(
    g: Seq<Gene>,
    i: int,
    p: u64,
    delta: (u32, u32),
    rng: Xoshiro256StarStar,
) -> (Seq<Gene>, Xoshiro256StarStar) {
    if happens(rng, p) {
        (
            g.update(
                i,
                Gene { point_selector: nudged(g[i].point_selector, delta, after(rng)), ..g[i] },
            ),
            after(after(after(rng))),
        )
    } else {
        (g, after(rng))
    }
}

/// Gene `i` after its split direction may have been flipped.
pub open spec fn inverse_step(g: Seq<Gene>, i: int, p: u64, rng: Xoshiro256StarStar) -> (
    Seq<Gene>,
    Xoshiro256StarStar,
) {
    (
        if happens(rng, p) {
            g.update(i, Gene { inverse: !g[i].inverse, ..g[i] })
        } else {
            g
        },
        after(rng),
    )
}

/// All that may happen at gene `i`.
pub open spec fn mutated_gene(g: Seq<Gene>, i: int, rates: Rates, rng: Xoshiro256StarStar) -> (
    Seq<Gene>,
    Xoshiro256StarStar,
) {
    let (g1, r1) = swap_step(g, i, rates.swap_p, rng);
    let (g2, r2) = flip_step(g1, i, rates.flip_p, r1);
    let (g3, r3) = point_step(g2, i, rates.point_p, rates.point_delta, r2);
    inverse_step(g3, i, rates.inverse_p, r3)
}

/// All that may happen at the first `k` genes.
pub open spec fn mutated_genes(g: Seq<Gene>, k: nat, rates: Rates, rng: Xoshiro256StarStar) -> (
    Seq<Gene>,
    Xoshiro256StarStar,
)
    decreases k,
{
    if k == 0 {
        (g, rng)
    } else {
        let (h, r) = mutated_genes(g, (k - 1) as nat, rates, rng);
        mutated_gene(h, k - 1, rates, r)
    }
}

/// A genome after mutation; one of a single gene stays as it is.
pub open spec fn mutation(g: Seq<Gene>, rates: Rates, rng: Xoshiro256StarStar) -> (
    Seq<Gene>,
    Xoshiro256StarStar,
) {
    if g.len() < 2 {
        (g, rng)
    } else {
        mutated_genes(g, g.len(), rates, rng)
    }
}

proof fn lemma_mutated_gene(g: Seq<Gene>, i: int, rates: Rates, rng: Xoshiro256StarStar)
    requires
        g.len() >= 2,
        0 <= i < g.len(),
        keys(g).no_duplicates(),
    ensures
        mutated_gene(g, i, rates, rng).0.len() == g.len(),
        same_keys(keys(g), keys(mutated_gene(g, i, rates, rng).0)),
{
    let (g1, r1) = swap_step(g, i, rates.swap_p, rng);
    let (g2, r2) = flip_step(g1, i, rates.flip_p, r1);
    let (g3, r3) = point_step(g2, i, rates.point_p, rates.point_delta, r2);
    let (g4, r4) = inverse_step(g3, i, rates.inverse_p, r3);
    if happens(rng, rates.swap_p) {
        let j = partner(after(rng), i, g.len() as int);
        assert(0 <= j < g.len());
        assert(keys(g1) =~= exchanged(keys(g), i, j));
        lemma_exchanged_keys(keys(g), i, j);
    }
    assert(keys(g2) =~= keys(g1));
    assert(keys(g3) =~= keys(g2));
    assert(keys(g4) =~= keys(g3));
}

/// A mutation keeps the pieces, each once.
pub proof fn law_mutation_keeps_keys(g: Seq<Gene>, k: nat, rates: Rates, rng: Xoshiro256StarStar)
    requires
        g.len() >= 2,
        k <= g.len(),
        keys(g).no_duplicates(),
    ensures
        mutated_genes(g, k, rates, rng).0.len() == g.len(),
        same_keys(keys(g), keys(mutated_genes(g, k, rates, rng).0)),
    decreases k,
{
    if k > 0 {
        law_mutation_keeps_keys(g, (k - 1) as nat, rates, rng);
        let (h, r) = mutated_genes(g, (k - 1) as nat, rates, rng);
        lemma_mutated_gene(h, k - 1, rates, r);
    }
}

/// Without a chance of anything a mutation leaves the genome as it is.
pub proof fn law_no_chance_no_mutation(g: Seq<Gene>, rates: Rates, rng: Xoshiro256StarStar)
    requires
        rates.swap_p == 0,
        rates.flip_p == 0,
        rates.point_p == 0,
        rates.inverse_p == 0,
    ensures
        mutation(g, rates, rng).0 == g,
{
    if g.len() >= 2 {
        lemma_no_chance(g, g.len(), rates, rng);
    }
}

proof fn lemma_no_chance(g: Seq<Gene>, k: nat, rates: Rates, rng: Xoshiro256StarStar)
    requires
        rates.swap_p == 0,
        rates.flip_p == 0,
        rates.point_p == 0,
        rates.inverse_p == 0,
    ensures
        mutated_genes(g, k, rates, rng).0 == g,
    decreases k,
{
    if k > 0 {
        lemma_no_chance(g, (k - 1) as nat, rates, rng);
    }
}

/// Changes a genome in place. At each gene, independently: an exchange with a random other
/// gene, a flip of the rotation, a shift of the selector, a flip of the split direction.
pub fn mutate(
    genome: &mut Genome,
    swap_p: u64,
    flip_p: u64,
    point_p: u64,
    point_delta: (u32, u32),
    inverse_p: u64,
    rng: &mut Xoshiro256StarStar,
)
    requires
        !(point_delta.0 == 0 && point_delta.1 == u32::MAX),
    ensures
        (final(genome)@, *final(rng)) == mutation(
            old(genome)@,
            (Rates { swap_p, flip_p, point_p, point_delta, inverse_p }),
            *old(rng),
        ),
        keys(old(genome)@).no_duplicates() ==> same_keys(
            keys(old(genome)@),
            keys(final(genome)@),
        ),
{
    let n: usize = genome.len();
    if n < 2 {
        return;
    }
    let ghost rates = Rates { swap_p, flip_p, point_p, point_delta, inverse_p };
    let mut i: usize = 0;
    while i < n
        invariant
            i <= n,
            n >= 2,
            n == old(genome)@.len(),
            n == genome@.len(),
            rates == (Rates { swap_p, flip_p, point_p, point_delta, inverse_p }),
            !(point_delta.0 == 0 && point_delta.1 == u32::MAX),
            (genome@, *rng) == mutated_genes(old(genome)@, i as nat, rates, *old(rng)),
        decreases n - i,
    {
        let ghost g0 = genome@;
        let ghost r0 = *rng;
        if draw(rng, swap_p) {
            let j: usize = draw_partner(rng, i, n);
            let (a, b) = (genome[i], genome[j]);
            genome.set(i, b);
            genome.set(j, a);
        }
        assert((genome@, *rng) == swap_step(g0, i as int, swap_p, r0));
        let ghost (g1, r1) = (genome@, *rng);
        if draw(rng, flip_p) {
            let a = genome[i];
            genome.set(i, Gene { rotate: !a.rotate, ..a });
        }
        assert((genome@, *rng) == flip_step(g1, i as int, flip_p, r1));
        let ghost (g2, r2) = (genome@, *rng);
        if draw(rng, point_p) {
            let a = genome[i];
            let point_selector: u32 = nudge(a.point_selector, point_delta, rng);
            genome.set(i, Gene { point_selector, ..a });
        }
        assert((genome@, *rng) == point_step(g2, i as int, point_p, point_delta, r2));
        let ghost (g3, r3) = (genome@, *rng);
        if draw(rng, inverse_p) {
            let a = genome[i];
            genome.set(i, Gene { inverse: !a.inverse, ..a });
        }
        assert((genome@, *rng) == inverse_step(g3, i as int, inverse_p, r3));
        i += 1;
    }
    proof {
        if keys(old(genome)@).no_duplicates() {
            law_mutation_keeps_keys(old(genome)@, n as nat, rates, *old(rng));
        }
    }
}

/// A shuffle of the first `i + 1` items, from the last on.
pub open spec fn shuffled(s: Seq<usize>, i: int, rng: Xoshiro256StarStar) -> (
    Seq<usize>,
    Xoshiro256StarStar,
)
    decreases i,
{
    if i <= 0 {
        (s, rng)
    } else {
        shuffled(exchanged(s, i, pick(rng, i + 1)), i - 1, after(rng))
    }
}

/// A random gene for each of the first `k` pieces of an order.
pub open spec fn dressed(order: Seq<usize>, k: nat, rng: Xoshiro256StarStar) -> (
    Seq<Gene>,
    Xoshiro256StarStar,
)
    decreases k,
{
    if k == 0 {
        (Seq::empty(), rng)
    } else {
        let (g, r) = dressed(order, (k - 1) as nat, rng);
        (
            g.push(
                Gene {
                    piece_idx: order[k - 1],
                    rotate: odd(r),
                    point_selector: low_half(after(r)),
                    inverse: false,
                },
            ),
            after(after(r)),
        )
    }
}

/// A random genome for `n` pieces.
pub open spec fn random_genome_of(n: nat, rng: Xoshiro256StarStar) -> (
    Seq<Gene>,
    Xoshiro256StarStar,
) {
    let (order, r) = shuffled(Seq::new(n, |i: int| i as usize), n - 1, rng);
    dressed(order, n, r)
}

/// A random genome with one gene for each of `n` pieces.
pub fn make_genome(n: usize, rng: &mut Xoshiro256StarStar) -> (r: Genome)
    ensures
        (r@, *final(rng)) == random_genome_of(n as nat, *old(rng)),
        permutation(r@, n as nat),
{
    let mut indices: Vec<usize> = Vec::new();
    let ghost first = Seq::new(n as nat, |i: int| i as usize);
    while indices.len() < n
        invariant
            indices@.len() <= n,
            first == Seq::new(n as nat, |i: int| i as usize),
            indices@ =~= first.take(indices@.len() as int),
        decreases n - indices@.len(),
    {
        let k: usize = indices.len();
        indices.push(k);
    }
    assert(indices@ =~= first);
    assert(first.no_duplicates());
    let mut i: usize = n;
    while i > 1
        invariant
            i <= n,
            indices@.len() == n,
            first.len() == n,
            same_keys(first, indices@),
            shuffled(indices@, i - 1, *rng) == shuffled(first, n - 1, *old(rng)),
        decreases i,
    {
        i -= 1;
        let j: usize = draw_index(rng, i + 1);
        let (a, b) = (indices[i], indices[j]);
        proof {
            lemma_exchanged_keys(indices@, i as int, j as int);
        }
        let ghost s = indices@;
        indices.set(i, b);
        indices.set(j, a);
        assert(indices@ =~= exchanged(s, i as int, j as int));
    }
    let ghost order = indices@;
    let ghost r1 = *rng;
    assert((order, r1) == shuffled(first, n - 1, *old(rng)));
    let mut genome: Genome = Vec::new();
    while genome.len() < n
        invariant
            genome@.len() <= n,
            indices@.len() == n,
            order == indices@,
            (genome@, *rng) == dressed(order, genome@.len(), r1),
            forall|i: int| 0 <= i < genome@.len() ==> (#[trigger] genome@[i]).piece_idx == order[i],
        decreases n - genome@.len(),
    {
        let piece_idx: usize = indices[genome.len()];
        let rotate = draw_bit(rng);
        let point_selector: u32 = draw_selector(rng);
        genome.push(Gene { piece_idx, rotate, point_selector, inverse: false });
    }
    proof {
        assert(keys(genome@) =~= order);
        assert forall|i: int| 0 <= i < genome@.len() implies (#[trigger] genome@[i]).piece_idx
            < n by {
            assert(order.contains(order[i]));
            assert(first.contains(order[i]));
        }
    }
    genome
}

/// The decoder with one gene per piece; it has the flat problem.
pub struct SlasDecoder<'a> {
    pub problem: &'a Problem,
}

/// Every piece fits on a sheet, and every layout can be scored.
pub open spec fn playable(problem: Problem) -> bool {
    &&& forall|i: int| 0 <= i < problem.pieces@.len() ==> #[trigger] fits_sheet(problem, i)
    &&& scorable(problem.sheet, problem.pieces@.len())
    &&& problem.pieces@.len() < usize::MAX
}

impl<'a> GaDecoder for SlasDecoder<'a> {
    type Genome = Genome;

    type Model = Seq<Gene>;

    open spec fn model(genome: Genome) -> Seq<Gene> {
        genome@
    }

    open spec fn ready(&self, config: GaConfig) -> bool {
        playable(*self.problem) && config.delta_ok()
    }

    open spec fn decodes(&self, m: Seq<Gene>) -> bool {
        playable(*self.problem) && permutation(m, self.problem.pieces@.len())
    }

    open spec fn crossable(&self, a: Seq<Gene>, b: Seq<Gene>) -> bool {
        same_keys(keys(a), keys(b))
    }

    open spec fn valid(&self, config: GaConfig, m: Seq<Gene>) -> bool {
        self.decodes(m)
    }

    open spec fn objective(&self, m: Seq<Gene>) -> Objective {
        objective_of(*self.problem, decoded(*self.problem, m, m.len()).placements)
    }

    open spec fn random_model(&self, config: GaConfig, rng: Xoshiro256StarStar) -> (
        Seq<Gene>,
        Xoshiro256StarStar,
    ) {
        random_genome_of(self.problem.pieces@.len(), rng)
    }

    open spec fn crossed(&self, a: Seq<Gene>, b: Seq<Gene>, rng: Xoshiro256StarStar) -> (
        (Seq<Gene>, Seq<Gene>),
        Xoshiro256StarStar,
    ) {
        ox_drawn(a, b, rng)
    }

    open spec fn mutated(&self, m: Seq<Gene>, config: GaConfig, rng: Xoshiro256StarStar) -> (
        Seq<Gene>,
        Xoshiro256StarStar,
    ) {
        mutation(m, rates_of(config), rng)
    }

    open spec fn seed_models(&self, config: GaConfig) -> Seq<Seq<Gene>> {
        Seq::empty()
    }

    proof fn clone_says_the_same(a: Genome, b: Genome) {
        if a != b {
            assert forall|i: int| 0 <= i < a@.len() implies a@[i] == b@[i] by {
                assert(cloned(a@[i], b@[i]));
            }
            assert(a@ =~= b@);
        }
    }

    fn random_genome(&self, config: &GaConfig, rng: &mut Xoshiro256StarStar) -> (r: Genome) {
        make_genome(self.problem.pieces.len(), rng)
    }

    fn eval(&self, genome: &Genome) -> (r: Objective) {
        proof {
            let p = *self.problem;
            assert(decodable(p, genome@));
            lemma_decoded(p, genome@, genome@.len());
            lemma_coherent_gradable(p, decoded(p, genome@, genome@.len()));
        }
        decode(self.problem, genome).eval(self.problem)
    }

    fn crossover(&self, p1: &Genome, p2: &Genome, rng: &mut Xoshiro256StarStar) -> (r: (
        Genome,
        Genome,
    )) {
        let r = ox_crossover(p1, p2, rng);
        proof {
            let n = self.problem.pieces@.len();
            if permutation(p1@, n) {
                lemma_still_permutation(p1@, r.0@, n);
            }
            if permutation(p2@, n) {
                lemma_still_permutation(p2@, r.1@, n);
            }
        }
        r
    }

    fn mutate(&self, genome: &mut Genome, config: &GaConfig, rng: &mut Xoshiro256StarStar) {
        mutate(
            genome,
            config.swap_p,
            config.flip_p,
            config.point_p,
            config.point_delta,
            config.inverse_p,
            rng,
        );
        proof {
            lemma_still_permutation(old(genome)@, genome@, self.problem.pieces@.len());
        }
    }

    fn seed_genomes(&self, config: &GaConfig) -> (r: Vec<Genome>) {
        Vec::new()
    }

    proof fn valid_is_usable(&self, config: GaConfig, a: Seq<Gene>, b: Seq<Gene>) {
        lemma_permutations(a, b, self.problem.pieces@.len());
    }
}

/// The number of generations is of no account to the decoder, so that from the same state of the
/// generator a run with more of them is never worse.
pub proof fn law_longer_run_is_no_worse(
    decoder: SlasDecoder,
    a: GaConfig,
    b: GaConfig,
    rng: Xoshiro256StarStar,
)
    requires
        b == (GaConfig { iteration_count: b.iteration_count, ..a }),
        a.iteration_count <= b.iteration_count,
    ensures
        !decoder.objective(evolved(decoder, a, rng, a.iteration_count as nat).best).beats(
            decoder.objective(evolved(decoder, b, rng, b.iteration_count as nat).best),
        ),
{
    assert(rates_of(a) == rates_of(b));
    ga::law_longer_run_is_no_worse(decoder, a, b, rng);
}

/// Runs the algorithm on a flat problem.
pub fn run_ga(problem: &Problem, config: &GaConfig, rng: &mut Xoshiro256StarStar) -> (r: Individual)
    requires
        playable(*problem),
        config.runnable(),
    ensures
        ({
            let decoder = SlasDecoder { problem };
            let run = evolved(decoder, *config, *old(rng), config.iteration_count as nat);
            &&& r.genome@ == run.best
            &&& r.objective == decoder.objective(run.best)
            &&& *final(rng) == run.rng
        }),
        permutation(r.genome@, problem.pieces@.len()),
{
    let decoder = SlasDecoder { problem };
    ga::run_ga(&decoder, config, rng)
}

/// The results of islands on a problem: seeds and best genomes from the best on.
pub open spec fn island_results(
    problem: Problem,
    config: GaConfig,
    seeds: Seq<u64>,
    migration_interval: int,
    r: Seq<(u64, Individual)>,
) -> bool {
    let decoder = SlasDecoder { problem: &problem };
    let c = colony_evolved(
        decoder,
        config,
        seeds,
        migration_interval,
        config.iteration_count as nat,
    );
    &&& r.len() == seeds.len()
    &&& forall|i: int|
        0 <= i < r.len() ==> {
            &&& ((#[trigger] r[i]).0, r[i].1.genome@) == colony_results(decoder, seeds, c, i)
            &&& r[i].1.objective == decoder.objective(r[i].1.genome@)
            &&& permutation(r[i].1.genome@, problem.pieces@.len())
        }
}

/// Runs one island for each seed on the flat form of a problem, with an exchange every
/// `migration_interval` generations unless that is 0, and returns the best individual of each
/// with its seed, from the best on.
pub fn run_ga_mt(
    spec: &ProblemSpec,
    config: &GaConfig,
    seeds: &Vec<u64>,
    migration_interval: usize,
) -> (r: Vec<(u64, Individual)>)
    requires
        expandable(*spec),
        forall|p: Problem| #[trigger] is_expansion(*spec, p) ==> playable(p),
        config.runnable(),
    ensures
        exists|p: Problem| #[trigger]
            is_expansion(*spec, p) && island_results(
                p,
                *config,
                seeds@,
                migration_interval as int,
                r@,
            ),
{
    let problem = expand_problem(spec);
    let decoder = SlasDecoder { problem: &problem };
    let r = islands::run_ga_mt(&decoder, config, seeds, migration_interval);
    assert(is_expansion(*spec, problem) && island_results(
        problem,
        *config,
        seeds@,
        migration_interval as int,
        r@,
    ));
    r
}

impl Decodable for Genome {
    open spec fn decodable_for(&self, spec: ProblemSpec) -> bool {
        &&& workable(spec)
        &&& self@.len() < usize::MAX
        &&& forall|p: Problem| #[trigger] is_expansion(spec, p) ==> decodable(p, self@)
    }

    open spec fn decodes_to(&self, spec: ProblemSpec, sol: SolutionSpec) -> bool {
        exists|p: Problem| #[trigger]
            is_expansion(spec, p) && shrunk_as(
                spec,
                sol,
                decoded(p, self@, self@.len()).placements,
                decoded(p, self@, self@.len()).free,
            )
    }

    fn decode(&self, spec: &ProblemSpec) -> (r: SolutionSpec) {
        decode_spec(spec, self)
    }
}

} // verus!
