//! What becomes of genomes with one gene per piece type: by mutation, crossover and chance.

use rand_xoshiro::Xoshiro256StarStar;
use vstd::prelude::*;

use super::decoder::{all_genes, decoded, GeneView};
use super::ga::{
    class_of, drawn_inverses, drawn_selectors, flipped_inverses, greedy_gene, greedy_model, keys,
    members, mutated_class, mutated_classes, mutated_genes, mutated_payload, nudged_selectors,
    ox_child, ox_class, ox_classes, random_class, random_classes, random_gene, random_genes,
    stirred, GlasDecoder, SideOrder, TotalAreaOrder,
};
use crate::breeding::{born, law_every_child_is_mutated, onward};
use crate::crossover::{exchanged, law_ox_keeps_segment_and_order, ox_plan, same_keys};
use crate::ga::{
    generation, happens, law_certain_and_never, pick, rates_of, GaConfig, GaDecoder, Rates, Run,
    CERTAIN,
};
use crate::laying::ahead;
use crate::model::{PieceType, ProblemSpec};
use crate::offcuts::objective_of;
use crate::rng::{after, next_of};
use crate::slas::heredity::{law_shift_is_in_range, lemma_partner, shifted};

verus! {

/// Selectors `s` become `t` one after the other, number `i` between states `qs[i]` and
/// `qs[i + 1]` of the generator: each is shifted with its own chance.
pub open spec fn selectors_change(
    s: Seq<u32>,
    t: Seq<u32>,
    p: u64,
    delta: (u32, u32),
    qs: Seq<Xoshiro256StarStar>,
) -> bool {
    &&& t.len() == s.len()
    &&& qs.len() == s.len() + 1
    &&& forall|i: int|
        0 <= i < s.len() ==> {
            let q = #[trigger] qs[i];
            if happens(q, p) {
                shifted(s[i], t[i], delta, after(q)) && qs[i + 1] == after(after(after(q)))
            } else {
                t[i] == s[i] && qs[i + 1] == after(q)
            }
        }
}

/// Every selector of a gene is shifted with its own chance, and no other draw comes between.
pub proof fn law_selectors_change_one_by_one(
    s: Seq<u32>,
    p: u64,
    delta: (u32, u32),
    rng: Xoshiro256StarStar,
)
    ensures
        exists|qs: Seq<Xoshiro256StarStar>|
            {
                &&& #[trigger] selectors_change(
                    s,
                    nudged_selectors(s, s.len(), p, delta, rng).0,
                    p,
                    delta,
                    qs,
                )
                &&& qs[0] == rng
                &&& qs.last() == nudged_selectors(s, s.len(), p, delta, rng).1
            },
{
    let qs = lemma_selectors(s, s.len(), p, delta, rng);
    assert(s.take(s.len() as int) =~= s);
    let t = nudged_selectors(s, s.len(), p, delta, rng).0;
    assert(t.take(s.len() as int) =~= t);
}

proof fn lemma_selectors(s: Seq<u32>, k: nat, p: u64, delta: (u32, u32), rng: Xoshiro256StarStar) -> (qs: Seq<
    Xoshiro256StarStar,
>)
    requires
        k <= s.len(),
    ensures
        ({
            let (t, r) = nudged_selectors(s, k, p, delta, rng);
            &&& t.len() == s.len()
            &&& selectors_change(s.take(k as int), t.take(k as int), p, delta, qs)
            &&& qs[0] == rng
            &&& qs.last() == r
            &&& forall|i: int| k <= i < s.len() ==> #[trigger] t[i] == s[i]
        }),
    decreases k,
{
    if k == 0 {
        seq![rng]
    } else {
        let m = (k - 1) as nat;
        let before = lemma_selectors(s, m, p, delta, rng);
        let (u, q) = nudged_selectors(s, m, p, delta, rng);
        let (t, r) = nudged_selectors(s, k, p, delta, rng);
        let qs = before.push(r);
        law_shift_is_in_range(u[m as int], delta, after(q));
        let (a, b) = (s.take(k as int), t.take(k as int));
        assert forall|i: int| 0 <= i < a.len() implies ({
            let z = #[trigger] qs[i];
            if happens(z, p) {
                shifted(a[i], b[i], delta, after(z)) && qs[i + 1] == after(after(after(z)))
            } else {
                b[i] == a[i] && qs[i + 1] == after(z)
            }
        }) by {
            if i < m {
                assert(before[i] == qs[i] && before[i + 1] == qs[i + 1]);
                assert(s.take(m as int)[i] == a[i]);
                assert(u.take(m as int)[i] == b[i]);
            } else {
                assert(qs[i] == q);
            }
        }
        qs
    }
}

/// Every split direction of a gene is flipped with its own chance, by one draw each.
pub proof fn law_directions_change_one_by_one(
    s: Seq<bool>,
    k: nat,
    p: u64,
    rng: Xoshiro256StarStar,
)
    requires
        k <= s.len(),
    ensures
        ({
            let (t, r) = flipped_inverses(s, k, p, rng);
            &&& t.len() == s.len()
            &&& r == onward(rng, k)
            &&& forall|i: int|
                0 <= i < s.len() ==> #[trigger] t[i] == (s[i] != (i < k && happens(
                    onward(rng, i as nat),
                    p,
                )))
        }),
    decreases k,
{
    if k > 0 {
        law_directions_change_one_by_one(s, (k - 1) as nat, p, rng);
    }
}

/// What happens to a gene on its own, from state `q` of the generator to state `r`: its rotation,
/// its selectors and its split directions change, each with its own chance.
pub open spec fn payload_changes(
    g: GeneView,
    h: GeneView,
    rates: Rates,
    q: Xoshiro256StarStar,
    r: Xoshiro256StarStar,
) -> bool {
    let n = g.inverses.len();
    &&& h.type_idx == g.type_idx
    &&& h.rotate == (g.rotate != happens(q, rates.flip_p))
    &&& exists|qs: Seq<Xoshiro256StarStar>|
        {
            &&& #[trigger] selectors_change(
                g.selectors,
                h.selectors,
                rates.point_p,
                rates.point_delta,
                qs,
            )
            &&& qs[0] == after(q)
            &&& r == onward(qs.last(), n)
            &&& h.inverses.len() == n
            &&& forall|i: int|
                0 <= i < n ==> #[trigger] h.inverses[i] == (g.inverses[i] != happens(
                    onward(qs.last(), i as nat),
                    rates.inverse_p,
                ))
        }
}

proof fn lemma_payload(g: GeneView, rates: Rates, q: Xoshiro256StarStar)
    requires
        g.selectors.len() == g.inverses.len(),
    ensures
        payload_changes(
            g,
            mutated_payload(g, rates, q).0,
            rates,
            q,
            mutated_payload(g, rates, q).1,
        ),
{
    let n = g.selectors.len();
    law_selectors_change_one_by_one(g.selectors, rates.point_p, rates.point_delta, after(q));
    let (s, z) = nudged_selectors(
        g.selectors,
        n,
        rates.point_p,
        rates.point_delta,
        after(q),
    );
    law_directions_change_one_by_one(g.inverses, n, rates.inverse_p, z);
    let h = mutated_payload(g, rates, q).0;
    let qs = choose|qs: Seq<Xoshiro256StarStar>|
        {
            &&& #[trigger] selectors_change(
                g.selectors,
                s,
                rates.point_p,
                rates.point_delta,
                qs,
            )
            &&& qs[0] == after(q)
            &&& qs.last() == z
        };
    assert(h.selectors == s);
    assert(selectors_change(g.selectors, h.selectors, rates.point_p, rates.point_delta, qs));
    assert forall|i: int| 0 <= i < g.inverses.len() implies #[trigger] h.inverses[i] == (
    g.inverses[i] != happens(onward(qs.last(), i as nat), rates.inverse_p)) by {}
}

/// What happens at gene `k` when a class `g` mutates to `h`, from state `q` of the generator to
/// state `r`: with the chance of a swap it trades places with another gene; then the gene that is
/// there now changes on its own. All else stays as it is.
pub open spec fn gene_changes(
    g: Seq<GeneView>,
    h: Seq<GeneView>,
    k: int,
    rates: Rates,
    q: Xoshiro256StarStar,
    r: Xoshiro256StarStar,
) -> bool {
    let n = g.len() as int;
    let swaps = happens(q, rates.swap_p);
    let other = (k + 1 + pick(after(q), n - 1)) % n;
    let from = if swaps {
        other
    } else {
        k
    };
    &&& h.len() == n
    &&& swaps ==> 0 <= other < n && other != k && h[other] == g[k]
    &&& forall|j: int| 0 <= j < n && j != k && j != from ==> #[trigger] h[j] == g[j]
    &&& payload_changes(
        g[from],
        h[k],
        rates,
        if swaps {
            after(after(q))
        } else {
            after(q)
        },
        r,
    )
}

/// Every gene has as many selectors as split directions.
pub open spec fn paired(class: Seq<GeneView>) -> bool {
    forall|i: int|
        0 <= i < class.len() ==> (#[trigger] class[i]).selectors.len() == class[i].inverses.len()
}

proof fn lemma_still_paired(
    class: Seq<GeneView>,
    k: nat,
    rates: Rates,
    rng: Xoshiro256StarStar,
)
    requires
        paired(class),
        class.len() >= 2,
        k <= class.len(),
    ensures
        mutated_genes(class, k, rates, rng).0.len() == class.len(),
        paired(mutated_genes(class, k, rates, rng).0),
        k > 0 ==> gene_changes(
            mutated_genes(class, (k - 1) as nat, rates, rng).0,
            mutated_genes(class, k, rates, rng).0,
            k - 1,
            rates,
            mutated_genes(class, (k - 1) as nat, rates, rng).1,
            mutated_genes(class, k, rates, rng).1,
        ),
    decreases k,
{
    if k > 0 {
        let m = (k - 1) as nat;
        lemma_still_paired(class, m, rates, rng);
        let (a, q) = mutated_genes(class, m, rates, rng);
        let (h, r) = mutated_genes(class, k, rates, rng);
        let n = a.len() as int;
        let p = pick(after(q), n - 1);
        vstd::arithmetic::div_mod::lemma_mod_bound((next_of(after(q)) as usize) as int, n - 1);
        lemma_partner(m as int, p, n);
        let swaps = happens(q, rates.swap_p);
        let other = (m + 1 + p) % n;
        let from = if swaps {
            other
        } else {
            m as int
        };
        let q1 = if swaps {
            after(after(q))
        } else {
            after(q)
        };
        let c = if swaps {
            exchanged(a, m as int, other)
        } else {
            a
        };
        assert(c[m as int] == a[from]);
        lemma_payload(a[from], rates, q1);
        assert(h == c.update(m as int, mutated_payload(a[from], rates, q1).0));
        assert forall|i: int| 0 <= i < h.len() implies (#[trigger] h[i]).selectors.len()
            == h[i].inverses.len() by {
            if i != m {
                assert(h[i] == c[i]);
                assert(a[i].selectors.len() == a[i].inverses.len());
                assert(a[m as int].selectors.len() == a[m as int].inverses.len());
            }
        }
    }
}

/// A class mutates gene by gene; one of fewer than two genes does not mutate.
pub proof fn law_class_mutates_gene_by_gene(
    class: Seq<GeneView>,
    k: nat,
    rates: Rates,
    rng: Xoshiro256StarStar,
)
    requires
        paired(class),
        class.len() >= 2,
        k < class.len(),
    ensures
        mutated_genes(class, 0, rates, rng) == (class, rng),
        mutated_class(class, rates, rng) == mutated_genes(class, class.len(), rates, rng),
        gene_changes(
            mutated_genes(class, k, rates, rng).0,
            mutated_genes(class, k + 1, rates, rng).0,
            k as int,
            rates,
            mutated_genes(class, k, rates, rng).1,
            mutated_genes(class, k + 1, rates, rng).1,
        ),
{
    lemma_still_paired(class, k + 1, rates, rng);
}

/// A genome mutates class by class, and no gene leaves its class.
pub proof fn law_genome_mutates_class_by_class(
    genome: Seq<Seq<GeneView>>,
    k: nat,
    rates: Rates,
    rng: Xoshiro256StarStar,
)
    requires
        k <= genome.len(),
    ensures
        mutated_classes(genome, k, rates, rng).0.len() == genome.len(),
        mutated_classes(genome, 0, rates, rng).1 == rng,
        forall|c: int|
            k <= c < genome.len() ==> #[trigger] mutated_classes(genome, k, rates, rng).0[c]
                == genome[c],
        forall|c: int|
            0 <= c < k ==> #[trigger] mutated_classes(genome, k, rates, rng).0[c] == mutated_class(
                genome[c],
                rates,
                mutated_classes(genome, c as nat, rates, rng).1,
            ).0,
        k > 0 ==> mutated_classes(genome, k, rates, rng).1 == mutated_class(
            genome[k - 1],
            rates,
            mutated_classes(genome, (k - 1) as nat, rates, rng).1,
        ).1,
    decreases k,
{
    if k > 0 {
        law_genome_mutates_class_by_class(genome, (k - 1) as nat, rates, rng);
    }
}

/// A flip of the rotation that is certain happens at every gene, and where nothing else has a
/// chance nothing else happens.
pub proof fn law_certain_flips_flip_all(
    class: Seq<GeneView>,
    rates: Rates,
    rng: Xoshiro256StarStar,
)
    requires
        paired(class),
        class.len() >= 2,
        rates.swap_p == 0,
        rates.flip_p == CERTAIN,
        rates.point_p == 0,
        rates.inverse_p == 0,
    ensures
        mutated_class(class, rates, rng).0.len() == class.len(),
        forall|i: int|
            0 <= i < class.len() ==> {
                let h = #[trigger] mutated_class(class, rates, rng).0[i];
                &&& h.type_idx == class[i].type_idx
                &&& h.rotate == !class[i].rotate
                &&& h.selectors == class[i].selectors
                &&& h.inverses == class[i].inverses
            },
{
    lemma_flips(class, class.len(), rates, rng);
}

proof fn lemma_flips(class: Seq<GeneView>, k: nat, rates: Rates, rng: Xoshiro256StarStar)
    requires
        paired(class),
        class.len() >= 2,
        k <= class.len(),
        rates.swap_p == 0,
        rates.flip_p == CERTAIN,
        rates.point_p == 0,
        rates.inverse_p == 0,
    ensures
        ({
            let h = mutated_genes(class, k, rates, rng).0;
            &&& h.len() == class.len()
            &&& forall|i: int|
                0 <= i < class.len() ==> {
                    &&& (#[trigger] h[i]).type_idx == class[i].type_idx
                    &&& h[i].rotate == (class[i].rotate != (i < k))
                    &&& h[i].selectors == class[i].selectors
                    &&& h[i].inverses == class[i].inverses
                }
        }),
    decreases k,
{
    if k > 0 {
        let m = (k - 1) as nat;
        lemma_flips(class, m, rates, rng);
        law_class_mutates_gene_by_gene(class, m, rates, rng);
        let (a, q) = mutated_genes(class, m, rates, rng);
        let h = mutated_genes(class, k, rates, rng).0;
        law_certain_and_never(q);
        law_certain_and_never(after(q));
        lemma_unchanged(a[m as int], h[m as int], rates, after(q), mutated_genes(class, k, rates, rng).1);
        assert forall|i: int| 0 <= i < class.len() implies {
            &&& (#[trigger] h[i]).type_idx == class[i].type_idx
            &&& h[i].rotate == (class[i].rotate != (i < k))
            &&& h[i].selectors == class[i].selectors
            &&& h[i].inverses == class[i].inverses
        } by {
            if i != m {
                assert(h[i] == a[i]);
            }
        }
    }
}

proof fn lemma_unchanged(
    g: GeneView,
    h: GeneView,
    rates: Rates,
    q: Xoshiro256StarStar,
    r: Xoshiro256StarStar,
)
    requires
        payload_changes(g, h, rates, q, r),
        rates.point_p == 0,
        rates.inverse_p == 0,
    ensures
        h.selectors == g.selectors,
        h.inverses == g.inverses,
{
    let qs = choose|qs: Seq<Xoshiro256StarStar>|
        {
            &&& #[trigger] selectors_change(
                g.selectors,
                h.selectors,
                rates.point_p,
                rates.point_delta,
                qs,
            )
            &&& h.inverses.len() == g.inverses.len()
            &&& forall|i: int|
                0 <= i < g.inverses.len() ==> #[trigger] h.inverses[i] == (g.inverses[i]
                    != happens(onward(qs.last(), i as nat), rates.inverse_p))
        };
    assert forall|i: int| 0 <= i < g.selectors.len() implies h.selectors[i] == g.selectors[i] by {
        law_certain_and_never(qs[i]);
    }
    assert(h.selectors =~= g.selectors);
    assert forall|i: int| 0 <= i < g.inverses.len() implies h.inverses[i] == g.inverses[i] by {
        law_certain_and_never(onward(qs.last(), i as nat));
    }
    assert(h.inverses =~= g.inverses);
}

/// A crossover of genomes crosses class by class, each class by draws of its own.
pub proof fn law_crossover_goes_class_by_class(
    a: Seq<Seq<GeneView>>,
    b: Seq<Seq<GeneView>>,
    k: nat,
    rng: Xoshiro256StarStar,
)
    ensures
        ox_classes(a, b, k, rng).0.0.len() == k,
        ox_classes(a, b, k, rng).0.1.len() == k,
        ox_classes(a, b, 0, rng).1 == rng,
        forall|c: int|
            0 <= c < k ==> #[trigger] ox_classes(a, b, k, rng).0.0[c] == ox_class(
                a[c],
                b[c],
                ox_classes(a, b, c as nat, rng).1,
            ).0.0,
        forall|c: int|
            0 <= c < k ==> #[trigger] ox_classes(a, b, k, rng).0.1[c] == ox_class(
                a[c],
                b[c],
                ox_classes(a, b, c as nat, rng).1,
            ).0.1,
        k > 0 ==> ox_classes(a, b, k, rng).1 == ox_class(
            a[k - 1],
            b[k - 1],
            ox_classes(a, b, (k - 1) as nat, rng).1,
        ).1,
    decreases k,
{
    if k > 0 {
        law_crossover_goes_class_by_class(a, b, (k - 1) as nat, rng);
    }
}

/// `child` has the genes of `donor` from `lo` up to `hi` where they are. Every other place takes a
/// whole gene of `filler`, of a type that is not among those; `from` says which. From `hi` on,
/// and round the end, they stand in the order in which `filler` has them from there.
pub open spec fn crossed_in_order(
    donor: Seq<GeneView>,
    filler: Seq<GeneView>,
    child: Seq<GeneView>,
    lo: int,
    hi: int,
    from: Seq<int>,
) -> bool {
    let n = donor.len() as int;
    &&& child.len() == n
    &&& from.len() == n
    &&& forall|p: int| lo <= p < hi ==> #[trigger] child[p] == donor[p]
    &&& forall|p: int|
        0 <= p < n && !(lo <= p < hi) ==> {
            &&& 0 <= #[trigger] from[p] < n
            &&& child[p] == filler[from[p]]
            &&& forall|q: int| lo <= q < hi ==> child[p].type_idx != (#[trigger] donor[q]).type_idx
        }
    &&& forall|p: int, q: int|
        0 <= p < n && 0 <= q < n && !(lo <= p < hi) && !(lo <= q < hi) && ahead(p, hi, n) < ahead(
            q,
            hi,
            n,
        ) ==> ahead(#[trigger] from[p], hi, n) < ahead(#[trigger] from[q], hi, n)
}

proof fn lemma_ox_child(donor: Seq<GeneView>, filler: Seq<GeneView>, lo: int, hi: int)
    requires
        same_keys(keys(donor), keys(filler)),
        0 <= lo <= hi <= donor.len(),
        donor.len() <= usize::MAX,
    ensures
        exists|from: Seq<int>|
            #[trigger] crossed_in_order(
                donor,
                filler,
                ox_child(donor, filler, lo, hi),
                lo,
                hi,
                from,
            ),
{
    let (a, b) = (keys(donor), keys(filler));
    law_ox_keeps_segment_and_order(a, b, lo, hi);
    let n = donor.len() as int;
    let plan = ox_plan(a, b, lo, hi);
    let from = Seq::new(n as nat, |p: int| plan[p].pos as int);
    let child = ox_child(donor, filler, lo, hi);
    assert forall|p: int| 0 <= p < n && !(lo <= p < hi) implies {
        &&& 0 <= #[trigger] from[p] < n
        &&& child[p] == filler[from[p]]
        &&& forall|q: int| lo <= q < hi ==> child[p].type_idx != (#[trigger] donor[q]).type_idx
    } by {
        assert(plan[p].second);
        assert forall|q: int| lo <= q < hi implies child[p].type_idx != (
        #[trigger] donor[q]).type_idx by {
            assert(b[plan[p].pos as int] != a[q]);
        }
    }
    assert forall|p: int, q: int|
        0 <= p < n && 0 <= q < n && !(lo <= p < hi) && !(lo <= q < hi) && ahead(p, hi, n) < ahead(
            q,
            hi,
            n,
        ) implies ahead(#[trigger] from[p], hi, n) < ahead(#[trigger] from[q], hi, n) by {
        assert(ahead(plan[p].pos as int, hi, n) < ahead(plan[q].pos as int, hi, n));
    }
    assert forall|p: int| lo <= p < hi implies #[trigger] child[p] == donor[p] by {
        assert(!plan[p].second && plan[p].pos == p);
    }
    assert(crossed_in_order(donor, filler, child, lo, hi, from));
}

/// A crossover of a class draws a segment that is not empty. The first child keeps the segment of
/// the first parent and fills in from the second, the second child the other way round. Classes
/// of fewer than two genes are copied.
pub proof fn law_crossover_keeps_a_segment(
    a: Seq<GeneView>,
    b: Seq<GeneView>,
    rng: Xoshiro256StarStar,
)
    requires
        same_keys(keys(a), keys(b)),
        a.len() <= usize::MAX,
    ensures
        ({
            let n = a.len() as int;
            let c = ox_class(a, b, rng).0.0;
            let d = ox_class(a, b, rng).0.1;
            let r = ox_class(a, b, rng).1;
            let lo = pick(rng, n - 1);
            let hi = lo + 1 + pick(after(rng), n - lo);
            &&& n < 2 ==> c == a && d == b && r == rng
            &&& n >= 2 ==> {
                &&& 0 <= lo < hi <= n
                &&& lo <= n - 2
                &&& r == after(after(rng))
                &&& exists|from: Seq<int>| #[trigger] crossed_in_order(a, b, c, lo, hi, from)
                &&& exists|from: Seq<int>| #[trigger] crossed_in_order(b, a, d, lo, hi, from)
            }
        }),
{
    let n = a.len() as int;
    assert(keys(a).len() == n && keys(b).len() == b.len());
    if n >= 2 {
        let lo = pick(rng, n - 1);
        vstd::arithmetic::div_mod::lemma_mod_bound((next_of(rng) as usize) as int, n - 1);
        vstd::arithmetic::div_mod::lemma_mod_bound((next_of(after(rng)) as usize) as int, n - lo);
        let hi = lo + 1 + pick(after(rng), n - lo);
        lemma_ox_child(a, b, lo, hi);
        lemma_ox_child(b, a, lo, hi);
        assert(ox_class(a, b, rng).0.0 == ox_child(a, b, lo, hi));
        assert(ox_class(a, b, rng).0.1 == ox_child(b, a, lo, hi));
    }
}

/// The members of a class stand in the order in which they are taken from.
proof fn lemma_members_in_order(
    spec: ProblemSpec,
    long: u32,
    large: u32,
    order: Seq<usize>,
    c: int,
    k: nat,
)
    requires
        k <= order.len(),
    ensures
        ({
            let s = members(spec, long, large, order, c, k);
            &&& forall|i: int|
                0 <= i < s.len() ==> exists|p: int|
                    0 <= p < k && #[trigger] order[p] == #[trigger] s[i] && class_of(
                        spec.piece_types@[s[i] as int],
                        spec.sheet,
                        long,
                        large,
                    ) == c
            &&& forall|i: int, j: int|
                0 <= i < j < s.len() ==> #[trigger] ordered_pair(order, k as int, s[i], s[j])
            &&& forall|p: int|
                0 <= p < k && class_of(
                    spec.piece_types@[#[trigger] order[p] as int],
                    spec.sheet,
                    long,
                    large,
                ) == c ==> s.contains(order[p])
        }),
    decreases k,
{
    if k > 0 {
        let m = (k - 1) as nat;
        lemma_members_in_order(spec, long, large, order, c, m);
        let r = members(spec, long, large, order, c, m);
        let s = members(spec, long, large, order, c, k);
        let t = order[k - 1];
        assert forall|i: int| 0 <= i < s.len() implies exists|p: int|
            0 <= p < k && #[trigger] order[p] == #[trigger] s[i] && class_of(
                spec.piece_types@[s[i] as int],
                spec.sheet,
                long,
                large,
            ) == c by {
            if i < r.len() {
                let p = choose|p: int|
                    0 <= p < m && #[trigger] order[p] == r[i] && class_of(
                        spec.piece_types@[r[i] as int],
                        spec.sheet,
                        long,
                        large,
                    ) == c;
                assert(s[i] == r[i] && order[p] == s[i]);
            } else {
                assert(order[k - 1] == s[i]);
            }
        }
        assert forall|i: int, j: int| 0 <= i < j < s.len() implies #[trigger] ordered_pair(
            order,
            k as int,
            s[i],
            s[j],
        ) by {
            assert(s[i] == r[i]);
            if j < r.len() {
                assert(s[j] == r[j]);
                assert(ordered_pair(order, m as int, r[i], r[j]));
                let (p, q) = choose|p: int, q: int|
                    0 <= p < q < m && #[trigger] order[p] == r[i] && #[trigger] order[q] == r[j];
                assert(order[p] == s[i] && order[q] == s[j]);
            } else {
                let p = choose|p: int|
                    0 <= p < m && #[trigger] order[p] == r[i] && class_of(
                        spec.piece_types@[r[i] as int],
                        spec.sheet,
                        long,
                        large,
                    ) == c;
                assert(order[p] == s[i] && order[k - 1] == s[j]);
            }
        }
        assert forall|p: int|
            0 <= p < k && class_of(
                spec.piece_types@[#[trigger] order[p] as int],
                spec.sheet,
                long,
                large,
            ) == c implies s.contains(order[p]) by {
            if p < m {
                assert(r.contains(order[p]));
                let i = choose|i: int| 0 <= i < r.len() && r[i] == order[p];
                assert(s[i] == order[p]);
            } else {
                assert(s[s.len() - 1] == t);
            }
        }
    }
}

/// `a` stands before `b` among the first `k` of the order.
spec fn ordered_pair(order: Seq<usize>, k: int, a: usize, b: usize) -> bool {
    exists|p: int, q: int|
        0 <= p < q < k && #[trigger] order[p] == a && #[trigger] order[q] == b
}

/// The longer side and the area of a type.
pub open spec fn size_of_type(t: PieceType) -> (int, int) {
    (
        if t.width < t.height {
            t.height as int
        } else {
            t.width as int
        },
        t.width * t.height,
    )
}

/// In the greedy genome every type stands in the class of its size. In a class longer types come
/// first, of equally long ones the larger, of equally large ones in the order of the problem.
/// Every gene starts at the first free rectangle, cuts the plain way, and wishes turned what is
/// higher than wide.
pub proof fn law_greedy_genome_longest_first(spec: ProblemSpec, long: u32, large: u32, c: int)
    requires
        0 <= c < 3,
        spec.piece_types@.len() <= usize::MAX,
    ensures
        ({
            let types = spec.piece_types@;
            let m = greedy_model(spec, long, large);
            let g = m[c];
            &&& m.len() == 3
            &&& forall|i: int|
                0 <= i < g.len() ==> {
                    let t = types[(#[trigger] g[i]).type_idx as int];
                    &&& g[i].type_idx < types.len()
                    &&& class_of(t, spec.sheet, long, large) == c
                    &&& g[i].rotate == (t.width < t.height)
                    &&& g[i].selectors.len() == t.count
                    &&& g[i].inverses.len() == t.count
                    &&& forall|k: int| 0 <= k < t.count ==> #[trigger] g[i].selectors[k] == 0
                    &&& forall|k: int| 0 <= k < t.count ==> !#[trigger] g[i].inverses[k]
                }
            &&& forall|i: int, j: int|
                0 <= i < j < g.len() ==> {
                    let a = (#[trigger] g[i]).type_idx;
                    let b = (#[trigger] g[j]).type_idx;
                    let (x, y) = (size_of_type(types[a as int]), size_of_type(types[b as int]));
                    &&& x.0 >= y.0
                    &&& x.0 == y.0 ==> x.1 >= y.1
                    &&& x == y ==> a < b
                }
            &&& forall|t: int|
                0 <= t < types.len() && class_of(
                    #[trigger] types[t],
                    spec.sheet,
                    long,
                    large,
                ) == c ==> exists|i: int| 0 <= i < g.len() && (#[trigger] g[i]).type_idx == t
        }),
{
    let types = spec.piece_types@;
    let o = SideOrder { types };
    let n = types.len();
    crate::sorting::lemma_order_exists(o, n);
    let order = crate::sorting::order_of(o, n);
    assert(crate::sorting::in_order(o, n, order));
    lemma_members_in_order(spec, long, large, order, c, order.len());
    let s = members(spec, long, large, order, c, order.len());
    let m = greedy_model(spec, long, large);
    let g = m[c];
    assert(g =~= Seq::new(s.len(), |i: int| greedy_gene(types, s[i])));
    assert forall|i: int| 0 <= i < g.len() implies (#[trigger] g[i]).type_idx == s[i] && s[i] < n
        && class_of(types[s[i] as int], spec.sheet, long, large) == c by {
        let p = choose|p: int|
            0 <= p < order.len() && #[trigger] order[p] == s[i] && class_of(
                spec.piece_types@[s[i] as int],
                spec.sheet,
                long,
                large,
            ) == c;
        assert(order[p] < n);
    }
    assert forall|i: int, j: int| 0 <= i < j < g.len() implies ({
        let a = (#[trigger] g[i]).type_idx;
        let b = (#[trigger] g[j]).type_idx;
        let (x, y) = (size_of_type(types[a as int]), size_of_type(types[b as int]));
        &&& x.0 >= y.0
        &&& x.0 == y.0 ==> x.1 >= y.1
        &&& x == y ==> a < b
    }) by {
        assert(ordered_pair(order, order.len() as int, s[i], s[j]));
        let (p, q) = choose|p: int, q: int|
            0 <= p < q < order.len() && #[trigger] order[p] == s[i] && #[trigger] order[q] == s[j];
        assert(crate::sorting::precedes(o, order[p] as int, order[q] as int));
    }
    assert forall|t: int|
        0 <= t < types.len() && class_of(
            #[trigger] types[t],
            spec.sheet,
            long,
            large,
        ) == c implies exists|i: int| 0 <= i < g.len() && (#[trigger] g[i]).type_idx == t by {
        crate::sorting::lemma_in_order_all(o, n, order, t as usize);
        let p = choose|p: int| 0 <= p < order.len() && order[p] == t;
        assert(s.contains(order[p]));
        let i = choose|i: int| 0 <= i < s.len() && s[i] == order[p];
        assert(g[i].type_idx == t);
    }
}

/// A random class draws, gene by gene, a coin for the rotation, then a selector for every copy,
/// then a coin for every cut.
pub proof fn law_random_gene_draws(types: Seq<PieceType>, t: usize, rng: Xoshiro256StarStar)
    ensures
        ({
            let n = types[t as int].count as nat;
            let (g, r) = random_gene(types, t, rng);
            &&& g.type_idx == t
            &&& g.rotate == (next_of(rng) % 2 == 1)
            &&& g.selectors.len() == n
            &&& g.inverses.len() == n
            &&& forall|i: int|
                0 <= i < n ==> #[trigger] g.selectors[i] == next_of(
                    onward(after(rng), i as nat),
                ) as u32
            &&& forall|i: int|
                0 <= i < n ==> #[trigger] g.inverses[i] == (next_of(
                    onward(onward(after(rng), n), i as nat),
                ) % 2 == 1)
            &&& r == onward(onward(after(rng), n), n)
        }),
{
    let n = types[t as int].count as nat;
    lemma_drawn_selectors(n, after(rng));
    lemma_drawn_inverses(n, onward(after(rng), n));
}

proof fn lemma_drawn_selectors(n: nat, rng: Xoshiro256StarStar)
    ensures
        drawn_selectors(n, rng).0.len() == n,
        drawn_selectors(n, rng).1 == onward(rng, n),
        forall|i: int|
            0 <= i < n ==> #[trigger] drawn_selectors(n, rng).0[i] == next_of(
                onward(rng, i as nat),
            ) as u32,
    decreases n,
{
    if n > 0 {
        lemma_drawn_selectors((n - 1) as nat, rng);
    }
}

proof fn lemma_drawn_inverses(n: nat, rng: Xoshiro256StarStar)
    ensures
        drawn_inverses(n, rng).0.len() == n,
        drawn_inverses(n, rng).1 == onward(rng, n),
        forall|i: int|
            0 <= i < n ==> #[trigger] drawn_inverses(n, rng).0[i] == (next_of(
                onward(rng, i as nat),
            ) % 2 == 1),
    decreases n,
{
    if n > 0 {
        lemma_drawn_inverses((n - 1) as nat, rng);
    }
}

/// A random class of fewer than four types holds them by the area of all their copies, the
/// largest first, and equal ones in the order of the problem: only with more are some exchanged.
pub proof fn law_small_random_class_by_area(
    spec: ProblemSpec,
    long: u32,
    large: u32,
    c: int,
    rng: Xoshiro256StarStar,
)
    requires
        spec.piece_types@.len() <= usize::MAX,
        random_class(spec, long, large, c, rng).0.len() < 4,
    ensures
        ({
            let types = spec.piece_types@;
            let g = random_class(spec, long, large, c, rng).0;
            &&& forall|i: int|
                0 <= i < g.len() ==> (#[trigger] g[i]).type_idx < types.len() && class_of(
                    types[g[i].type_idx as int],
                    spec.sheet,
                    long,
                    large,
                ) == c
            &&& forall|i: int, j: int|
                0 <= i < j < g.len() ==> {
                    let a = (#[trigger] g[i]).type_idx;
                    let b = (#[trigger] g[j]).type_idx;
                    let (s, t) = (types[a as int], types[b as int]);
                    let (x, y) = (
                        s.width * s.height * s.count,
                        t.width * t.height * t.count,
                    );
                    x > y || (x == y && a < b)
                }
        }),
{
    let types = spec.piece_types@;
    let o = TotalAreaOrder { types };
    let n = types.len();
    crate::sorting::lemma_order_exists(o, n);
    let order = crate::sorting::order_of(o, n);
    assert(crate::sorting::in_order(o, n, order));
    lemma_members_in_order(spec, long, large, order, c, order.len());
    let s = members(spec, long, large, order, c, order.len());
    let (t, r) = stirred(s, (s.len() / 4) as nat, rng);
    lemma_stirred_length(s, (s.len() / 4) as nat, rng);
    lemma_random_types(types, t, t.len(), r);
    let g = random_class(spec, long, large, c, rng).0;
    assert(s.len() / 4 == 0);
    assert(t == s);
    assert forall|i: int| 0 <= i < g.len() implies (#[trigger] g[i]).type_idx == s[i] && s[i] < n
        && class_of(types[s[i] as int], spec.sheet, long, large) == c by {
        let p = choose|p: int|
            0 <= p < order.len() && #[trigger] order[p] == s[i] && class_of(
                spec.piece_types@[s[i] as int],
                spec.sheet,
                long,
                large,
            ) == c;
        assert(order[p] < n);
    }
    assert forall|i: int, j: int| 0 <= i < j < g.len() implies ({
        let a = (#[trigger] g[i]).type_idx;
        let b = (#[trigger] g[j]).type_idx;
        let (u, v) = (types[a as int], types[b as int]);
        let (x, y) = (u.width * u.height * u.count, v.width * v.height * v.count);
        x > y || (x == y && a < b)
    }) by {
        assert(ordered_pair(order, order.len() as int, s[i], s[j]));
        let (p, q) = choose|p: int, q: int|
            0 <= p < q < order.len() && #[trigger] order[p] == s[i] && #[trigger] order[q] == s[j];
        assert(crate::sorting::precedes(o, order[p] as int, order[q] as int));
    }
}

proof fn lemma_stirred_length(s: Seq<usize>, k: nat, rng: Xoshiro256StarStar)
    requires
        k > 0 ==> s.len() > 0,
    ensures
        stirred(s, k, rng).0.len() == s.len(),
    decreases k,
{
    if k > 0 {
        lemma_stirred_length(s, (k - 1) as nat, rng);
        let r = stirred(s, (k - 1) as nat, rng).1;
        let n = s.len() as int;
        vstd::arithmetic::div_mod::lemma_mod_bound((next_of(r) as usize) as int, n);
        vstd::arithmetic::div_mod::lemma_mod_bound((next_of(after(r)) as usize) as int, n);
    }
}

proof fn lemma_random_types(
    types: Seq<PieceType>,
    s: Seq<usize>,
    k: nat,
    rng: Xoshiro256StarStar,
)
    ensures
        random_genes(types, s, k, rng).0.len() == k,
        forall|i: int|
            0 <= i < k ==> (#[trigger] random_genes(types, s, k, rng).0[i]).type_idx == s[i],
    decreases k,
{
    if k > 0 {
        lemma_random_types(types, s, (k - 1) as nat, rng);
    }
}

/// What the genetic algorithm breeds with: genomes are judged by the layout that they decode to,
/// class after class; two cross class by class; one mutates with the chances of the
/// configuration; new ones are random, and the greedy one is there to begin with.
pub proof fn law_bred_with_these<'a>(
    d: GlasDecoder<'a>,
    config: GaConfig,
    a: Seq<Seq<GeneView>>,
    b: Seq<Seq<GeneView>>,
    rng: Xoshiro256StarStar,
)
    ensures
        ({
            let genes = all_genes(a, a.len());
            d.objective(a) == objective_of(
                *d.problem,
                decoded(*d.problem, d.spec.piece_types@, genes, genes.len()).pack.placements,
            )
        }),
        d.crossed(a, b, rng) == ox_classes(a, b, a.len(), rng),
        d.mutated(a, config, rng) == mutated_classes(
            a,
            a.len(),
            Rates {
                swap_p: config.swap_p,
                flip_p: config.flip_p,
                point_p: config.point_p,
                point_delta: config.point_delta,
                inverse_p: config.inverse_p,
            },
            rng,
        ),
        d.seed_models(config).len() == 1,
        d.seed_models(config)[0] == greedy_model(
            *d.spec,
            config.long_dim_threshold,
            config.large_area_threshold,
        ),
        d.random_model(config, rng).0.len() == 3,
        forall|c: int|
            0 <= c < 3 ==> #[trigger] d.random_model(config, rng).0[c] == random_class(
                *d.spec,
                config.long_dim_threshold,
                config.large_area_threshold,
                c,
                random_classes(
                    *d.spec,
                    config.long_dim_threshold,
                    config.large_area_threshold,
                    c as nat,
                    rng,
                ).1,
            ).0,
{
    reveal_with_fuel(random_classes, 4);
}

/// In a generation without crossover, where a rotation is sure to be flipped and nothing else has
/// a chance, every individual behind the elite is one of the population before it with every
/// rotation flipped, in all classes of two genes or more.
pub proof fn law_generation_of_flips<'a>(
    d: GlasDecoder<'a>,
    config: GaConfig,
    run: Run<Seq<Seq<GeneView>>>,
    x: int,
)
    requires
        1 <= run.pop.len() <= config.pop_size,
        config.tournament_size >= 1,
        config.elite_count <= x < config.pop_size,
        config.crossover_p == 0,
        config.swap_p == 0,
        config.flip_p == CERTAIN,
        config.point_p == 0,
        config.inverse_p == 0,
        forall|i: int, c: int|
            0 <= i < run.pop.len() && 0 <= c < run.pop[i].len() ==> paired(
                #[trigger] run.pop[i][c],
            ),
    ensures
        exists|i: int|
            0 <= i < run.pop.len() && all_turned(
                #[trigger] run.pop[i],
                generation(d, config, run).pop[x],
            ),
{
    law_every_child_is_mutated(d, config, run, x);
    let m = generation(d, config, run).pop[x];
    let rates = rates_of(config);
    let (i, j, s, r) = choose|i: int, j: int, s: Xoshiro256StarStar, r: Xoshiro256StarStar|
        {
            &&& 0 <= i < run.pop.len()
            &&& 0 <= j < run.pop.len()
            &&& #[trigger] born(i, j, s, r)
            &&& !happens(s, config.crossover_p) ==> m == mutated_classes(
                run.pop[i],
                run.pop[i].len(),
                rates,
                r,
            ).0 || m == mutated_classes(run.pop[j], run.pop[j].len(), rates, r).0
        };
    law_certain_and_never(s);
    lemma_all_turned(run.pop[i], rates, r);
    lemma_all_turned(run.pop[j], rates, r);
}

/// Every gene has its rotation flipped and is the same else; classes of fewer than two genes stay
/// as they are.
pub open spec fn all_turned(g: Seq<Seq<GeneView>>, h: Seq<Seq<GeneView>>) -> bool {
    &&& h.len() == g.len()
    &&& forall|c: int|
        0 <= c < g.len() ==> (#[trigger] h[c]).len() == g[c].len() && (g[c].len() < 2 ==> h[c]
            == g[c])
    &&& forall|c: int, i: int|
        0 <= c < g.len() && 2 <= g[c].len() && 0 <= i < g[c].len() ==> {
            let k = #[trigger] h[c][i];
            &&& k.type_idx == g[c][i].type_idx
            &&& k.rotate == !g[c][i].rotate
            &&& k.selectors == g[c][i].selectors
            &&& k.inverses == g[c][i].inverses
        }
}

proof fn lemma_all_turned(g: Seq<Seq<GeneView>>, rates: Rates, rng: Xoshiro256StarStar)
    requires
        rates.swap_p == 0,
        rates.flip_p == CERTAIN,
        rates.point_p == 0,
        rates.inverse_p == 0,
        forall|c: int| 0 <= c < g.len() ==> paired(#[trigger] g[c]),
    ensures
        all_turned(g, mutated_classes(g, g.len(), rates, rng).0),
{
    law_genome_mutates_class_by_class(g, g.len(), rates, rng);
    let h = mutated_classes(g, g.len(), rates, rng).0;
    assert forall|c: int| 0 <= c < g.len() implies (#[trigger] h[c]).len() == g[c].len() && (
    g[c].len() < 2 ==> h[c] == g[c]) by {
        let q = mutated_classes(g, c as nat, rates, rng).1;
        assert(h[c] == mutated_class(g[c], rates, q).0);
        assert(paired(g[c]));
        if g[c].len() >= 2 {
            law_certain_flips_flip_all(g[c], rates, q);
        }
    }
    assert forall|c: int, i: int|
        0 <= c < g.len() && 2 <= g[c].len() && 0 <= i < g[c].len() implies ({
        let k = #[trigger] h[c][i];
        &&& k.type_idx == g[c][i].type_idx
        &&& k.rotate == !g[c][i].rotate
        &&& k.selectors == g[c][i].selectors
        &&& k.inverses == g[c][i].inverses
    }) by {
        let q = mutated_classes(g, c as nat, rates, rng).1;
        assert(h[c] == mutated_class(g[c], rates, q).0);
        assert(paired(g[c]));
        law_certain_flips_flip_all(g[c], rates, q);
    }
}

/// Stirring exchanges two drawn places, which may be one, and leaves the others; a random class
/// stirs once for every four types.
pub proof fn law_stirring_exchanges_two(s: Seq<usize>, k: nat, rng: Xoshiro256StarStar)
    requires
        s.len() > 0,
    ensures
        ({
            let (a, q) = stirred(s, k, rng);
            let (b, r) = stirred(s, k + 1, rng);
            let n = s.len() as int;
            let (x, y) = (pick(q, n), pick(after(q), n));
            &&& stirred(s, 0, rng) == (s, rng)
            &&& 0 <= x < n
            &&& 0 <= y < n
            &&& b.len() == n
            &&& b[x] == a[y]
            &&& b[y] == a[x]
            &&& forall|i: int| 0 <= i < n && i != x && i != y ==> #[trigger] b[i] == a[i]
            &&& r == after(after(q))
        }),
{
    lemma_stirred_length(s, k, rng);
    lemma_stirred_length(s, k + 1, rng);
    let q = stirred(s, k, rng).1;
    let n = s.len() as int;
    vstd::arithmetic::div_mod::lemma_mod_bound((next_of(q) as usize) as int, n);
    vstd::arithmetic::div_mod::lemma_mod_bound((next_of(after(q)) as usize) as int, n);
}

/// A random class holds the types of its size by the area of all their copies, stirred once for
/// every four of them.
pub proof fn law_random_class_is_stirred(
    spec: ProblemSpec,
    long: u32,
    large: u32,
    c: int,
    rng: Xoshiro256StarStar,
)
    ensures
        ({
            let types = spec.piece_types@;
            let order = crate::sorting::order_of(TotalAreaOrder { types }, types.len());
            let s = members(spec, long, large, order, c, order.len());
            let t = stirred(s, (s.len() / 4) as nat, rng).0;
            let g = random_class(spec, long, large, c, rng).0;
            &&& g.len() == t.len()
            &&& forall|i: int| 0 <= i < g.len() ==> (#[trigger] g[i]).type_idx == t[i]
        }),
{
    let types = spec.piece_types@;
    let order = crate::sorting::order_of(TotalAreaOrder { types }, types.len());
    let s = members(spec, long, large, order, c, order.len());
    let (t, r) = stirred(s, (s.len() / 4) as nat, rng);
    lemma_random_types(types, t, t.len(), r);
}

} // verus!
