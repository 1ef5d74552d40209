//! Genetic operators on one gene per piece type, in size classes.

use rand_xoshiro::Xoshiro256StarStar;
use vstd::prelude::*;

use crate::crossover::{
    child_keys, exchanged, find_odd_cycles, key_at, law_cx_keeps_keys, lemma_exchanged_keys,
    odd_cycles, ox_plan, plan_ox, same_keys, sound_plan, Source,
};
use crate::expand::{expand_problem, expandable, is_expansion, shrunk_as, workable};
use crate::ga::{
    self, default_large, default_long, draw, draw_bit, draw_index, draw_partner, draw_selector,
    evolved, happens, large_root_of, long_side, low_half, nudge, nudged, odd, partner, pick,
    rates_of, Decodable, GaConfig, GaDecoder, Rates,
};
use crate::glas::decoder::{
    all_genes, class_view, copies_of, decode, decode_spec, decoded, distinct_types, genes_ok,
    genome_view, Gene, GeneView, Genome,
};
use crate::heuristic::gbaf::all_fit;
use crate::islands::{self, colony_evolved, colony_results};
use crate::model::{PieceType, Problem, ProblemSpec, Sheet, SolutionSpec};
use crate::offcuts::{objective_of, scorable};
use crate::packing::solid_pieces;
use crate::rng::after;
use crate::score::Objective;
use crate::small::{Inverses, Selectors};
use crate::sorting::{
    in_order, lemma_in_order_all, order_of, ranked, Order, Ranking,
};

verus! {

/// An individual with one gene per piece type.
pub type Individual = crate::ga::Individual<Genome>;

/// The piece types of a class in placement order.
pub open spec fn keys(class: Seq<GeneView>) -> Seq<usize> {
    Seq::new(class.len(), |i: int| class[i].type_idx)
}

/// The child class that a plan makes: each gene travels whole.
pub open spec fn planned(a: Seq<GeneView>, b: Seq<GeneView>, plan: Seq<Source>) -> Seq<GeneView> {
    Seq::new(
        plan.len(),
        |i: int|
            if plan[i].second {
                b[plan[i].pos as int]
            } else {
                a[plan[i].pos as int]
            },
    )
}

proof fn lemma_planned_keys(a: Seq<GeneView>, b: Seq<GeneView>, plan: Seq<Source>)
    requires
        a.len() == b.len(),
        sound_plan(a.len(), plan),
    ensures
        keys(planned(a, b, plan)) == child_keys(keys(a), keys(b), plan),
{
    let c = planned(a, b, plan);
    assert forall|i: int| 0 <= i < plan.len() implies keys(c)[i] == key_at(
        keys(a),
        keys(b),
        plan[i],
    ) by {
        assert(plan[i].pos < a.len());
    }
    assert(keys(c) =~= child_keys(keys(a), keys(b), plan));
}

/// Every gene of the child is a gene of a parent.
pub open spec fn inherited(a: Seq<GeneView>, b: Seq<GeneView>, child: Seq<GeneView>) -> bool {
    forall|i: int|
        0 <= i < child.len() ==> a.contains(#[trigger] child[i]) || b.contains(child[i])
}

fn type_order(class: &Vec<Gene>) -> (r: Vec<usize>)
    ensures
        r@ == keys(class_view(class@)),
{
    let mut out: Vec<usize> = Vec::new();
    while out.len() < class.len()
        invariant
            out@.len() <= class@.len(),
            out@ =~= keys(class_view(class@)).take(out@.len() as int),
        decreases class@.len() - out@.len(),
    {
        out.push(class[out.len()].type_idx);
    }
    assert(out@ =~= keys(class_view(class@)));
    out
}

fn copy_class(class: &Vec<Gene>) -> (r: Vec<Gene>)
    ensures
        class_view(r@) == class_view(class@),
{
    let mut out: Vec<Gene> = Vec::new();
    while out.len() < class.len()
        invariant
            out@.len() <= class@.len(),
            class_view(out@) =~= class_view(class@).take(out@.len() as int),
        decreases class@.len() - out@.len(),
    {
        let ghost before = class_view(out@);
        let ghost k = out@.len() as int;
        out.push(class[out.len()].clone());
        assert(class_view(out@) =~= before.push(class@[k]@));
    }
    assert(class_view(out@) =~= class_view(class@));
    out
}

/// The child of an ordered crossover of a class.
pub open spec fn ox_child(
    donor: Seq<GeneView>,
    filler: Seq<GeneView>,
    lo: int,
    hi: int,
) -> Seq<GeneView> {
    planned(donor, filler, ox_plan(keys(donor), keys(filler), lo, hi))
}

fn build_child(donor: &Vec<Gene>, filler: &Vec<Gene>, lo: usize, hi: usize) -> (child: Vec<Gene>)
    requires
        same_keys(keys(class_view(donor@)), keys(class_view(filler@))),
        lo <= hi <= donor@.len(),
    ensures
        class_view(child@) == ox_child(
            class_view(donor@),
            class_view(filler@),
            lo as int,
            hi as int,
        ),
        same_keys(keys(class_view(donor@)), keys(class_view(child@))),
        inherited(class_view(donor@), class_view(filler@), class_view(child@)),
{
    let ghost (dv, fv) = (class_view(donor@), class_view(filler@));
    assert(keys(dv).len() == donor@.len() && keys(fv).len() == filler@.len());
    let a = type_order(donor);
    let b = type_order(filler);
    let plan = plan_ox(&a, &b, lo, hi);
    let mut child: Vec<Gene> = Vec::new();
    while child.len() < plan.len()
        invariant
            donor@.len() == filler@.len(),
            dv == class_view(donor@),
            fv == class_view(filler@),
            sound_plan(donor@.len(), plan@),
            child@.len() <= plan@.len(),
            class_view(child@) =~= planned(dv, fv, plan@).take(child@.len() as int),
        decreases plan@.len() - child@.len(),
    {
        let ghost before = class_view(child@);
        let s = plan[child.len()];
        assert(plan@[child@.len() as int].pos < donor@.len());
        if s.second {
            child.push(filler[s.pos].clone());
            assert(class_view(child@) =~= before.push(fv[s.pos as int]));
        } else {
            child.push(donor[s.pos].clone());
            assert(class_view(child@) =~= before.push(dv[s.pos as int]));
        }
    }
    assert(class_view(child@) =~= planned(dv, fv, plan@));
    proof {
        lemma_planned_keys(dv, fv, plan@);
        let cv = class_view(child@);
        assert forall|i: int| 0 <= i < cv.len() implies dv.contains(#[trigger] cv[i])
            || fv.contains(cv[i]) by {
            assert(plan@[i].pos < donor@.len());
            assert(cv[i] == planned(dv, fv, plan@)[i]);
        }
    }
    child
}

/// Ordered crossover of one class at a given segment.
pub fn ox_at(p1: &Vec<Gene>, p2: &Vec<Gene>, lo: usize, hi: usize, _n_types: usize) -> (r: (
    Vec<Gene>,
    Vec<Gene>,
))
    requires
        same_keys(keys(class_view(p1@)), keys(class_view(p2@))),
        lo <= hi <= p1@.len(),
    ensures
        class_view(r.0@) == ox_child(class_view(p1@), class_view(p2@), lo as int, hi as int),
        class_view(r.1@) == ox_child(class_view(p2@), class_view(p1@), lo as int, hi as int),
        same_keys(keys(class_view(p1@)), keys(class_view(r.0@))),
        same_keys(keys(class_view(p2@)), keys(class_view(r.1@))),
        inherited(class_view(p1@), class_view(p2@), class_view(r.0@)),
        inherited(class_view(p2@), class_view(p1@), class_view(r.1@)),
{
    (build_child(p1, p2, lo, hi), build_child(p2, p1, lo, hi))
}

/// Ordered crossover of one class at a drawn segment.
pub open spec fn ox_class(a: Seq<GeneView>, b: Seq<GeneView>, rng: Xoshiro256StarStar) -> (
    (Seq<GeneView>, Seq<GeneView>),
    Xoshiro256StarStar,
) {
    let n = a.len() as int;
    if n < 2 {
        ((a, b), rng)
    } else {
        let lo = pick(rng, n - 1);
        let hi = lo + 1 + pick(after(rng), n - lo);
        ((ox_child(a, b, lo, hi), ox_child(b, a, lo, hi)), after(after(rng)))
    }
}

/// Ordered crossover of the first `k` classes, each on its own.
pub open spec fn ox_classes(
    a: Seq<Seq<GeneView>>,
    b: Seq<Seq<GeneView>>,
    k: nat,
    rng: Xoshiro256StarStar,
) -> ((Seq<Seq<GeneView>>, Seq<Seq<GeneView>>), Xoshiro256StarStar)
    decreases k,
{
    if k == 0 {
        ((Seq::empty(), Seq::empty()), rng)
    } else {
        let ((g1, g2), r) = ox_classes(a, b, (k - 1) as nat, rng);
        let ((c1, c2), r2) = ox_class(a[k - 1], b[k - 1], r);
        ((g1.push(c1), g2.push(c2)), r2)
    }
}

/// Class by class, the genomes are orders of the same piece types.
pub open spec fn same_classes(a: Seq<Seq<GeneView>>, b: Seq<Seq<GeneView>>) -> bool {
    &&& a.len() == b.len()
    &&& forall|c: int|
        0 <= c < a.len() ==> same_keys(#[trigger] keys(a[c]), keys(b[c]))
}

/// Class by class, every gene of the child is a gene of a parent.
pub open spec fn inherits(
    a: Seq<Seq<GeneView>>,
    b: Seq<Seq<GeneView>>,
    child: Seq<Seq<GeneView>>,
) -> bool {
    &&& child.len() == a.len()
    &&& forall|c: int| 0 <= c < a.len() ==> inherited(a[c], b[c], #[trigger] child[c])
}

/// Ordered crossover of two genomes, class by class, by piece type. A gene travels whole: the
/// rotation, the selectors and the cut directions stay with the piece type.
pub fn ox_crossover(p1: &Genome, p2: &Genome, n_types: usize, rng: &mut Xoshiro256StarStar) -> (r: (
    Genome,
    Genome,
))
    requires
        same_classes(genome_view(*p1), genome_view(*p2)),
    ensures
        ((genome_view(r.0), genome_view(r.1)), *final(rng)) == ox_classes(
            genome_view(*p1),
            genome_view(*p2),
            p1@.len(),
            *old(rng),
        ),
        same_classes(genome_view(*p1), genome_view(r.0)),
        same_classes(genome_view(*p2), genome_view(r.1)),
        inherits(genome_view(*p1), genome_view(*p2), genome_view(r.0)),
        inherits(genome_view(*p2), genome_view(*p1), genome_view(r.1)),
{
    let ghost (a, b) = (genome_view(*p1), genome_view(*p2));
    let mut g1: Genome = Vec::new();
    let mut g2: Genome = Vec::new();
    assert(genome_view(g1) =~= Seq::empty());
    assert(genome_view(g2) =~= Seq::empty());
    while g1.len() < p1.len()
        invariant
            a == genome_view(*p1),
            b == genome_view(*p2),
            same_classes(a, b),
            g1@.len() <= p1@.len(),
            g2@.len() == g1@.len(),
            ((genome_view(g1), genome_view(g2)), *rng) == ox_classes(a, b, g1@.len(), *old(rng)),
            forall|c: int|
                0 <= c < g1@.len() ==> {
                    &&& same_keys(keys(a[c]), keys(#[trigger] class_view(g1@[c]@)))
                    &&& inherited(a[c], b[c], class_view(g1@[c]@))
                },
            forall|c: int|
                0 <= c < g1@.len() ==> {
                    &&& same_keys(keys(b[c]), keys(#[trigger] class_view(g2@[c]@)))
                    &&& inherited(b[c], a[c], class_view(g2@[c]@))
                },
        decreases p1@.len() - g1@.len(),
    {
        let c: usize = g1.len();
        let c1 = &p1[c];
        let c2 = &p2[c];
        assert(a[c as int] == class_view(c1@) && b[c as int] == class_view(c2@));
        assert(same_keys(keys(a[c as int]), keys(b[c as int])));
        let ghost (b1, b2) = (genome_view(g1), genome_view(g2));
        let n: usize = c1.len();
        let (rc1, rc2) = if n < 2 {
            (copy_class(c1), copy_class(c2))
        } else {
            let lo: usize = draw_index(rng, n - 1);
            let hi: usize = lo + 1 + draw_index(rng, n - lo);
            assert(keys(class_view(c1@)).len() == n);
            ox_at(c1, c2, lo, hi, n_types)
        };
        proof {
            if n < 2 {
                let (av, bv) = (a[c as int], b[c as int]);
                assert forall|i: int| 0 <= i < av.len() implies av.contains(#[trigger] av[i]) by {}
                assert forall|i: int| 0 <= i < bv.len() implies bv.contains(#[trigger] bv[i]) by {}
            }
        }
        g1.push(rc1);
        g2.push(rc2);
        assert(genome_view(g1) =~= b1.push(class_view(rc1@)));
        assert(genome_view(g2) =~= b2.push(class_view(rc2@)));
    }
    proof {
        assert forall|c: int| 0 <= c < a.len() implies {
            &&& same_keys(#[trigger] keys(a[c]), keys(genome_view(g1)[c]))
            &&& same_keys(keys(b[c]), keys(genome_view(g2)[c]))
            &&& inherited(a[c], b[c], genome_view(g1)[c])
            &&& inherited(b[c], a[c], genome_view(g2)[c])
        } by {
            assert(genome_view(g1)[c] == class_view(g1@[c]@));
            assert(genome_view(g2)[c] == class_view(g2@[c]@));
        }
        assert forall|c: int| 0 <= c < a.len() implies inherited(
            a[c],
            b[c],
            #[trigger] genome_view(g1)[c],
        ) by {
            assert(same_keys(keys(a[c]), keys(b[c])));
        }
        assert forall|c: int| 0 <= c < a.len() implies inherited(
            b[c],
            a[c],
            #[trigger] genome_view(g2)[c],
        ) by {
            assert(same_keys(keys(a[c]), keys(b[c])));
        }
        assert forall|c: int| 0 <= c < b.len() implies same_keys(
            #[trigger] keys(b[c]),
            keys(genome_view(g2)[c]),
        ) by {
            assert(same_keys(keys(a[c]), keys(b[c])));
        }
    }
    (g1, g2)
}

/// The children of a cycle crossover of a class.
pub open spec fn cx_class(a: Seq<GeneView>, b: Seq<GeneView>) -> (Seq<GeneView>, Seq<GeneView>) {
    let odd = odd_cycles(keys(a), keys(b));
    if a.len() < 2 {
        (a, b)
    } else {
        (
            Seq::new(
                a.len(),
                |i: int|
                    if odd[i] {
                        b[i]
                    } else {
                        a[i]
                    },
            ),
            Seq::new(
                a.len(),
                |i: int|
                    if odd[i] {
                        a[i]
                    } else {
                        b[i]
                    },
            ),
        )
    }
}

fn cross_class(c1: &Vec<Gene>, c2: &Vec<Gene>) -> (r: (Vec<Gene>, Vec<Gene>))
    requires
        same_keys(keys(class_view(c1@)), keys(class_view(c2@))),
    ensures
        (class_view(r.0@), class_view(r.1@)) == cx_class(class_view(c1@), class_view(c2@)),
        same_keys(keys(class_view(c1@)), keys(class_view(r.0@))),
        same_keys(keys(class_view(c1@)), keys(class_view(r.1@))),
{
    let n: usize = c1.len();
    let ghost (av, bv) = (class_view(c1@), class_view(c2@));
    assert(keys(av).len() == n && keys(bv).len() == c2@.len());
    if n < 2 {
        return (copy_class(c1), copy_class(c2));
    }
    let a = type_order(c1);
    let b = type_order(c2);
    let odd = find_odd_cycles(&a, &b);
    let mut r1: Vec<Gene> = Vec::new();
    let mut r2: Vec<Gene> = Vec::new();
    while r1.len() < n
        invariant
            n >= 2,
            n == c1@.len(),
            n == c2@.len(),
            av == class_view(c1@),
            bv == class_view(c2@),
            n == odd@.len(),
            odd@ == odd_cycles(keys(av), keys(bv)),
            r1@.len() <= n,
            r2@.len() == r1@.len(),
            class_view(r1@) =~= cx_class(av, bv).0.take(r1@.len() as int),
            class_view(r2@) =~= cx_class(av, bv).1.take(r1@.len() as int),
        decreases n - r1@.len(),
    {
        let i: usize = r1.len();
        let ghost (b1, b2) = (class_view(r1@), class_view(r2@));
        if odd[i] {
            r1.push(c2[i].clone());
            r2.push(c1[i].clone());
            assert(class_view(r1@) =~= b1.push(bv[i as int]));
            assert(class_view(r2@) =~= b2.push(av[i as int]));
        } else {
            r1.push(c1[i].clone());
            r2.push(c2[i].clone());
            assert(class_view(r1@) =~= b1.push(av[i as int]));
            assert(class_view(r2@) =~= b2.push(bv[i as int]));
        }
    }
    assert(class_view(r1@) =~= cx_class(av, bv).0);
    assert(class_view(r2@) =~= cx_class(av, bv).1);
    proof {
        law_cx_keeps_keys(keys(av), keys(bv), odd@);
        assert(keys(class_view(r1@)) =~= Seq::new(
            n as nat,
            |i: int|
                if odd@[i] {
                    keys(bv)[i]
                } else {
                    keys(av)[i]
                },
        ));
        assert(keys(class_view(r2@)) =~= Seq::new(
            n as nat,
            |i: int|
                if odd@[i] {
                    keys(av)[i]
                } else {
                    keys(bv)[i]
                },
        ));
    }
    (r1, r2)
}

/// Cycle crossover of two genomes, class by class, by piece type.
pub fn cx_crossover(p1: &Genome, p2: &Genome, _n_types: usize) -> (r: (Genome, Genome))
    requires
        same_classes(genome_view(*p1), genome_view(*p2)),
    ensures
        genome_view(r.0) == Seq::new(
            p1@.len(),
            |c: int| cx_class(genome_view(*p1)[c], genome_view(*p2)[c]).0,
        ),
        genome_view(r.1) == Seq::new(
            p1@.len(),
            |c: int| cx_class(genome_view(*p1)[c], genome_view(*p2)[c]).1,
        ),
        same_classes(genome_view(*p1), genome_view(r.0)),
        same_classes(genome_view(*p1), genome_view(r.1)),
{
    let ghost (a, b) = (genome_view(*p1), genome_view(*p2));
    let mut g1: Genome = Vec::new();
    let mut g2: Genome = Vec::new();
    while g1.len() < p1.len()
        invariant
            a == genome_view(*p1),
            b == genome_view(*p2),
            same_classes(a, b),
            g1@.len() <= p1@.len(),
            g2@.len() == g1@.len(),
            forall|c: int|
                0 <= c < g1@.len() ==> {
                    &&& #[trigger] class_view(g1@[c]@) == cx_class(a[c], b[c]).0
                    &&& same_keys(keys(a[c]), keys(class_view(g1@[c]@)))
                },
            forall|c: int|
                0 <= c < g1@.len() ==> {
                    &&& #[trigger] class_view(g2@[c]@) == cx_class(a[c], b[c]).1
                    &&& same_keys(keys(a[c]), keys(class_view(g2@[c]@)))
                },
        decreases p1@.len() - g1@.len(),
    {
        let c: usize = g1.len();
        assert(a[c as int] == class_view(p1@[c as int]@));
        assert(b[c as int] == class_view(p2@[c as int]@));
        assert(same_keys(keys(a[c as int]), keys(b[c as int])));
        let (rc1, rc2) = cross_class(&p1[c], &p2[c]);
        g1.push(rc1);
        g2.push(rc2);
    }
    proof {
        assert forall|c: int| 0 <= c < a.len() implies {
            &&& same_keys(#[trigger] keys(a[c]), keys(genome_view(g1)[c]))
            &&& same_keys(keys(a[c]), keys(genome_view(g2)[c]))
        } by {
            assert(genome_view(g1)[c] == class_view(g1@[c]@));
            assert(genome_view(g2)[c] == class_view(g2@[c]@));
        }
        assert(genome_view(g1) =~= Seq::new(p1@.len(), |c: int| cx_class(a[c], b[c]).0)) by {
            assert forall|c: int| 0 <= c < g1@.len() implies genome_view(g1)[c] == cx_class(
                a[c],
                b[c],
            ).0 by {
                assert(genome_view(g1)[c] == class_view(g1@[c]@));
            }
        }
        assert(genome_view(g2) =~= Seq::new(p1@.len(), |c: int| cx_class(a[c], b[c]).1)) by {
            assert forall|c: int| 0 <= c < g2@.len() implies genome_view(g2)[c] == cx_class(
                a[c],
                b[c],
            ).1 by {
                assert(genome_view(g2)[c] == class_view(g2@[c]@));
            }
        }
    }
    (g1, g2)
}

/// A class after its gene `i` may have been exchanged with another one.
pub open spec fn swap_step(class: Seq<GeneView>, i: int, p: u64, rng: Xoshiro256StarStar) -> (
    Seq<GeneView>,
    Xoshiro256StarStar,
) {
    if happens(rng, p) {
        (
            exchanged(class, i, partner(after(rng), i, class.len() as int)),
            after(after(rng)),
        )
    } else {
        (class, after(rng))
    }
}

/// The first `k` selectors, each after it may have been shifted.
pub open spec fn nudged_selectors(
    s: Seq<u32>,
    k: nat,
    p: u64,
    delta: (u32, u32),
    rng: Xoshiro256StarStar,
) -> (Seq<u32>, Xoshiro256StarStar)
    decreases k,
{
    if k == 0 {
        (s, rng)
    } else {
        let (t, r) = nudged_selectors(s, (k - 1) as nat, p, delta, rng);
        if happens(r, p) {
            (t.update(k - 1, nudged(t[k - 1], delta, after(r))), after(after(after(r))))
        } else {
            (t, after(r))
        }
    }
}

/// The first `k` cut directions, each after it may have been flipped.
pub open spec fn flipped_inverses(s: Seq<bool>, k: nat, p: u64, rng: Xoshiro256StarStar) -> (
    Seq<bool>,
    Xoshiro256StarStar,
)
    decreases k,
{
    if k == 0 {
        (s, rng)
    } else {
        let (t, r) = flipped_inverses(s, (k - 1) as nat, p, rng);
        (
            if happens(r, p) {
                t.update(k - 1, !t[k - 1])
            } else {
                t
            },
            after(r),
        )
    }
}

/// A gene after all that may happen to it on its own.
pub open spec fn mutated_payload(g: GeneView, rates: Rates, rng: Xoshiro256StarStar) -> (
    GeneView,
    Xoshiro256StarStar,
) {
    let rotate = if happens(rng, rates.flip_p) {
        !g.rotate
    } else {
        g.rotate
    };
    let n = g.selectors.len();
    let (selectors, r2) = nudged_selectors(
        g.selectors,
        n,
        rates.point_p,
        rates.point_delta,
        after(rng),
    );
    let (inverses, r3) = flipped_inverses(g.inverses, n, rates.inverse_p, r2);
    (GeneView { type_idx: g.type_idx, rotate, selectors, inverses }, r3)
}

/// All that may happen at gene `i` of a class.
pub open spec fn mutated_gene(
    class: Seq<GeneView>,
    i: int,
    rates: Rates,
    rng: Xoshiro256StarStar,
) -> (Seq<GeneView>, Xoshiro256StarStar) {
    let (c, r) = swap_step(class, i, rates.swap_p, rng);
    let (g, r2) = mutated_payload(c[i], rates, r);
    (c.update(i, g), r2)
}

/// All that may happen at the first `k` genes of a class.
pub open spec fn mutated_genes(
    class: Seq<GeneView>,
    k: nat,
    rates: Rates,
    rng: Xoshiro256StarStar,
) -> (Seq<GeneView>, Xoshiro256StarStar)
    decreases k,
{
    if k == 0 {
        (class, rng)
    } else {
        let (c, r) = mutated_genes(class, (k - 1) as nat, rates, rng);
        mutated_gene(c, k - 1, rates, r)
    }
}

/// A class after mutation; one of a single gene stays as it is.
pub open spec fn mutated_class(class: Seq<GeneView>, rates: Rates, rng: Xoshiro256StarStar) -> (
    Seq<GeneView>,
    Xoshiro256StarStar,
) {
    if class.len() < 2 {
        (class, rng)
    } else {
        mutated_genes(class, class.len(), rates, rng)
    }
}

/// The first `k` classes after mutation, one after the other.
pub open spec fn mutated_classes(
    genome: Seq<Seq<GeneView>>,
    k: nat,
    rates: Rates,
    rng: Xoshiro256StarStar,
) -> (Seq<Seq<GeneView>>, Xoshiro256StarStar)
    decreases k,
{
    if k == 0 {
        (genome, rng)
    } else {
        let (g, r) = mutated_classes(genome, (k - 1) as nat, rates, rng);
        let (c, r2) = mutated_class(g[k - 1], rates, r);
        (g.update(k - 1, c), r2)
    }
}

proof fn lemma_payload_lengths(g: GeneView, k: nat, rates: Rates, rng: Xoshiro256StarStar)
    ensures
        k <= g.selectors.len() ==> nudged_selectors(
            g.selectors,
            k,
            rates.point_p,
            rates.point_delta,
            rng,
        ).0.len() == g.selectors.len(),
        k <= g.inverses.len() ==> flipped_inverses(g.inverses, k, rates.inverse_p, rng).0.len()
            == g.inverses.len(),
    decreases k,
{
    if k > 0 {
        lemma_payload_lengths(g, (k - 1) as nat, rates, rng);
    }
}

/// A class of which every gene has as many selectors and cut directions as it has copies.
pub open spec fn sized(types: Seq<PieceType>, class: Seq<GeneView>) -> bool {
    forall|i: int|
        0 <= i < class.len() ==> {
            &&& (#[trigger] class[i]).type_idx < types.len()
            &&& class[i].selectors.len() == types[class[i].type_idx as int].count
            &&& class[i].inverses.len() == types[class[i].type_idx as int].count
        }
}

proof fn lemma_mutated_gene(
    types: Seq<PieceType>,
    class: Seq<GeneView>,
    i: int,
    rates: Rates,
    rng: Xoshiro256StarStar,
)
    requires
        class.len() >= 2,
        0 <= i < class.len(),
    ensures
        mutated_gene(class, i, rates, rng).0.len() == class.len(),
        keys(class).no_duplicates() ==> same_keys(
            keys(class),
            keys(mutated_gene(class, i, rates, rng).0),
        ),
        sized(types, class) ==> sized(types, mutated_gene(class, i, rates, rng).0),
        even(class) ==> even(mutated_gene(class, i, rates, rng).0),
{
    let (c, r) = swap_step(class, i, rates.swap_p, rng);
    let (g, r2) = mutated_payload(c[i], rates, r);
    let d = c.update(i, g);
    if happens(rng, rates.swap_p) {
        let j = partner(after(rng), i, class.len() as int);
        assert(0 <= j < class.len());
        assert(keys(c) =~= exchanged(keys(class), i, j));
        if keys(class).no_duplicates() {
            lemma_exchanged_keys(keys(class), i, j);
        }
    }
    assert(keys(d) =~= keys(c));
    let n = c[i].selectors.len();
    lemma_payload_lengths(c[i], n, rates, after(r));
    let r3 = nudged_selectors(c[i].selectors, n, rates.point_p, rates.point_delta, after(r)).1;
    lemma_payload_lengths(c[i], n, rates, r3);
}

/// Every gene of a class has as many cut directions as selectors.
pub open spec fn even(class: Seq<GeneView>) -> bool {
    forall|i: int|
        0 <= i < class.len() ==> (#[trigger] class[i]).selectors.len() == class[i].inverses.len()
}

/// A mutation of a class keeps the piece types, each once, and the number of selectors and cut
/// directions of each.
pub proof fn law_mutation_keeps_keys(
    types: Seq<PieceType>,
    class: Seq<GeneView>,
    k: nat,
    rates: Rates,
    rng: Xoshiro256StarStar,
)
    requires
        class.len() >= 2,
        k <= class.len(),
    ensures
        mutated_genes(class, k, rates, rng).0.len() == class.len(),
        keys(class).no_duplicates() ==> same_keys(
            keys(class),
            keys(mutated_genes(class, k, rates, rng).0),
        ),
        sized(types, class) ==> sized(types, mutated_genes(class, k, rates, rng).0),
        even(class) ==> even(mutated_genes(class, k, rates, rng).0),
    decreases k,
{
    if k > 0 {
        law_mutation_keeps_keys(types, class, (k - 1) as nat, rates, rng);
        let (c, r) = mutated_genes(class, (k - 1) as nat, rates, rng);
        lemma_mutated_gene(types, c, k - 1, rates, r);
    }
}

fn mutate_payload(
    gene: &mut Gene,
    flip_p: u64,
    point_p: u64,
    point_delta: (u32, u32),
    inverse_p: u64,
    rng: &mut Xoshiro256StarStar,
    Ghost(rates): Ghost<Rates>,
)
    requires
        rates == (Rates { swap_p: rates.swap_p, flip_p, point_p, point_delta, inverse_p }),
        !(point_delta.0 == 0 && point_delta.1 == u32::MAX),
        old(gene)@.selectors.len() == old(gene)@.inverses.len(),
    ensures
        (final(gene)@, *final(rng)) == mutated_payload(old(gene)@, rates, *old(rng)),
{
    let ghost g0 = gene@;
    if draw(rng, flip_p) {
        gene.rotate = !gene.rotate;
    }
    let ghost r1 = *rng;
    let count: usize = gene.selectors.len();
    let mut k: usize = 0;
    while k < count
        invariant
            k <= count,
            count == g0.selectors.len(),
            gene.selectors@.len() == count,
            !(point_delta.0 == 0 && point_delta.1 == u32::MAX),
            gene.type_idx == g0.type_idx,
            gene.rotate == mutated_payload(g0, rates, *old(rng)).0.rotate,
            gene.inverses@ == g0.inverses,
            (gene.selectors@, *rng) == nudged_selectors(
                g0.selectors,
                k as nat,
                point_p,
                point_delta,
                r1,
            ),
        decreases count - k,
    {
        if draw(rng, point_p) {
            let v: u32 = nudge(gene.selectors.at(k), point_delta, rng);
            gene.selectors.set(k, v);
        }
        k += 1;
    }
    let ghost r2 = *rng;
    let ghost sel = gene.selectors@;
    let mut q: usize = 0;
    while q < count
        invariant
            q <= count,
            count == g0.inverses.len(),
            gene.inverses@.len() == count,
            gene.type_idx == g0.type_idx,
            gene.rotate == mutated_payload(g0, rates, *old(rng)).0.rotate,
            gene.selectors@ == sel,
            (gene.inverses@, *rng) == flipped_inverses(g0.inverses, q as nat, inverse_p, r2),
        decreases count - q,
    {
        if draw(rng, inverse_p) {
            let v = gene.inverses.at(q);
            gene.inverses.set(q, !v);
        }
        q += 1;
    }
}

fn mutate_class(
    class: &mut Vec<Gene>,
    swap_p: u64,
    flip_p: u64,
    point_p: u64,
    point_delta: (u32, u32),
    inverse_p: u64,
    rng: &mut Xoshiro256StarStar,
    Ghost(rates): Ghost<Rates>,
)
    requires
        rates == (Rates { swap_p, flip_p, point_p, point_delta, inverse_p }),
        !(point_delta.0 == 0 && point_delta.1 == u32::MAX),
        even(class_view(old(class)@)),
    ensures
        (class_view(final(class)@), *final(rng)) == mutated_class(
            class_view(old(class)@),
            rates,
            *old(rng),
        ),
{
    let n: usize = class.len();
    if n < 2 {
        return;
    }
    let ghost c0 = class_view(class@);
    let mut i: usize = 0;
    while i < n
        invariant
            i <= n,
            n >= 2,
            n == class@.len(),
            n == c0.len(),
            even(c0),
            rates == (Rates { swap_p, flip_p, point_p, point_delta, inverse_p }),
            !(point_delta.0 == 0 && point_delta.1 == u32::MAX),
            (class_view(class@), *rng) == mutated_genes(c0, i as nat, rates, *old(rng)),
        decreases n - i,
    {
        let ghost c1 = class_view(class@);
        let ghost r1 = *rng;
        proof {
            law_mutation_keeps_keys(Seq::empty(), c0, i as nat, rates, *old(rng));
            lemma_mutated_gene(Seq::empty(), c1, i as int, rates, r1);
        }
        if draw(rng, swap_p) {
            let j: usize = draw_partner(rng, i, n);
            let a = class[i].clone();
            let b = class[j].clone();
            class.set(i, b);
            class.set(j, a);
            assert(class_view(class@) =~= exchanged(c1, i as int, j as int));
        }
        let ghost c2 = class_view(class@);
        let ghost r2 = *rng;
        assert((c2, r2) == swap_step(c1, i as int, swap_p, r1));
        assert(c2[i as int] == class@[i as int]@);
        assert(even(c2));
        mutate_payload(
            &mut class[i],
            flip_p,
            point_p,
            point_delta,
            inverse_p,
            rng,
            Ghost(rates),
        );
        assert(class_view(class@) =~= c2.update(i as int, class@[i as int]@));
        i += 1;
    }
}

/// Changes a genome in place, class by class. At each gene of a class of two or more: an
/// exchange with a random other gene of the class, a flip of the rotation, a shift of each
/// selector, a flip of each cut direction.
pub fn mutate(
    genome: &mut Genome,
    swap_p: u64,
    flip_p: u64,
    point_p: u64,
    point_delta: (u32, u32),
    inverse_p: u64,
    rng: &mut Xoshiro256StarStar,
)
    requires
        !(point_delta.0 == 0 && point_delta.1 == u32::MAX),
        forall|c: int|
            0 <= c < old(genome)@.len() ==> even(#[trigger] genome_view(*old(genome))[c]),
    ensures
        (genome_view(*final(genome)), *final(rng)) == mutated_classes(
            genome_view(*old(genome)),
            old(genome)@.len(),
            (Rates { swap_p, flip_p, point_p, point_delta, inverse_p }),
            *old(rng),
        ),
{
    let ghost rates = Rates { swap_p, flip_p, point_p, point_delta, inverse_p };
    let ghost g0 = genome_view(*genome);
    let mut c: usize = 0;
    while c < genome.len()
        invariant
            c <= genome@.len(),
            genome@.len() == g0.len(),
            rates == (Rates { swap_p, flip_p, point_p, point_delta, inverse_p }),
            !(point_delta.0 == 0 && point_delta.1 == u32::MAX),
            forall|d: int| 0 <= d < g0.len() ==> even(#[trigger] g0[d]),
            forall|d: int| c <= d < g0.len() ==> #[trigger] genome_view(*genome)[d] == g0[d],
            (genome_view(*genome), *rng) == mutated_classes(g0, c as nat, rates, *old(rng)),
        decreases genome@.len() - c,
    {
        let ghost g1 = genome_view(*genome);
        assert(g1[c as int] == class_view(genome@[c as int]@));
        assert(even(g0[c as int]));
        mutate_class(
            &mut genome[c],
            swap_p,
            flip_p,
            point_p,
            point_delta,
            inverse_p,
            rng,
            Ghost(rates),
        );
        assert(genome_view(*genome) =~= g1.update(c as int, class_view(genome@[c as int]@)));
        c += 1;
    }
}

/// Size classes: 0 for long pieces of large area, 1 for other long pieces, 2 for the rest.
pub open spec fn class_of(t: PieceType, sheet: Sheet, long: u32, large: u32) -> int {
    let long = if long == 0 {
        long_side(sheet.width, sheet.height)
    } else {
        long as int
    };
    let large = if large == 0 {
        large_root_of(sheet.width, sheet.height)
    } else {
        large as int
    };
    if t.width < long && t.height < long {
        2
    } else if t.width * t.height >= large * large {
        0
    } else {
        1
    }
}

/// The size class of a piece type.
pub fn piece_class(
    ps: &PieceType,
    spec: &ProblemSpec,
    long_dim_threshold: u32,
    large_area_threshold: u32,
) -> (r: usize)
    ensures
        r == class_of(*ps, spec.sheet, long_dim_threshold, large_area_threshold),
        r < 3,
{
    let long: u32 = if long_dim_threshold == 0 {
        default_long(spec.sheet.width, spec.sheet.height)
    } else {
        long_dim_threshold
    };
    let large: u32 = if large_area_threshold == 0 {
        default_large(spec.sheet.width, spec.sheet.height)
    } else {
        large_area_threshold
    };
    assert(ps.width * ps.height <= 0xffff_ffff * 0xffff_ffff) by (nonlinear_arith)
        requires
            0 <= ps.width <= 0xffff_ffff,
            0 <= ps.height <= 0xffff_ffff,
    ;
    assert(large * large <= 0xffff_ffff * 0xffff_ffff) by (nonlinear_arith)
        requires
            0 <= large <= 0xffff_ffff,
    ;
    let max_dim: u32 = if ps.width >= ps.height {
        ps.width
    } else {
        ps.height
    };
    if max_dim >= long {
        if ps.width as u64 * ps.height as u64 >= large as u64 * large as u64 {
            0
        } else {
            1
        }
    } else {
        2
    }
}

/// Piece types from the one with the longest side on; among those the larger first.
pub struct SideOrder {
    pub types: Seq<PieceType>,
}

/// The longer side of a piece type.
pub open spec fn longer_side(t: PieceType) -> int {
    if t.width >= t.height {
        t.width as int
    } else {
        t.height as int
    }
}

impl Order for SideOrder {
    open spec fn ranks(self, i: int) -> bool {
        0 <= i < self.types.len()
    }

    open spec fn leq(self, a: int, b: int) -> bool {
        let (s, t) = (self.types[a], self.types[b]);
        if longer_side(s) != longer_side(t) {
            longer_side(s) > longer_side(t)
        } else {
            s.width * s.height >= t.width * t.height
        }
    }

    proof fn leq_total(self, a: int, b: int) {
    }

    proof fn leq_trans(self, a: int, b: int, c: int) {
    }
}

struct SideRanking<'a> {
    types: &'a Vec<PieceType>,
}

impl<'a> Ranking for SideRanking<'a> {
    type Of = SideOrder;

    closed spec fn order(&self) -> SideOrder {
        SideOrder { types: self.types@ }
    }

    fn at_most(&self, a: usize, b: usize) -> (r: bool) {
        let s = &self.types[a];
        let t = &self.types[b];
        let sm: u32 = if s.width >= s.height {
            s.width
        } else {
            s.height
        };
        let tm: u32 = if t.width >= t.height {
            t.width
        } else {
            t.height
        };
        if sm != tm {
            sm > tm
        } else {
            type_area(s) >= type_area(t)
        }
    }
}

fn type_area(t: &PieceType) -> (r: u64)
    ensures
        r == t.width * t.height,
{
    assert(t.width * t.height <= 0xffff_ffff * 0xffff_ffff) by (nonlinear_arith)
        requires
            0 <= t.width <= 0xffff_ffff,
            0 <= t.height <= 0xffff_ffff,
    ;
    t.width as u64 * t.height as u64
}

/// Piece types from the one whose copies have the largest area together on.
pub struct TotalAreaOrder {
    pub types: Seq<PieceType>,
}

/// The area of all copies of a piece type.
pub open spec fn total_area(t: PieceType) -> int {
    t.width * t.height * t.count
}

impl Order for TotalAreaOrder {
    open spec fn ranks(self, i: int) -> bool {
        0 <= i < self.types.len()
    }

    open spec fn leq(self, a: int, b: int) -> bool {
        total_area(self.types[a]) >= total_area(self.types[b])
    }

    proof fn leq_total(self, a: int, b: int) {
    }

    proof fn leq_trans(self, a: int, b: int, c: int) {
    }
}

struct TotalAreaRanking<'a> {
    types: &'a Vec<PieceType>,
}

fn area_of_copies(t: &PieceType) -> (r: u128)
    ensures
        r == total_area(*t),
{
    let area: u64 = type_area(t);
    assert(area * t.count <= 0xffff_ffff_ffff_ffff * 0xffff_ffff) by (nonlinear_arith)
        requires
            0 <= area <= 0xffff_ffff_ffff_ffff,
            0 <= t.count <= 0xffff_ffff,
    ;
    area as u128 * t.count as u128
}

impl<'a> Ranking for TotalAreaRanking<'a> {
    type Of = TotalAreaOrder;

    closed spec fn order(&self) -> TotalAreaOrder {
        TotalAreaOrder { types: self.types@ }
    }

    fn at_most(&self, a: usize, b: usize) -> (r: bool) {
        area_of_copies(&self.types[a]) >= area_of_copies(&self.types[b])
    }
}

/// The piece types of class `c` among the first `k` of an order.
pub open spec fn members(
    spec: ProblemSpec,
    long: u32,
    large: u32,
    order: Seq<usize>,
    c: int,
    k: nat,
) -> Seq<usize>
    decreases k,
{
    if k == 0 {
        Seq::empty()
    } else {
        let rest = members(spec, long, large, order, c, (k - 1) as nat);
        let t = order[k - 1];
        if class_of(spec.piece_types@[t as int], spec.sheet, long, large) == c {
            rest.push(t)
        } else {
            rest
        }
    }
}

/// The class holds the piece types of its size, each once.
pub open spec fn holds_class(spec: ProblemSpec, long: u32, large: u32, s: Seq<usize>, c: int) -> bool {
    &&& s.no_duplicates()
    &&& forall|i: int| 0 <= i < s.len() ==> (#[trigger] s[i]) < spec.piece_types@.len()
    &&& forall|t: usize| #[trigger]
        s.contains(t) <==> t < spec.piece_types@.len() && class_of(
            spec.piece_types@[t as int],
            spec.sheet,
            long,
            large,
        ) == c
}

proof fn lemma_members(spec: ProblemSpec, long: u32, large: u32, order: Seq<usize>, c: int, k: nat)
    requires
        k <= order.len(),
        order.no_duplicates(),
        forall|i: int| 0 <= i < order.len() ==> (#[trigger] order[i]) < spec.piece_types@.len(),
    ensures
        ({
            let s = members(spec, long, large, order, c, k);
            &&& s.no_duplicates()
            &&& forall|i: int| 0 <= i < s.len() ==> order.take(k as int).contains(#[trigger] s[i])
            &&& forall|t: usize| #[trigger]
                s.contains(t) <==> order.take(k as int).contains(t) && class_of(
                    spec.piece_types@[t as int],
                    spec.sheet,
                    long,
                    large,
                ) == c
        }),
    decreases k,
{
    if k > 0 {
        let m = (k - 1) as nat;
        lemma_members(spec, long, large, order, c, m);
        let r = members(spec, long, large, order, c, m);
        let s = members(spec, long, large, order, c, k);
        let t = order[k - 1];
        let (pm, pk) = (order.take(m as int), order.take(k as int));
        assert(pk =~= pm.push(t));
        assert(!pm.contains(t));
        assert forall|v: usize| #[trigger] pk.contains(v) <==> pm.contains(v) || v == t by {
            if pk.contains(v) {
                let i = choose|i: int| 0 <= i < pk.len() && pk[i] == v;
                if i < m {
                    assert(pm[i] == v);
                }
            }
            if pm.contains(v) {
                let i = choose|i: int| 0 <= i < pm.len() && pm[i] == v;
                assert(pk[i] == v);
            }
            if v == t {
                assert(pk[k - 1] == t);
            }
        }
        if class_of(spec.piece_types@[t as int], spec.sheet, long, large) == c {
            assert(s == r.push(t));
            assert forall|v: usize| #[trigger] s.contains(v) <==> r.contains(v) || v == t by {
                if s.contains(v) {
                    let i = choose|i: int| 0 <= i < s.len() && s[i] == v;
                    if i < r.len() {
                        assert(r[i] == v);
                    }
                }
                if r.contains(v) {
                    let i = choose|i: int| 0 <= i < r.len() && r[i] == v;
                    assert(s[i] == v);
                }
                if v == t {
                    assert(s[s.len() - 1] == t);
                }
            }
            assert(!r.contains(t));
            assert(s.no_duplicates());
        }
        assert forall|i: int| 0 <= i < s.len() implies pk.contains(#[trigger] s[i]) by {
            assert(s.contains(s[i]));
        }
    }
}

proof fn lemma_holds_class<R: Order>(
    spec: ProblemSpec,
    long: u32,
    large: u32,
    rank: R,
    order: Seq<usize>,
    c: int,
)
    requires
        in_order(rank, spec.piece_types@.len(), order),
        forall|i: int| 0 <= i < spec.piece_types@.len() ==> #[trigger] rank.ranks(i),
    ensures
        holds_class(
            spec,
            long,
            large,
            members(spec, long, large, order, c, order.len()),
            c,
        ),
{
    let n = spec.piece_types@.len();
    assert(order.no_duplicates()) by {
        assert forall|i: int, j: int| 0 <= i < order.len() && 0 <= j < order.len() && i != j implies order[i]
            != order[j] by {
            if i < j {
                assert(crate::sorting::precedes(rank, order[i] as int, order[j] as int));
            } else {
                assert(crate::sorting::precedes(rank, order[j] as int, order[i] as int));
            }
        }
    }
    lemma_members(spec, long, large, order, c, order.len());
    assert(order.take(order.len() as int) =~= order);
    let s = members(spec, long, large, order, c, order.len());
    assert forall|t: usize| #[trigger]
        s.contains(t) <==> t < n && class_of(
            spec.piece_types@[t as int],
            spec.sheet,
            long,
            large,
        ) == c by {
        if t < n {
            lemma_in_order_all(rank, n, order, t);
        }
    }
    assert forall|i: int| 0 <= i < s.len() implies (#[trigger] s[i]) < n by {
        assert(s.contains(s[i]));
    }
}

fn class_members(
    spec: &ProblemSpec,
    long_dim_threshold: u32,
    large_area_threshold: u32,
    order: &Vec<usize>,
    c: usize,
) -> (r: Vec<usize>)
    requires
        forall|i: int|
            0 <= i < order@.len() ==> (#[trigger] order@[i]) < spec.piece_types@.len(),
    ensures
        r@ == members(
            *spec,
            long_dim_threshold,
            large_area_threshold,
            order@,
            c as int,
            order@.len(),
        ),
{
    let mut out: Vec<usize> = Vec::new();
    let mut k: usize = 0;
    while k < order.len()
        invariant
            k <= order@.len(),
            forall|i: int|
                0 <= i < order@.len() ==> (#[trigger] order@[i]) < spec.piece_types@.len(),
            out@ == members(
                *spec,
                long_dim_threshold,
                large_area_threshold,
                order@,
                c as int,
                k as nat,
            ),
        decreases order@.len() - k,
    {
        let t: usize = order[k];
        if piece_class(
            &spec.piece_types[t],
            spec,
            long_dim_threshold,
            large_area_threshold,
        ) == c {
            out.push(t);
        }
        k += 1;
    }
    out
}

/// The gene of a piece type in the greedy genome.
pub open spec fn greedy_gene(types: Seq<PieceType>, t: usize) -> GeneView {
    let p = types[t as int];
    GeneView {
        type_idx: t,
        rotate: p.height > p.width,
        selectors: Seq::new(p.count as nat, |i: int| 0u32),
        inverses: Seq::new(p.count as nat, |i: int| false),
    }
}

/// The greedy genome: in each class the piece types from the longest on, the larger first;
/// upright pieces are turned.
pub open spec fn greedy_model(spec: ProblemSpec, long: u32, large: u32) -> Seq<Seq<GeneView>> {
    let types = spec.piece_types@;
    let order = order_of(SideOrder { types }, types.len());
    Seq::new(
        3,
        |c: int|
            {
                let s = members(spec, long, large, order, c, order.len());
                Seq::new(s.len(), |i: int| greedy_gene(types, s[i]))
            },
    )
}

/// The genome is one for the classes of a configuration.
pub open spec fn classed(
    spec: ProblemSpec,
    long: u32,
    large: u32,
    m: Seq<Seq<GeneView>>,
) -> bool {
    &&& m.len() == 3
    &&& forall|c: int|
        0 <= c < 3 ==> {
            &&& holds_class(spec, long, large, #[trigger] keys(m[c]), c)
            &&& sized(spec.piece_types@, m[c])
        }
}

/// A deterministic genome: within each size class, piece types by their longer side, then by
/// area, the largest first.
pub fn greedy_genome(spec: &ProblemSpec, long_dim_threshold: u32, large_area_threshold: u32) -> (r:
    Genome)
    ensures
        genome_view(r) == greedy_model(*spec, long_dim_threshold, large_area_threshold),
        classed(*spec, long_dim_threshold, large_area_threshold, genome_view(r)),
{
    let ghost types = spec.piece_types@;
    let ranking = SideRanking { types: &spec.piece_types };
    let order = ranked(&ranking, spec.piece_types.len());
    let ghost rank = SideOrder { types };
    assert(ranking.order() == rank);
    let mut genome: Genome = Vec::new();
    let mut c: usize = 0;
    assert(genome_view(genome) =~= Seq::empty());
    while c < 3
        invariant
            c <= 3,
            types == spec.piece_types@,
            rank == (SideOrder { types }),
            order@ == order_of(rank, types.len()),
            in_order(rank, types.len(), order@),
            genome@.len() == c,
            forall|d: int|
                0 <= d < c ==> {
                    &&& #[trigger] class_view(genome@[d]@) == greedy_model(
                        *spec,
                        long_dim_threshold,
                        large_area_threshold,
                    )[d]
                    &&& holds_class(
                        *spec,
                        long_dim_threshold,
                        large_area_threshold,
                        keys(class_view(genome@[d]@)),
                        d,
                    )
                    &&& sized(types, class_view(genome@[d]@))
                },
        decreases 3 - c,
    {
        let s = class_members(spec, long_dim_threshold, large_area_threshold, &order, c);
        proof {
            lemma_holds_class(
                *spec,
                long_dim_threshold,
                large_area_threshold,
                rank,
                order@,
                c as int,
            );
        }
        let mut genes: Vec<Gene> = Vec::new();
        while genes.len() < s.len()
            invariant
                types == spec.piece_types@,
                genes@.len() <= s@.len(),
                forall|i: int| 0 <= i < s@.len() ==> (#[trigger] s@[i]) < types.len(),
                forall|i: int|
                    0 <= i < genes@.len() ==> (#[trigger] genes@[i])@ == greedy_gene(
                        types,
                        s@[i],
                    ),
            decreases s@.len() - genes@.len(),
        {
            let type_idx: usize = s[genes.len()];
            let ps = &spec.piece_types[type_idx];
            let zeros: Vec<u32> = vec![0u32; ps.count as usize];
            let flags: Vec<bool> = vec![false; ps.count as usize];
            let gene = Gene {
                type_idx,
                rotate: ps.height > ps.width,
                selectors: Selectors::of(&zeros),
                inverses: Inverses::of(&flags),
            };
            assert(gene@.selectors =~= greedy_gene(types, type_idx).selectors);
            assert(gene@.inverses =~= greedy_gene(types, type_idx).inverses);
            genes.push(gene);
        }
        proof {
            let cv = class_view(genes@);
            let goal = greedy_model(*spec, long_dim_threshold, large_area_threshold)[c as int];
            assert forall|i: int| 0 <= i < cv.len() implies cv[i] == goal[i] by {
                assert(genes@[i]@ == greedy_gene(types, s@[i]));
            }
            assert(cv =~= goal);
            assert(keys(cv) =~= s@);
            assert forall|i: int| 0 <= i < cv.len() implies {
                &&& (#[trigger] cv[i]).type_idx < types.len()
                &&& cv[i].selectors.len() == types[cv[i].type_idx as int].count
                &&& cv[i].inverses.len() == types[cv[i].type_idx as int].count
            } by {
                assert(genes@[i]@ == greedy_gene(types, s@[i]));
                assert(s@[i] < types.len());
            }
        }
        genome.push(genes);
        c += 1;
    }
    proof {
        let gv = genome_view(genome);
        let goal = greedy_model(*spec, long_dim_threshold, large_area_threshold);
        assert forall|d: int| 0 <= d < 3 implies gv[d] == goal[d] by {
            assert(class_view(genome@[d]@) == goal[d]);
        }
        assert(gv =~= goal);
        assert forall|d: int| 0 <= d < 3 implies {
            &&& holds_class(
                *spec,
                long_dim_threshold,
                large_area_threshold,
                #[trigger] keys(gv[d]),
                d,
            )
            &&& sized(types, gv[d])
        } by {
            assert(gv[d] == class_view(genome@[d]@));
        }
    }
    genome
}

/// `k` random exchanges.
pub open spec fn stirred(s: Seq<usize>, k: nat, rng: Xoshiro256StarStar) -> (
    Seq<usize>,
    Xoshiro256StarStar,
)
    decreases k,
{
    if k == 0 {
        (s, rng)
    } else {
        let (t, r) = stirred(s, (k - 1) as nat, rng);
        let n = s.len() as int;
        (exchanged(t, pick(r, n), pick(after(r), n)), after(after(r)))
    }
}

/// `n` drawn selectors.
pub open spec fn drawn_selectors(n: nat, rng: Xoshiro256StarStar) -> (Seq<u32>, Xoshiro256StarStar)
    decreases n,
{
    if n == 0 {
        (Seq::empty(), rng)
    } else {
        let (s, r) = drawn_selectors((n - 1) as nat, rng);
        (s.push(low_half(r)), after(r))
    }
}

/// `n` drawn cut directions.
pub open spec fn drawn_inverses(n: nat, rng: Xoshiro256StarStar) -> (Seq<bool>, Xoshiro256StarStar)
    decreases n,
{
    if n == 0 {
        (Seq::empty(), rng)
    } else {
        let (s, r) = drawn_inverses((n - 1) as nat, rng);
        (s.push(odd(r)), after(r))
    }
}

/// A random gene for a piece type.
pub open spec fn random_gene(types: Seq<PieceType>, t: usize, rng: Xoshiro256StarStar) -> (
    GeneView,
    Xoshiro256StarStar,
) {
    let n = types[t as int].count as nat;
    let (selectors, r1) = drawn_selectors(n, after(rng));
    let (inverses, r2) = drawn_inverses(n, r1);
    (GeneView { type_idx: t, rotate: odd(rng), selectors, inverses }, r2)
}

/// Random genes for the first `k` piece types of a list.
pub open spec fn random_genes(
    types: Seq<PieceType>,
    s: Seq<usize>,
    k: nat,
    rng: Xoshiro256StarStar,
) -> (Seq<GeneView>, Xoshiro256StarStar)
    decreases k,
{
    if k == 0 {
        (Seq::empty(), rng)
    } else {
        let (g, r) = random_genes(types, s, (k - 1) as nat, rng);
        let (gene, r2) = random_gene(types, s[k - 1], r);
        (g.push(gene), r2)
    }
}

/// A random class: the piece types by the area of all their copies, largest first, with one
/// random exchange for every four of them, and random genes.
pub open spec fn random_class(
    spec: ProblemSpec,
    long: u32,
    large: u32,
    c: int,
    rng: Xoshiro256StarStar,
) -> (Seq<GeneView>, Xoshiro256StarStar) {
    let types = spec.piece_types@;
    let order = order_of(TotalAreaOrder { types }, types.len());
    let s = members(spec, long, large, order, c, order.len());
    let (t, r) = stirred(s, (s.len() / 4) as nat, rng);
    random_genes(types, t, t.len(), r)
}

/// The first `k` classes of a random genome.
pub open spec fn random_classes(
    spec: ProblemSpec,
    long: u32,
    large: u32,
    k: nat,
    rng: Xoshiro256StarStar,
) -> (Seq<Seq<GeneView>>, Xoshiro256StarStar)
    decreases k,
{
    if k == 0 {
        (Seq::empty(), rng)
    } else {
        let (g, r) = random_classes(spec, long, large, (k - 1) as nat, rng);
        let (class, r2) = random_class(spec, long, large, k - 1, r);
        (g.push(class), r2)
    }
}

fn make_gene(spec: &ProblemSpec, type_idx: usize, rng: &mut Xoshiro256StarStar) -> (r: Gene)
    requires
        type_idx < spec.piece_types@.len(),
    ensures
        (r@, *final(rng)) == random_gene(spec.piece_types@, type_idx, *old(rng)),
        r@.selectors.len() == spec.piece_types@[type_idx as int].count,
        r@.inverses.len() == spec.piece_types@[type_idx as int].count,
{
    let count: u32 = spec.piece_types[type_idx].count;
    let rotate = draw_bit(rng);
    let mut selectors = Selectors::new();
    let ghost r1 = *rng;
    let mut k: u32 = 0;
    while k < count
        invariant
            k <= count,
            selectors@.len() == k,
            (selectors@, *rng) == drawn_selectors(k as nat, r1),
        decreases count - k,
    {
        selectors.push(draw_selector(rng));
        k += 1;
    }
    let mut inverses = Inverses::new();
    let ghost r2 = *rng;
    let mut q: u32 = 0;
    while q < count
        invariant
            q <= count,
            inverses@.len() == q,
            (inverses@, *rng) == drawn_inverses(q as nat, r2),
        decreases count - q,
    {
        inverses.push(draw_bit(rng));
        q += 1;
    }
    Gene { type_idx, rotate, selectors, inverses }
}

fn make_class(
    spec: &ProblemSpec,
    long_dim_threshold: u32,
    large_area_threshold: u32,
    order: &Vec<usize>,
    c: usize,
    rng: &mut Xoshiro256StarStar,
) -> (r: Vec<Gene>)
    requires
        order@ == order_of(TotalAreaOrder { types: spec.piece_types@ }, spec.piece_types@.len()),
        in_order(TotalAreaOrder { types: spec.piece_types@ }, spec.piece_types@.len(), order@),
    ensures
        (class_view(r@), *final(rng)) == random_class(
            *spec,
            long_dim_threshold,
            large_area_threshold,
            c as int,
            *old(rng),
        ),
        holds_class(
            *spec,
            long_dim_threshold,
            large_area_threshold,
            keys(class_view(r@)),
            c as int,
        ),
        sized(spec.piece_types@, class_view(r@)),
{
    let ghost types = spec.piece_types@;
    let mut indices = class_members(spec, long_dim_threshold, large_area_threshold, order, c);
    let ghost s = indices@;
    proof {
        lemma_holds_class(
            *spec,
            long_dim_threshold,
            large_area_threshold,
            TotalAreaOrder { types },
            order@,
            c as int,
        );
    }
    let n: usize = indices.len();
    let swaps: usize = n / 4;
    let mut q: usize = 0;
    while q < swaps
        invariant
            q <= swaps,
            swaps == n / 4,
            n == s.len(),
            indices@.len() == n,
            same_keys(s, indices@),
            (indices@, *rng) == stirred(s, q as nat, *old(rng)),
        decreases swaps - q,
    {
        let i: usize = draw_index(rng, n);
        let j: usize = draw_index(rng, n);
        let ghost t = indices@;
        proof {
            lemma_exchanged_keys(t, i as int, j as int);
        }
        let (a, b) = (indices[i], indices[j]);
        indices.set(i, b);
        indices.set(j, a);
        assert(indices@ =~= exchanged(t, i as int, j as int));
        q += 1;
    }
    let ghost r1 = *rng;
    let ghost t = indices@;
    assert forall|i: int| 0 <= i < t.len() implies (#[trigger] t[i]) < types.len() by {
        assert(t.contains(t[i]));
        assert(s.contains(t[i]));
    }
    let mut genes: Vec<Gene> = Vec::new();
    assert(class_view(genes@) =~= Seq::empty());
    while genes.len() < indices.len()
        invariant
            types == spec.piece_types@,
            t == indices@,
            genes@.len() <= t.len(),
            forall|i: int| 0 <= i < t.len() ==> (#[trigger] t[i]) < types.len(),
            (class_view(genes@), *rng) == random_genes(types, t, genes@.len(), r1),
            forall|i: int|
                0 <= i < genes@.len() ==> {
                    &&& (#[trigger] genes@[i])@.type_idx == t[i]
                    &&& genes@[i]@.selectors.len() == types[t[i] as int].count
                    &&& genes@[i]@.inverses.len() == types[t[i] as int].count
                },
        decreases t.len() - genes@.len(),
    {
        let ghost before = class_view(genes@);
        let gene = make_gene(spec, indices[genes.len()], rng);
        genes.push(gene);
        assert(class_view(genes@) =~= before.push(gene@));
    }
    proof {
        let cv = class_view(genes@);
        assert forall|i: int| 0 <= i < cv.len() implies {
            &&& (#[trigger] cv[i]).type_idx == t[i]
            &&& cv[i].selectors.len() == types[t[i] as int].count
            &&& cv[i].inverses.len() == types[t[i] as int].count
        } by {
            assert(genes@[i]@.type_idx == t[i]);
        }
        assert(keys(cv) =~= t);
        assert forall|v: usize| #[trigger]
            t.contains(v) <==> v < types.len() && class_of(
                types[v as int],
                spec.sheet,
                long_dim_threshold,
                large_area_threshold,
            ) == c by {
            assert(s.contains(v) <==> t.contains(v));
        }
    }
    genes
}

/// A random genome for the size classes of a problem.
pub fn make_genome(
    spec: &ProblemSpec,
    long_dim_threshold: u32,
    large_area_threshold: u32,
    rng: &mut Xoshiro256StarStar,
) -> (r: Genome)
    ensures
        (genome_view(r), *final(rng)) == random_classes(
            *spec,
            long_dim_threshold,
            large_area_threshold,
            3,
            *old(rng),
        ),
        classed(*spec, long_dim_threshold, large_area_threshold, genome_view(r)),
{
    let ranking = TotalAreaRanking { types: &spec.piece_types };
    assert(ranking.order() == (TotalAreaOrder { types: spec.piece_types@ }));
    let order = ranked(&ranking, spec.piece_types.len());
    let mut genome: Genome = Vec::new();
    let mut c: usize = 0;
    assert(genome_view(genome) =~= Seq::empty());
    while c < 3
        invariant
            c <= 3,
            order@ == order_of(
                (TotalAreaOrder { types: spec.piece_types@ }),
                spec.piece_types@.len(),
            ),
            in_order(
                (TotalAreaOrder { types: spec.piece_types@ }),
                spec.piece_types@.len(),
                order@,
            ),
            genome@.len() == c,
            (genome_view(genome), *rng) == random_classes(
                *spec,
                long_dim_threshold,
                large_area_threshold,
                c as nat,
                *old(rng),
            ),
            forall|d: int|
                0 <= d < c ==> {
                    &&& holds_class(
                        *spec,
                        long_dim_threshold,
                        large_area_threshold,
                        #[trigger] keys(genome_view(genome)[d]),
                        d,
                    )
                    &&& sized(spec.piece_types@, genome_view(genome)[d])
                },
        decreases 3 - c,
    {
        let ghost before = genome_view(genome);
        let class = make_class(
            spec,
            long_dim_threshold,
            large_area_threshold,
            &order,
            c,
            rng,
        );
        genome.push(class);
        assert(genome_view(genome) =~= before.push(class_view(class@)));
        proof {
            assert forall|d: int| 0 <= d < c + 1 implies {
                &&& holds_class(
                    *spec,
                    long_dim_threshold,
                    large_area_threshold,
                    #[trigger] keys(genome_view(genome)[d]),
                    d,
                )
                &&& sized(spec.piece_types@, genome_view(genome)[d])
            } by {
                if d < c {
                    assert(genome_view(genome)[d] == before[d]);
                    assert(holds_class(
                        *spec,
                        long_dim_threshold,
                        large_area_threshold,
                        keys(before[d]),
                        d,
                    ));
                }
            }
        }
        c += 1;
    }
    genome
}

/// A genome for the size classes has one gene for each piece type.
pub proof fn lemma_classed_genes(spec: ProblemSpec, long: u32, large: u32, m: Seq<Seq<GeneView>>)
    requires
        classed(spec, long, large, m),
        spec.piece_types@.len() <= usize::MAX,
    ensures
        genes_ok(spec.piece_types@, all_genes(m, m.len())),
        distinct_types(all_genes(m, m.len())),
{
    let types = spec.piece_types@;
    let n = types.len();
    let g = all_genes(m, 3);
    assert(all_genes(m, 0) =~= Seq::empty());
    assert(all_genes(m, 1) =~= m[0]) by {
        reveal_with_fuel(all_genes, 2);
    }
    assert(all_genes(m, 2) =~= m[0] + m[1]);
    assert(g =~= m[0] + m[1] + m[2]);
    let (k0, k1, k2) = (keys(m[0]), keys(m[1]), keys(m[2]));
    let k = keys(g);
    assert(k =~= k0 + k1 + k2);
    assert(holds_class(spec, long, large, k0, 0));
    assert(holds_class(spec, long, large, k1, 1));
    assert(holds_class(spec, long, large, k2, 2));
    assert forall|i: int| 0 <= i < k.len() implies k[i] < n && (if i < k0.len() {
        k0.contains(k[i])
    } else if i < k0.len() + k1.len() {
        k1.contains(k[i])
    } else {
        k2.contains(k[i])
    }) by {
        if i < k0.len() {
            assert(k[i] == k0[i]);
        } else if i < k0.len() + k1.len() {
            assert(k[i] == k1[i - k0.len()]);
        } else {
            assert(k[i] == k2[i - k0.len() - k1.len()]);
        }
    }
    assert forall|i: int, j: int| 0 <= i < j < k.len() implies k[i] != k[j] by {
        let (a, b) = (k0.len() as int, (k0.len() + k1.len()) as int);
        if j < a {
            assert(k0[i] != k0[j]);
        } else if i >= a && j < b {
            assert(k1[i - a] != k1[j - a]);
        } else if i >= b {
            assert(k2[i - b] != k2[j - b]);
        }
    }
    assert(k.no_duplicates());
    let all = Seq::new(n, |i: int| i as usize);
    assert(all.no_duplicates());
    assert forall|v: usize| k.contains(v) <==> all.contains(v) by {
        if all.contains(v) {
            let c = class_of(types[v as int], spec.sheet, long, large);
            if c == 0 {
                assert(k0.contains(v));
                let i = choose|i: int| 0 <= i < k0.len() && k0[i] == v;
                assert(k[i] == v);
            } else if c == 1 {
                assert(k1.contains(v));
                let i = choose|i: int| 0 <= i < k1.len() && k1[i] == v;
                assert(k[k0.len() + i] == v);
            } else {
                assert(k2.contains(v));
                let i = choose|i: int| 0 <= i < k2.len() && k2[i] == v;
                assert(k[k0.len() + k1.len() + i] == v);
            }
        }
        if k.contains(v) {
            assert(all[v as int] == v);
        }
    }
    k.unique_seq_to_set();
    all.unique_seq_to_set();
    assert(k.to_set() =~= all.to_set());
    assert(g.len() == n);
    assert forall|i: int| 0 <= i < g.len() implies {
        &&& (#[trigger] g[i]).type_idx < types.len()
        &&& g[i].selectors.len() == types[g[i].type_idx as int].count
        &&& g[i].inverses.len() == types[g[i].type_idx as int].count
    } by {
        let (a, b) = (k0.len() as int, (k0.len() + k1.len()) as int);
        if i < a {
            assert(g[i] == m[0][i]);
        } else if i < b {
            assert(g[i] == m[1][i - a]);
        } else {
            assert(g[i] == m[2][i - b]);
        }
    }
    assert forall|i: int, j: int| 0 <= i < j < g.len() implies (#[trigger] g[i]).type_idx != (
    #[trigger] g[j]).type_idx by {
        assert(k[i] != k[j]);
    }
}

/// A genome whose classes are orders of those of another, with genes of the right size, is one
/// for the same size classes.
proof fn lemma_still_classed(
    spec: ProblemSpec,
    long: u32,
    large: u32,
    a: Seq<Seq<GeneView>>,
    b: Seq<Seq<GeneView>>,
)
    requires
        classed(spec, long, large, a),
        same_classes(a, b),
        forall|c: int| 0 <= c < b.len() ==> sized(spec.piece_types@, #[trigger] b[c]),
    ensures
        classed(spec, long, large, b),
{
    assert forall|c: int| 0 <= c < 3 implies {
        &&& holds_class(spec, long, large, #[trigger] keys(b[c]), c)
        &&& sized(spec.piece_types@, b[c])
    } by {
        let (s, t) = (keys(a[c]), keys(b[c]));
        assert(same_keys(s, t));
        assert(holds_class(spec, long, large, s, c));
        assert forall|v: usize| #[trigger]
            t.contains(v) <==> v < spec.piece_types@.len() && class_of(
                spec.piece_types@[v as int],
                spec.sheet,
                long,
                large,
            ) == c by {
            assert(s.contains(v) <==> t.contains(v));
        }
        assert forall|i: int| 0 <= i < t.len() implies (#[trigger] t[i])
            < spec.piece_types@.len() by {
            assert(t.contains(t[i]));
        }
    }
}

/// A child whose genes come from parents of the right size is of the right size.
proof fn lemma_inherits_size(
    types: Seq<PieceType>,
    a: Seq<Seq<GeneView>>,
    b: Seq<Seq<GeneView>>,
    child: Seq<Seq<GeneView>>,
)
    requires
        a.len() == b.len(),
        inherits(a, b, child),
        forall|c: int| 0 <= c < a.len() ==> sized(types, #[trigger] a[c]),
        forall|c: int| 0 <= c < b.len() ==> sized(types, #[trigger] b[c]),
    ensures
        forall|c: int| 0 <= c < child.len() ==> sized(types, #[trigger] child[c]),
{
    assert forall|c: int| 0 <= c < child.len() implies sized(types, #[trigger] child[c]) by {
        assert(sized(types, a[c]) && sized(types, b[c]));
        assert(inherited(a[c], b[c], child[c]));
        assert forall|i: int| 0 <= i < child[c].len() implies {
            &&& (#[trigger] child[c][i]).type_idx < types.len()
            &&& child[c][i].selectors.len() == types[child[c][i].type_idx as int].count
            &&& child[c][i].inverses.len() == types[child[c][i].type_idx as int].count
        } by {
            let g = child[c][i];
            if a[c].contains(g) {
                let j = choose|j: int| 0 <= j < a[c].len() && a[c][j] == g;
                assert(a[c][j].type_idx < types.len());
            } else {
                let j = choose|j: int| 0 <= j < b[c].len() && b[c][j] == g;
                assert(b[c][j].type_idx < types.len());
            }
        }
    }
}

/// A mutation keeps the piece types of each class, each once, and the number of selectors and
/// cut directions of each.
pub proof fn law_mutation_keeps_classes(
    types: Seq<PieceType>,
    m: Seq<Seq<GeneView>>,
    k: nat,
    rates: Rates,
    rng: Xoshiro256StarStar,
)
    requires
        k <= m.len(),
        forall|c: int| 0 <= c < m.len() ==> (#[trigger] keys(m[c])).no_duplicates(),
        forall|c: int| 0 <= c < m.len() ==> sized(types, #[trigger] m[c]),
    ensures
        same_classes(m, mutated_classes(m, k, rates, rng).0),
        forall|c: int|
            0 <= c < m.len() ==> sized(types, #[trigger] mutated_classes(m, k, rates, rng).0[c]),
    decreases k,
{
    if k > 0 {
        law_mutation_keeps_classes(types, m, (k - 1) as nat, rates, rng);
        let (g, r) = mutated_classes(m, (k - 1) as nat, rates, rng);
        let h = mutated_classes(m, k, rates, rng).0;
        assert(same_keys(keys(m[k - 1]), keys(g[k - 1])));
        assert(sized(types, g[k - 1]));
        if g[k - 1].len() >= 2 {
            law_mutation_keeps_keys(types, g[k - 1], g[k - 1].len(), rates, r);
        }
        assert forall|c: int| 0 <= c < m.len() implies same_keys(
            #[trigger] keys(m[c]),
            keys(h[c]),
        ) && sized(types, h[c]) by {
            assert(same_keys(keys(m[c]), keys(g[c])));
            assert(sized(types, g[c]));
        }
        assert forall|c: int| 0 <= c < m.len() implies sized(types, #[trigger] h[c]) by {
            assert(same_keys(keys(m[c]), keys(h[c])));
        }
    } else {
        assert forall|c: int| 0 <= c < m.len() implies same_keys(
            #[trigger] keys(m[c]),
            keys(m[c]),
        ) by {}
    }
}

/// The decoder with one gene per piece type; it has the problem and its flat form.
pub struct GlasDecoder<'a> {
    pub spec: &'a ProblemSpec,
    pub problem: &'a Problem,
}

/// The flat problem is that of the piece types, every piece fits on a sheet, and every layout
/// can be scored.
pub open spec fn playable(spec: ProblemSpec, problem: Problem) -> bool {
    &&& copies_of(problem, spec.piece_types@)
    &&& solid_pieces(problem)
    &&& all_fit(problem)
    &&& scorable(problem.sheet, problem.pieces@.len())
    &&& problem.pieces@.len() < usize::MAX
    &&& spec.piece_types@.len() <= usize::MAX
}

/// The objective of the layout that a genome stands for.
pub open spec fn objective_for(spec: ProblemSpec, problem: Problem, m: Seq<Seq<GeneView>>) -> Objective {
    let genes = all_genes(m, m.len());
    objective_of(
        problem,
        decoded(problem, spec.piece_types@, genes, genes.len()).pack.placements,
    )
}

impl<'a> GaDecoder for GlasDecoder<'a> {
    type Genome = Genome;

    type Model = Seq<Seq<GeneView>>;

    open spec fn model(genome: Genome) -> Seq<Seq<GeneView>> {
        genome_view(genome)
    }

    open spec fn ready(&self, config: GaConfig) -> bool {
        playable(*self.spec, *self.problem) && config.delta_ok()
    }

    open spec fn decodes(&self, m: Seq<Seq<GeneView>>) -> bool {
        &&& playable(*self.spec, *self.problem)
        &&& genes_ok(self.spec.piece_types@, all_genes(m, m.len()))
    }

    open spec fn crossable(&self, a: Seq<Seq<GeneView>>, b: Seq<Seq<GeneView>>) -> bool {
        same_classes(a, b)
    }

    open spec fn valid(&self, config: GaConfig, m: Seq<Seq<GeneView>>) -> bool {
        &&& playable(*self.spec, *self.problem)
        &&& classed(*self.spec, config.long_dim_threshold, config.large_area_threshold, m)
    }

    open spec fn objective(&self, m: Seq<Seq<GeneView>>) -> Objective {
        objective_for(*self.spec, *self.problem, m)
    }

    open spec fn random_model(&self, config: GaConfig, rng: Xoshiro256StarStar) -> (
        Seq<Seq<GeneView>>,
        Xoshiro256StarStar,
    ) {
        random_classes(
            *self.spec,
            config.long_dim_threshold,
            config.large_area_threshold,
            3,
            rng,
        )
    }

    open spec fn crossed(
        &self,
        a: Seq<Seq<GeneView>>,
        b: Seq<Seq<GeneView>>,
        rng: Xoshiro256StarStar,
    ) -> ((Seq<Seq<GeneView>>, Seq<Seq<GeneView>>), Xoshiro256StarStar) {
        ox_classes(a, b, a.len(), rng)
    }

    open spec fn mutated(
        &self,
        m: Seq<Seq<GeneView>>,
        config: GaConfig,
        rng: Xoshiro256StarStar,
    ) -> (Seq<Seq<GeneView>>, Xoshiro256StarStar) {
        mutated_classes(m, m.len(), rates_of(config), rng)
    }

    open spec fn seed_models(&self, config: GaConfig) -> Seq<Seq<Seq<GeneView>>> {
        seq![
            greedy_model(
                *self.spec,
                config.long_dim_threshold,
                config.large_area_threshold,
            ),
        ]
    }

    proof fn clone_says_the_same(a: Genome, b: Genome) {
        if a != b {
            assert forall|c: int| 0 <= c < a@.len() implies class_view(a@[c]@) == class_view(
                b@[c]@,
            ) by {
                assert(cloned(a@[c], b@[c]));
                if a@[c] != b@[c] {
                    assert forall|i: int| 0 <= i < a@[c]@.len() implies a@[c]@[i]@
                        == b@[c]@[i]@ by {
                        assert(cloned(a@[c]@[i], b@[c]@[i]));
                    }
                    assert(class_view(a@[c]@) =~= class_view(b@[c]@));
                }
            }
            assert(genome_view(a) =~= genome_view(b));
        }
    }

    fn random_genome(&self, config: &GaConfig, rng: &mut Xoshiro256StarStar) -> (r: Genome) {
        make_genome(self.spec, config.long_dim_threshold, config.large_area_threshold, rng)
    }

    fn eval(&self, genome: &Genome) -> (r: Objective) {
        decode(self.problem, self.spec, genome).eval(self.problem)
    }

    fn crossover(&self, p1: &Genome, p2: &Genome, rng: &mut Xoshiro256StarStar) -> (r: (
        Genome,
        Genome,
    )) {
        let r = ox_crossover(p1, p2, self.spec.piece_types.len(), rng);
        proof {
            let (a, b) = (genome_view(*p1), genome_view(*p2));
            let types = self.spec.piece_types@;
            assert forall|config: GaConfig|
                self.valid(config, a) && self.valid(config, b) implies #[trigger] self.valid(
                config,
                genome_view(r.0),
            ) && self.valid(config, genome_view(r.1)) by {
                let (long, large) = (config.long_dim_threshold, config.large_area_threshold);
                assert forall|c: int| 0 <= c < 3 implies sized(types, #[trigger] a[c]) by {
                    assert(holds_class(*self.spec, long, large, keys(a[c]), c));
                }
                assert forall|c: int| 0 <= c < 3 implies sized(types, #[trigger] b[c]) by {
                    assert(holds_class(*self.spec, long, large, keys(b[c]), c));
                }
                lemma_inherits_size(types, a, b, genome_view(r.0));
                lemma_inherits_size(types, b, a, genome_view(r.1));
                lemma_still_classed(*self.spec, long, large, a, genome_view(r.0));
                lemma_still_classed(*self.spec, long, large, b, genome_view(r.1));
            }
        }
        r
    }

    fn mutate(&self, genome: &mut Genome, config: &GaConfig, rng: &mut Xoshiro256StarStar) {
        let ghost g0 = genome_view(*genome);
        proof {
            let (long, large) = (config.long_dim_threshold, config.large_area_threshold);
            assert forall|c: int| 0 <= c < 3 implies even(#[trigger] g0[c]) && sized(
                self.spec.piece_types@,
                g0[c],
            ) && keys(g0[c]).no_duplicates() by {
                assert(holds_class(*self.spec, long, large, keys(g0[c]), c));
                assert(sized(self.spec.piece_types@, g0[c]));
            }
            law_mutation_keeps_classes(
                self.spec.piece_types@,
                g0,
                g0.len(),
                rates_of(*config),
                *rng,
            );
            lemma_still_classed(
                *self.spec,
                long,
                large,
                g0,
                mutated_classes(g0, g0.len(), rates_of(*config), *rng).0,
            );
        }
        mutate(
            genome,
            config.swap_p,
            config.flip_p,
            config.point_p,
            config.point_delta,
            config.inverse_p,
            rng,
        );
    }

    fn seed_genomes(&self, config: &GaConfig) -> (r: Vec<Genome>) {
        let mut out: Vec<Genome> = Vec::new();
        out.push(
            greedy_genome(self.spec, config.long_dim_threshold, config.large_area_threshold),
        );
        out
    }

    proof fn valid_is_usable(
        &self,
        config: GaConfig,
        a: Seq<Seq<GeneView>>,
        b: Seq<Seq<GeneView>>,
    ) {
        let (long, large) = (config.long_dim_threshold, config.large_area_threshold);
        lemma_classed_genes(*self.spec, long, large, a);
        assert forall|c: int| 0 <= c < a.len() implies same_keys(
            #[trigger] keys(a[c]),
            keys(b[c]),
        ) by {
            let (s, t) = (keys(a[c]), keys(b[c]));
            assert(holds_class(*self.spec, long, large, s, c));
            assert(holds_class(*self.spec, long, large, t, c));
            assert forall|v: usize| s.contains(v) <==> t.contains(v) by {}
            s.unique_seq_to_set();
            t.unique_seq_to_set();
            assert(s.to_set() =~= t.to_set());
        }
    }
}

/// The number of generations is of no account to the decoder, so that from the same state of the
/// generator a run with more of them is never worse.
pub proof fn law_longer_run_is_no_worse(
    decoder: GlasDecoder,
    a: GaConfig,
    b: GaConfig,
    rng: Xoshiro256StarStar,
)
    requires
        b == (GaConfig { iteration_count: b.iteration_count, ..a }),
        a.iteration_count <= b.iteration_count,
    ensures
        !decoder.objective(evolved(decoder, a, rng, a.iteration_count as nat).best).beats(
            decoder.objective(evolved(decoder, b, rng, b.iteration_count as nat).best),
        ),
{
    assert(rates_of(a) == rates_of(b));
    ga::law_longer_run_is_no_worse(decoder, a, b, rng);
}

/// Runs the algorithm on a problem and its flat form.
pub fn run_ga(
    spec: &ProblemSpec,
    problem: &Problem,
    config: &GaConfig,
    rng: &mut Xoshiro256StarStar,
) -> (r: Individual)
    requires
        playable(*spec, *problem),
        config.runnable(),
    ensures
        ({
            let decoder = GlasDecoder { spec, problem };
            let run = evolved(decoder, *config, *old(rng), config.iteration_count as nat);
            &&& genome_view(r.genome) == run.best
            &&& r.objective == decoder.objective(run.best)
            &&& *final(rng) == run.rng
        }),
        classed(
            *spec,
            config.long_dim_threshold,
            config.large_area_threshold,
            genome_view(r.genome),
        ),
{
    let decoder = GlasDecoder { spec, problem };
    ga::run_ga(&decoder, config, rng)
}

/// The results of islands on a problem: seeds and best genomes from the best on.
pub open spec fn island_results(
    spec: ProblemSpec,
    problem: Problem,
    config: GaConfig,
    seeds: Seq<u64>,
    migration_interval: int,
    r: Seq<(u64, Individual)>,
) -> bool {
    let decoder = GlasDecoder { spec: &spec, problem: &problem };
    let c = colony_evolved(
        decoder,
        config,
        seeds,
        migration_interval,
        config.iteration_count as nat,
    );
    &&& r.len() == seeds.len()
    &&& forall|i: int|
        0 <= i < r.len() ==> {
            &&& ((#[trigger] r[i]).0, genome_view(r[i].1.genome)) == colony_results(
                decoder,
                seeds,
                c,
                i,
            )
            &&& r[i].1.objective == decoder.objective(genome_view(r[i].1.genome))
            &&& classed(
                spec,
                config.long_dim_threshold,
                config.large_area_threshold,
                genome_view(r[i].1.genome),
            )
        }
}

/// Runs one island for each seed on a problem, with an exchange every `migration_interval`
/// generations unless that is 0, and returns the best individual of each with its seed, from
/// the best on.
pub fn run_ga_mt(
    spec: &ProblemSpec,
    config: &GaConfig,
    seeds: &Vec<u64>,
    migration_interval: usize,
) -> (r: Vec<(u64, Individual)>)
    requires
        expandable(*spec),
        forall|p: Problem| #[trigger] is_expansion(*spec, p) ==> playable(*spec, p),
        config.runnable(),
    ensures
        exists|p: Problem| #[trigger]
            is_expansion(*spec, p) && island_results(
                *spec,
                p,
                *config,
                seeds@,
                migration_interval as int,
                r@,
            ),
{
    let problem = expand_problem(spec);
    let decoder = GlasDecoder { spec, problem: &problem };
    let r = islands::run_ga_mt(&decoder, config, seeds, migration_interval);
    assert(is_expansion(*spec, problem) && island_results(
        *spec,
        problem,
        *config,
        seeds@,
        migration_interval as int,
        r@,
    ));
    r
}

impl Decodable for Genome {
    open spec fn decodable_for(&self, spec: ProblemSpec) -> bool {
        &&& workable(spec)
        &&& genes_ok(spec.piece_types@, all_genes(genome_view(*self), self@.len()))
        &&& forall|p: Problem| #[trigger]
            is_expansion(spec, p) ==> solid_pieces(p) && all_fit(p) && p.pieces@.len()
                < usize::MAX
    }

    open spec fn decodes_to(&self, spec: ProblemSpec, sol: SolutionSpec) -> bool {
        exists|p: Problem| #[trigger]
            is_expansion(spec, p) && ({
                let genes = all_genes(genome_view(*self), self@.len());
                let d = decoded(p, spec.piece_types@, genes, genes.len());
                shrunk_as(spec, sol, d.pack.placements, d.pack.free)
            })
    }

    fn decode(&self, spec: &ProblemSpec) -> (r: SolutionSpec) {
        decode_spec(spec, self)
    }
}

} // verus!
