//! The copies that a pattern may use, in the order in which they are tried.

use vstd::prelude::*;

use super::oracle::{kinds, PType};
use super::pricing::{copies_ok, same_size, BranchConstraints, Pricer, MU_EPS};
use super::selection::{
    counts, lemma_picked_more, of_type, picked, profit, profits, ranked_by_density, Candidate,
};
use crate::sorting::{in_order, lemma_in_order_all, order_of, precedes, ranked, Order, Ranking};

verus! {

/// Candidates by profit for their area, then by type, then by profit.
pub struct DensityOrder {
    pub cands: Seq<Candidate>,
}

/// `a` has more profit for its area than `b`.
pub open spec fn denser(a: Candidate, b: Candidate) -> bool {
    b.profit * a.area < a.profit * b.area
}

proof fn lemma_denser_trans(a: Candidate, b: Candidate, c: Candidate)
    requires
        a.area > 0,
        b.area > 0,
        c.area > 0,
        !denser(b, a),
        !denser(c, b),
    ensures
        !denser(c, a),
        denser(a, b) || denser(b, c) ==> denser(a, c),
{
    let (pa, pb, pc) = (a.profit as int, b.profit as int, c.profit as int);
    let (xa, xb, xc) = (a.area as int, b.area as int, c.area as int);
    assert(pb * xa <= pa * xb);
    assert(pc * xb <= pb * xc);
    assert(pb * xa * xc <= pa * xb * xc) by (nonlinear_arith)
        requires
            pb * xa <= pa * xb,
            xc > 0,
    ;
    assert(pc * xb * xa <= pb * xc * xa) by (nonlinear_arith)
        requires
            pc * xb <= pb * xc,
            xa > 0,
    ;
    assert(pb * xa * xc == pb * xc * xa) by (nonlinear_arith);
    assert(pc * xb * xa == (pc * xa) * xb) by (nonlinear_arith);
    assert(pa * xb * xc == (pa * xc) * xb) by (nonlinear_arith);
    let (l, r) = (pc * xa, pa * xc);
    assert(l <= r) by (nonlinear_arith)
        requires
            l * xb <= r * xb,
            xb > 0,
    ;
    if denser(a, b) {
        assert(pb * xa * xc < pa * xb * xc) by (nonlinear_arith)
            requires
                pb * xa < pa * xb,
                xc > 0,
        ;
        assert(l < r) by (nonlinear_arith)
            requires
                l * xb < r * xb,
                xb > 0,
        ;
    }
    if denser(b, c) {
        assert(pc * xb * xa < pb * xc * xa) by (nonlinear_arith)
            requires
                pc * xb < pb * xc,
                xa > 0,
        ;
        assert(l < r) by (nonlinear_arith)
            requires
                l * xb < r * xb,
                xb > 0,
        ;
    }
}

impl Order for DensityOrder {
    open spec fn ranks(self, i: int) -> bool {
        0 <= i < self.cands.len() && self.cands[i].area > 0
    }

    open spec fn leq(self, a: int, b: int) -> bool {
        let (x, y) = (self.cands[a], self.cands[b]);
        if denser(x, y) || denser(y, x) {
            denser(x, y)
        } else if x.type_idx != y.type_idx {
            x.type_idx < y.type_idx
        } else {
            x.profit >= y.profit
        }
    }

    proof fn leq_total(self, a: int, b: int) {
    }

    proof fn leq_trans(self, a: int, b: int, c: int) {
        let (x, y, z) = (self.cands[a], self.cands[b], self.cands[c]);
        lemma_denser_trans(x, y, z);
        if !denser(x, y) && !denser(y, z) {
            lemma_denser_trans(z, y, x);
        }
    }
}

struct DensityRanking<'a> {
    cands: &'a Vec<Candidate>,
}

impl<'a> Ranking for DensityRanking<'a> {
    type Of = DensityOrder;

    closed spec fn order(&self) -> DensityOrder {
        DensityOrder { cands: self.cands@ }
    }

    fn at_most(&self, a: usize, b: usize) -> (r: bool) {
        let x = self.cands[a];
        let y = self.cands[b];
        assert(y.profit * x.area <= 0xffff_ffff_ffff_ffff * 0xffff_ffff_ffff_ffff)
            by (nonlinear_arith)
            requires
                0 <= y.profit <= 0xffff_ffff_ffff_ffff,
                0 <= x.area <= 0xffff_ffff_ffff_ffff,
        ;
        assert(x.profit * y.area <= 0xffff_ffff_ffff_ffff * 0xffff_ffff_ffff_ffff)
            by (nonlinear_arith)
            requires
                0 <= x.profit <= 0xffff_ffff_ffff_ffff,
                0 <= y.area <= 0xffff_ffff_ffff_ffff,
        ;
        let l: u128 = y.profit as u128 * x.area as u128;
        let r: u128 = x.profit as u128 * y.area as u128;
        if l != r {
            l < r
        } else if x.type_idx != y.type_idx {
            x.type_idx < y.type_idx
        } else {
            x.profit >= y.profit
        }
    }
}

/// Candidates by profit, the largest first.
pub struct ProfitOrder {
    pub cands: Seq<Candidate>,
}

impl Order for ProfitOrder {
    open spec fn ranks(self, i: int) -> bool {
        0 <= i < self.cands.len()
    }

    open spec fn leq(self, a: int, b: int) -> bool {
        self.cands[a].profit >= self.cands[b].profit
    }

    proof fn leq_total(self, a: int, b: int) {
    }

    proof fn leq_trans(self, a: int, b: int, c: int) {
    }
}

struct ProfitRanking<'a> {
    cands: &'a Vec<Candidate>,
}

impl<'a> Ranking for ProfitRanking<'a> {
    type Of = ProfitOrder;

    closed spec fn order(&self) -> ProfitOrder {
        ProfitOrder { cands: self.cands@ }
    }

    fn at_most(&self, a: usize, b: usize) -> (r: bool) {
        self.cands[a].profit >= self.cands[b].profit
    }
}

/// A list of different positions.
pub open spec fn positions(order: Seq<usize>, m: nat) -> bool {
    &&& order.no_duplicates()
    &&& forall|i: int| 0 <= i < order.len() ==> (#[trigger] order[i]) < m
}

proof fn lemma_positions<R: Order>(rank: R, m: nat, order: Seq<usize>)
    requires
        in_order(rank, m, order),
    ensures
        positions(order, m),
{
    assert forall|i: int, j: int| 0 <= i < order.len() && 0 <= j < order.len() && i != j implies order[i]
        != order[j] by {
        if i < j {
            assert(precedes(rank, order[i] as int, order[j] as int));
        } else {
            assert(precedes(rank, order[j] as int, order[i] as int));
        }
    }
}

/// The positions of candidates by profit, the largest first.
pub(crate) fn profit_order(cands: &Vec<Candidate>) -> (r: Vec<usize>)
    ensures
        positions(r@, cands@.len()),
        r@ == order_of(ProfitOrder { cands: cands@ }, cands@.len()),
{
    let ranking = ProfitRanking { cands };
    let r = ranked(&ranking, cands.len());
    proof {
        lemma_positions(ranking.order(), cands@.len(), r@);
    }
    r
}

/// A candidate stands for a copy in a type.
pub open spec fn is_candidate(ptypes: Seq<PType>, mu: Seq<u64>, c: Candidate) -> bool {
    &&& c.type_idx < ptypes.len()
    &&& ptypes[c.type_idx as int].copies@.contains(c.flat_idx)
    &&& c.profit == mu[c.flat_idx as int]
    &&& c.area == ptypes[c.type_idx as int].width * ptypes[c.type_idx as int].height
    &&& c.area > 0
}

/// The candidates of a problem: each copy that is worth including once, sorted by density.
pub open spec fn candidates_of(ptypes: Seq<PType>, mu: Seq<u64>, cands: Seq<Candidate>) -> bool {
    &&& ranked_by_density(cands, kinds(ptypes))
    &&& forall|p: int| 0 <= p < cands.len() ==> is_candidate(ptypes, mu, #[trigger] cands[p])
    &&& forall|p: int, q: int|
        0 <= p < q < cands.len() ==> (#[trigger] cands[p]).flat_idx != (
        #[trigger] cands[q]).flat_idx
    &&& forall|t: int, k: int|
        0 <= t < ptypes.len() && 0 <= k < ptypes[t].copies@.len()
            && mu[#[trigger] ptypes[t].copies@[k] as int] > MU_EPS ==> has_flat(
            cands,
            ptypes[t].copies@[k],
        )
}

/// The candidates are worth including, or of types that have to go together with others; all
/// copies of such types are candidates.
pub open spec fn candidates_under(
    ptypes: Seq<PType>,
    constraints: BranchConstraints,
    cands: Seq<Candidate>,
) -> bool {
    &&& forall|p: int|
        0 <= p < cands.len() ==> (#[trigger] cands[p]).profit > MU_EPS || constraints.ties(
            cands[p].type_idx as int,
        )
    &&& forall|t: int, k: int|
        0 <= t < ptypes.len() && 0 <= k < ptypes[t].copies@.len() && constraints.ties(t)
            ==> has_flat(cands, #[trigger] ptypes[t].copies@[k])
}

/// Some candidate stands for the piece.
pub open spec fn has_flat(cands: Seq<Candidate>, flat: usize) -> bool {
    exists|p: int| 0 <= p < cands.len() && (#[trigger] cands[p]).flat_idx == flat
}

/// The candidates among the first `k` copies of type `t`.
pub open spec fn raw_of_type(
    ptypes: Seq<PType>,
    mu: Seq<u64>,
    constraints: BranchConstraints,
    t: int,
    k: nat,
) -> Seq<Candidate>
    decreases k,
{
    if k == 0 {
        Seq::empty()
    } else {
        let before = raw_of_type(ptypes, mu, constraints, t, (k - 1) as nat);
        let flat = ptypes[t].copies@[k - 1];
        if mu[flat as int] > MU_EPS || constraints.ties(t) {
            before.push(
                Candidate {
                    type_idx: t as usize,
                    flat_idx: flat,
                    profit: mu[flat as int],
                    area: (ptypes[t].width * ptypes[t].height) as u64,
                },
            )
        } else {
            before
        }
    }
}

/// The candidates of the first `n` types, by type.
pub open spec fn raw_list(
    ptypes: Seq<PType>,
    mu: Seq<u64>,
    constraints: BranchConstraints,
    n: nat,
) -> Seq<Candidate>
    decreases n,
{
    if n == 0 {
        Seq::empty()
    } else {
        raw_list(ptypes, mu, constraints, (n - 1) as nat) + raw_of_type(
            ptypes,
            mu,
            constraints,
            n - 1,
            ptypes[n - 1].copies@.len(),
        )
    }
}

/// The candidates in the order in which they are tried: by density, then by type, then by
/// profit.
pub open spec fn ranked_candidates(
    ptypes: Seq<PType>,
    mu: Seq<u64>,
    constraints: BranchConstraints,
) -> Seq<Candidate> {
    let raw = raw_list(ptypes, mu, constraints, ptypes.len());
    let order = order_of(DensityOrder { cands: raw }, raw.len());
    Seq::new(order.len(), |i: int| raw[order[i] as int])
}

/// No piece is a copy of two types.
pub proof fn lemma_one_type(pr: Pricer, t: int, u: int, flat: usize)
    requires
        pr.wf(),
        0 <= t < pr.ptypes@.len(),
        0 <= u < pr.ptypes@.len(),
        pr.ptypes@[t].copies@.contains(flat),
        pr.ptypes@[u].copies@.contains(flat),
    ensures
        t == u,
        flat < pr.pieces@.len(),
        same_size(pr.pieces@[flat as int], pr.ptypes@[t]),
{
    let n = pr.pieces@.len();
    let (a, b) = (pr.ptypes@[t], pr.ptypes@[u]);
    assert(copies_ok(pr.pieces@, a, n));
    assert(copies_ok(pr.pieces@, b, n));
    let i = choose|i: int| 0 <= i < a.copies@.len() && a.copies@[i] == flat;
    let j = choose|j: int| 0 <= j < b.copies@.len() && b.copies@[j] == flat;
    assert(same_size(pr.pieces@[a.copies@[i] as int], a));
    assert(same_size(pr.pieces@[b.copies@[j] as int], b));
    if t < u {
        assert(a.copies@[0] < b.copies@[0]);
    } else if u < t {
        assert(b.copies@[0] < a.copies@[0]);
    }
}

/// A type of solid pieces has an area that a machine integer holds.
proof fn lemma_type_area(pr: Pricer, t: int)
    requires
        pr.wf(),
        0 <= t < pr.ptypes@.len(),
    ensures
        0 < pr.ptypes@[t].width * pr.ptypes@[t].height <= u64::MAX,
{
    let p = pr.ptypes@[t];
    assert(copies_ok(pr.pieces@, p, pr.pieces@.len()));
    let q = pr.pieces@[p.copies@[0] as int];
    assert(same_size(q, p));
    assert(q.solid());
    assert(0 < p.width * p.height <= 0xffff_ffff * 0xffff_ffff) by (nonlinear_arith)
        requires
            0 < p.width <= 0xffff_ffff,
            0 < p.height <= 0xffff_ffff,
    ;
}

impl Pricer {
    /// The copies that are worth including or have to go together with others, by type.
    #[verifier::rlimit(40)]
    fn raw_candidates(&self, mu: &Vec<u64>, constraints: &BranchConstraints) -> (r: Vec<Candidate>)
        requires
            self.wf(),
            mu@.len() == self.pieces@.len(),
        ensures
            candidates_under(self.ptypes@, *constraints, r@),
            r@ == raw_list(self.ptypes@, mu@, *constraints, self.ptypes@.len()),
            forall|p: int|
                0 <= p < r@.len() ==> is_candidate(self.ptypes@, mu@, #[trigger] r@[p]),
            forall|p: int, q: int|
                0 <= p < q < r@.len() ==> (#[trigger] r@[p]).flat_idx != (
                #[trigger] r@[q]).flat_idx,
            forall|t: int, k: int|
                0 <= t < self.ptypes@.len() && 0 <= k < self.ptypes@[t].copies@.len()
                    && mu@[#[trigger] self.ptypes@[t].copies@[k] as int] > MU_EPS ==> has_flat(
                    r@,
                    self.ptypes@[t].copies@[k],
                ),
    {
        let mut out: Vec<Candidate> = Vec::new();
        let mut ti: usize = 0;
        while ti < self.ptypes.len()
            invariant
                ti <= self.ptypes@.len(),
                self.wf(),
                mu@.len() == self.pieces@.len(),
                forall|p: int|
                    0 <= p < out@.len() ==> is_candidate(self.ptypes@, mu@, #[trigger] out@[p])
                        && out@[p].type_idx < ti,
                forall|p: int, q: int|
                    0 <= p < q < out@.len() ==> (#[trigger] out@[p]).flat_idx != (
                    #[trigger] out@[q]).flat_idx,
                forall|t: int, k: int|
                    0 <= t < ti && 0 <= k < self.ptypes@[t].copies@.len()
                        && (mu@[#[trigger] self.ptypes@[t].copies@[k] as int] > MU_EPS
                        || constraints.ties(t)) ==> has_flat(out@, self.ptypes@[t].copies@[k]),
                forall|p: int|
                    0 <= p < out@.len() ==> (#[trigger] out@[p]).profit > MU_EPS
                        || constraints.ties(out@[p].type_idx as int),
                out@ == raw_list(self.ptypes@, mu@, *constraints, ti as nat),
            decreases self.ptypes@.len() - ti,
        {
            let t = &self.ptypes[ti];
            let ghost front = out@;
            let tied = constraints.has_tie(ti);
            proof {
                lemma_type_area(*self, ti as int);
            }
            let area: u64 = t.width as u64 * t.height as u64;
            let mut k: usize = 0;
            assert(out@ =~= front + raw_of_type(self.ptypes@, mu@, *constraints, ti as int, 0));
            while k < t.copies.len()
                invariant
                    k <= t.copies@.len(),
                    ti < self.ptypes@.len(),
                    *t == self.ptypes@[ti as int],
                    self.wf(),
                    mu@.len() == self.pieces@.len(),
                    area == t.width * t.height,
                    area > 0,
                    out@ == front + raw_of_type(
                        self.ptypes@,
                        mu@,
                        *constraints,
                        ti as int,
                        k as nat,
                    ),
                    tied == constraints.ties(ti as int),
                    forall|p: int|
                        0 <= p < out@.len() ==> (#[trigger] out@[p]).profit > MU_EPS
                            || constraints.ties(out@[p].type_idx as int),
                    forall|p: int|
                        0 <= p < out@.len() ==> is_candidate(self.ptypes@, mu@, #[trigger] out@[p])
                            && out@[p].type_idx <= ti,
                    forall|p: int|
                        0 <= p < out@.len() && (#[trigger] out@[p]).type_idx == ti ==> exists|i: int|
                            0 <= i < k && #[trigger] t.copies@[i] == out@[p].flat_idx,
                    forall|p: int, q: int|
                        0 <= p < q < out@.len() ==> (#[trigger] out@[p]).flat_idx != (
                        #[trigger] out@[q]).flat_idx,
                    forall|u: int, i: int|
                        0 <= u < ti && 0 <= i < self.ptypes@[u].copies@.len()
                            && (mu@[#[trigger] self.ptypes@[u].copies@[i] as int] > MU_EPS
                            || constraints.ties(u)) ==> has_flat(
                            out@,
                            self.ptypes@[u].copies@[i],
                        ),
                    forall|i: int|
                        0 <= i < k && (mu@[#[trigger] t.copies@[i] as int] > MU_EPS || tied)
                            ==> has_flat(out@, t.copies@[i]),
                decreases t.copies@.len() - k,
            {
                let flat: usize = t.copies[k];
                proof {
                    assert(copies_ok(self.pieces@, *t, self.pieces@.len()));
                    assert(t.copies@[k as int] < self.pieces@.len());
                }
                let ghost before = out@;
                if mu[flat] > MU_EPS || tied {
                    let c = Candidate { type_idx: ti, flat_idx: flat, profit: mu[flat], area };
                    out.push(c);
                    proof {
                        assert(out@ =~= front + raw_of_type(
                            self.ptypes@,
                            mu@,
                            *constraints,
                            ti as int,
                            (k + 1) as nat,
                        ));
                        assert(t.copies@.contains(flat));
                        assert(is_candidate(self.ptypes@, mu@, c));
                        assert forall|p: int| 0 <= p < before.len() implies (
                        #[trigger] before[p]).flat_idx != flat by {
                            assert(is_candidate(self.ptypes@, mu@, before[p]));
                            if before[p].flat_idx == flat {
                                lemma_one_type(
                                    *self,
                                    before[p].type_idx as int,
                                    ti as int,
                                    flat,
                                );
                                let i = choose|i: int|
                                    0 <= i < k && #[trigger] t.copies@[i] == before[p].flat_idx;
                                assert(t.copies@[i] < t.copies@[k as int]);
                            }
                        }
                        assert(out@[before.len() as int].flat_idx == flat);
                        assert forall|f: usize| has_flat(before, f) implies #[trigger] has_flat(
                            out@,
                            f,
                        ) by {
                            let p = choose|p: int|
                                0 <= p < before.len() && (#[trigger] before[p]).flat_idx == f;
                            assert(out@[p].flat_idx == f);
                        }
                        assert forall|p: int|
                            0 <= p < out@.len() && (#[trigger] out@[p]).type_idx
                                == ti implies exists|i: int|
                            0 <= i < k + 1 && #[trigger] t.copies@[i] == out@[p].flat_idx by {
                            if p < before.len() {
                                let i = choose|i: int|
                                    0 <= i < k && #[trigger] t.copies@[i] == before[p].flat_idx;
                                assert(t.copies@[i] == out@[p].flat_idx);
                            } else {
                                assert(t.copies@[k as int] == out@[p].flat_idx);
                            }
                        }
                    }
                }
                k += 1;
            }
            ti += 1;
        }
        out
    }

    /// The copies that are worth including and those that have to go together with others,
    /// those with most profit for their area first, equal ones by type, the more profitable
    /// first.
    pub(crate) fn build_candidates(
        &self,
        mu: &Vec<u64>,
        constraints: &BranchConstraints,
    ) -> (r: Vec<Candidate>)
        requires
            self.wf(),
            mu@.len() == self.pieces@.len(),
        ensures
            candidates_of(self.ptypes@, mu@, r@),
            candidates_under(self.ptypes@, *constraints, r@),
            r@ == ranked_candidates(self.ptypes@, mu@, *constraints),
    {
        let raw = self.raw_candidates(mu, constraints);
        let ranking = DensityRanking { cands: &raw };
        let ghost rank = DensityOrder { cands: raw@ };
        assert(ranking.order() == rank);
        assert forall|i: int| 0 <= i < raw@.len() implies #[trigger] rank.ranks(i) by {
            assert(is_candidate(self.ptypes@, mu@, raw@[i]));
        }
        let order = ranked(&ranking, raw.len());
        let mut out: Vec<Candidate> = Vec::new();
        while out.len() < order.len()
            invariant
                out@.len() <= order@.len(),
                order@.len() == raw@.len(),
                forall|i: int| 0 <= i < order@.len() ==> (#[trigger] order@[i]) < raw@.len(),
                forall|i: int| 0 <= i < out@.len() ==> #[trigger] out@[i] == raw@[order@[i] as int],
            decreases order@.len() - out@.len(),
        {
            out.push(raw[order[out.len()]]);
        }
        proof {
            lemma_positions(rank, raw@.len(), order@);
            assert(out@ =~= ranked_candidates(self.ptypes@, mu@, *constraints));
            assert forall|p: int| 0 <= p < out@.len() implies is_candidate(
                self.ptypes@,
                mu@,
                #[trigger] out@[p],
            ) by {
                assert(is_candidate(self.ptypes@, mu@, raw@[order@[p] as int]));
            }
            assert forall|p: int| 0 <= p < out@.len() implies (#[trigger] out@[p]).profit > MU_EPS
                || constraints.ties(out@[p].type_idx as int) by {
                assert(raw@[order@[p] as int].profit > MU_EPS || constraints.ties(
                    raw@[order@[p] as int].type_idx as int,
                ));
            }
            assert forall|p: int, q: int| 0 <= p < q < out@.len() implies (
            #[trigger] out@[p]).flat_idx != (#[trigger] out@[q]).flat_idx by {
                let (i, j) = (order@[p] as int, order@[q] as int);
                assert(order@[p] != order@[q]);
                if i < j {
                    assert(raw@[i].flat_idx != raw@[j].flat_idx);
                } else {
                    assert(raw@[j].flat_idx != raw@[i].flat_idx);
                }
            }
            assert forall|t: int, k: int|
                0 <= t < self.ptypes@.len() && 0 <= k < self.ptypes@[t].copies@.len() && (
                mu@[#[trigger] self.ptypes@[t].copies@[k] as int] > MU_EPS || constraints.ties(
                    t,
                )) implies has_flat(out@, self.ptypes@[t].copies@[k]) by {
                let flat = self.ptypes@[t].copies@[k];
                assert(has_flat(raw@, flat));
                let p = choose|p: int|
                    0 <= p < raw@.len() && (#[trigger] raw@[p]).flat_idx == flat;
                lemma_in_order_all(rank, raw@.len(), order@, p as usize);
                let q = choose|q: int| 0 <= q < order@.len() && order@[q] == p;
                assert(out@[q].flat_idx == flat);
            }
            let ts = kinds(self.ptypes@);
            assert forall|i: int| 0 <= i < out@.len() implies {
                &&& (#[trigger] out@[i]).type_idx < ts.len()
                &&& out@[i].area == ts[out@[i].type_idx as int].width
                    * ts[out@[i].type_idx as int].height
                &&& out@[i].area > 0
            } by {
                assert(is_candidate(self.ptypes@, mu@, out@[i]));
            }
            assert forall|i: int, j: int| 0 <= i < j < out@.len() implies (
            #[trigger] out@[j]).profit * (#[trigger] out@[i]).area <= out@[i].profit
                * out@[j].area by {
                assert(precedes(rank, order@[i] as int, order@[j] as int));
                assert(!denser(out@[j], out@[i]));
            }
        }
        out
    }
}

/// 1 for the pieces in a list of copies, 0 for others.
pub open spec fn members(copies: Seq<usize>, n: nat) -> Seq<int> {
    Seq::new(
        n,
        |i: int|
            if copies.contains(i as usize) {
                1int
            } else {
                0int
            },
    )
}

/// How many of the chosen pieces are of each type.
pub open spec fn chosen_counts(ptypes: Seq<PType>, n: nat, chosen: Seq<bool>) -> Seq<nat> {
    Seq::new(
        ptypes.len(),
        |t: int| picked(members(ptypes[t].copies@, n), chosen, n) as nat,
    )
}

/// What the chosen pieces are worth.
pub open spec fn chosen_profit(mu: Seq<u64>, chosen: Seq<bool>) -> int {
    picked(Seq::new(mu.len(), |i: int| mu[i] as int), chosen, mu.len())
}

/// Only copies are chosen that are worth including or have to go together with others.
pub open spec fn eligible(
    ptypes: Seq<PType>,
    mu: Seq<u64>,
    constraints: BranchConstraints,
    chosen: Seq<bool>,
) -> bool {
    forall|i: int|
        0 <= i < chosen.len() && #[trigger] chosen[i] ==> exists|t: int|
            0 <= t < ptypes.len() && (#[trigger] ptypes[t]).copies@.contains(i as usize) && (mu[i]
                > MU_EPS || constraints.ties(t))
}

/// The pieces that the first `k` candidates of a selection stand for.
spec fn stand_for(cands: Seq<Candidate>, chosen: Seq<bool>, k: nat) -> Seq<bool> {
    Seq::new(
        chosen.len(),
        |i: int|
            chosen[i] && exists|p: int| 0 <= p < k && (#[trigger] cands[p]).flat_idx == i,
    )
}

/// A sum over candidates is the sum over the pieces that they stand for.
proof fn lemma_reindex(
    cands: Seq<Candidate>,
    g: Seq<int>,
    gp: Seq<int>,
    sel: Seq<bool>,
    chosen: Seq<bool>,
    k: nat,
)
    requires
        k <= cands.len(),
        sel.len() == cands.len(),
        gp.len() == cands.len(),
        g.len() == chosen.len(),
        forall|p: int|
            0 <= p < cands.len() ==> (#[trigger] cands[p]).flat_idx < chosen.len() && sel[p]
                == chosen[cands[p].flat_idx as int] && gp[p] == g[cands[p].flat_idx as int],
        forall|p: int, q: int|
            0 <= p < q < cands.len() ==> (#[trigger] cands[p]).flat_idx != (
            #[trigger] cands[q]).flat_idx,
    ensures
        picked(gp, sel, k) == picked(g, stand_for(cands, chosen, k), chosen.len()),
    decreases k,
{
    let n = chosen.len();
    let b = stand_for(cands, chosen, k);
    if k == 0 {
        assert forall|i: int| 0 <= i < n implies !#[trigger] b[i] by {}
        lemma_none_picked(g, b, n);
    } else {
        let m = (k - 1) as nat;
        lemma_reindex(cands, g, gp, sel, chosen, m);
        let a = stand_for(cands, chosen, m);
        let f = cands[m as int].flat_idx as int;
        assert(!a[f]) by {
            if a[f] {
                let p = choose|p: int| 0 <= p < m && (#[trigger] cands[p]).flat_idx == f;
                assert(cands[p].flat_idx != cands[m as int].flat_idx);
            }
        }
        if sel[m as int] {
            assert(b =~= a.update(f, true)) by {
                assert forall|i: int| 0 <= i < n implies b[i] == a.update(f, true)[i] by {
                    if i == f {
                        assert(cands[m as int].flat_idx == i);
                    } else if b[i] {
                        let p = choose|p: int| 0 <= p < k && (#[trigger] cands[p]).flat_idx == i;
                        assert(p < m);
                    }
                }
            }
            lemma_picked_more(g, a, f, n);
        } else {
            assert(b =~= a) by {
                assert forall|i: int| 0 <= i < n implies b[i] == a[i] by {
                    if b[i] {
                        let p = choose|p: int| 0 <= p < k && (#[trigger] cands[p]).flat_idx == i;
                        assert(p < m);
                    }
                }
            }
        }
    }
}

pub proof fn lemma_none_picked(g: Seq<int>, sel: Seq<bool>, k: nat)
    requires
        k <= sel.len(),
        forall|i: int| 0 <= i < sel.len() ==> !#[trigger] sel[i],
    ensures
        picked(g, sel, k) == 0,
    decreases k,
{
    if k > 0 {
        lemma_none_picked(g, sel, (k - 1) as nat);
    }
}

/// Candidates are selected exactly as the pieces that they stand for are chosen.
pub open spec fn selects(cands: Seq<Candidate>, sel: Seq<bool>, chosen: Seq<bool>) -> bool {
    &&& sel.len() == cands.len()
    &&& forall|p: int|
        0 <= p < cands.len() ==> sel[p] == chosen[(#[trigger] cands[p]).flat_idx as int]
    &&& forall|i: int|
        0 <= i < chosen.len() && #[trigger] chosen[i] ==> has_flat(cands, i as usize)
}

/// A selection of candidates has the counts and the profit of the pieces chosen.
pub proof fn lemma_selects(
    pr: Pricer,
    mu: Seq<u64>,
    cands: Seq<Candidate>,
    sel: Seq<bool>,
    chosen: Seq<bool>,
)
    requires
        pr.wf(),
        mu.len() == pr.pieces@.len(),
        chosen.len() == pr.pieces@.len(),
        pr.pieces@.len() <= usize::MAX,
        candidates_of(pr.ptypes@, mu, cands),
        selects(cands, sel, chosen),
    ensures
        counts(cands, pr.ptypes@.len(), sel) == chosen_counts(
            pr.ptypes@,
            pr.pieces@.len(),
            chosen,
        ),
        profit(cands, sel) == chosen_profit(mu, chosen),
{
    let n = chosen.len();
    let m = cands.len();
    let types = pr.ptypes@;
    assert forall|p: int| 0 <= p < m implies (#[trigger] cands[p]).flat_idx < n by {
        assert(is_candidate(types, mu, cands[p]));
        let t = cands[p].type_idx as int;
        lemma_one_type(pr, t, t, cands[p].flat_idx);
    }
    let b = stand_for(cands, chosen, m);
    assert(b =~= chosen) by {
        assert forall|i: int| 0 <= i < n implies b[i] == chosen[i] by {
            if chosen[i] {
                assert(has_flat(cands, i as usize));
                let p = choose|p: int|
                    0 <= p < cands.len() && (#[trigger] cands[p]).flat_idx == i as usize;
                assert(cands[p].flat_idx == i);
            }
        }
    }
    let ms = Seq::new(mu.len(), |i: int| mu[i] as int);
    assert forall|p: int| 0 <= p < m implies profits(cands)[p] == ms[(
    #[trigger] cands[p]).flat_idx as int] by {
        assert(is_candidate(types, mu, cands[p]));
    }
    lemma_reindex(cands, ms, profits(cands), sel, chosen, m);
    assert forall|t: int| 0 <= t < types.len() implies counts(cands, types.len(), sel)[t]
        == chosen_counts(types, n, chosen)[t] by {
        let g = members(types[t].copies@, n);
        assert forall|p: int| 0 <= p < m implies of_type(cands, t)[p] == g[(
        #[trigger] cands[p]).flat_idx as int] by {
            assert(is_candidate(types, mu, cands[p]));
            let u = cands[p].type_idx as int;
            if types[t].copies@.contains(cands[p].flat_idx) {
                lemma_one_type(pr, t, u, cands[p].flat_idx);
            }
        }
        lemma_reindex(cands, g, of_type(cands, t), sel, chosen, m);
    }
    assert(counts(cands, types.len(), sel) =~= chosen_counts(types, n, chosen));
}

} // verus!
