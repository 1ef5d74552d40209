//! Pricing: patterns of one sheet that are worth more than a sheet.
//!
//! Dual values are counted in parts of `UNIT`. Given one for each piece, a pattern is sought whose
//! pieces are worth more than `THRESHOLD` together, or it is proved that there is none. Pieces
//! and sheet have the width of the saw cut included.
//!
//! There are two stages. The first grows a layout piece by piece, in two orders: what it finds
//! can be cut, but it does not find all. The second is a branch and bound over the number of
//! copies of each type, with the fractional knapsack as bound and the layout functions of
//! multisets as the test of feasibility.

use vstd::prelude::*;

use super::assembly::{
    as_problem, assembled, chosen_of, lemma_selected_counts, places, selected, types_at,
    valid_pattern,
};
use super::bpc::Pattern;
use super::budget::{lemma_missing, lemma_starved_before, missing, starved, Work};
use super::candidates::{
    candidates_of, candidates_under, chosen_counts, chosen_profit, eligible, has_flat, is_candidate,
    lemma_none_picked, lemma_one_type, lemma_selects, positions, profit_order, ranked_candidates,
    selects, ProfitOrder,
};
use super::chain::{
    chain_fits, chain_reconstruct, chained, composed, laid_in_turn, least_height,
    lemma_chain_achieves, lemma_chain_prefix, lemma_chain_push, lemma_chain_reach,
    lemma_in_turn_fits, lemma_tally_total, on_sheet, tally,
};
use super::fitting::{
    clip_to_sheet, compose, inside, law_fits_by_area, lemma_reaches, lesser, reaches,
};
use super::oracle::{
    found_spots, kinds, rebuilt_on_sheet, types_ok, GlfOracle, PType, Rebuilt, Terms,
};
use super::search::{
    dfs, forbidden_with_included, holds, includes_of, lemma_profit_bound, lemma_reaches_sheet,
    lemma_room_for_one, lemma_tree_size, satisfies_forced, trail_of, tree_size, walked, Quest,
    Search, Trail, Walk, WalkEnd,
};
use super::selection::{
    area, areas, closed, counts, lemma_area_counts, lemma_counts_more, lemma_counts_part,
    lemma_firsts, of_type, one_more, picked, profit, profits, ranked_by_density, Candidate,
};
use crate::gpf::recon::TypeSpot;
use crate::gpf::table::{
    capacity, fits, lemma_capacity_part, lemma_total_part, nats, part_of, single_fits,
    single_layout, total, GpfType,
};
use crate::gpf::{stepped, StepFn};
use crate::model::Piece;
use crate::sorting::order_of;

verus! {

/// What a sheet is worth.
pub const UNIT: u64 = 1_000_000_000_000;

/// A pattern improves if its pieces are worth more than this.
pub const THRESHOLD: u64 = 1_000_001_000_000;

/// Copies that are worth this or less are left out, unless they have to go with others.
pub const MU_EPS: u64 = 1;

/// Work budgets. Nodes and splits are counted for one pricing, cells over all pricings with an
/// oracle.
#[derive(Debug, Clone, Copy, PartialEq, Eq, Structural)]
pub struct PricingLimits {
    pub max_nodes: usize,
    pub max_cells: usize,
    pub max_splits: usize,
}

impl Default for PricingLimits {
    fn default() -> (r: Self)
        ensures
            r == (PricingLimits {
                max_nodes: 2_000_000,
                max_cells: 1_000_000,
                max_splits: 20_000_000,
            }),
    {
        PricingLimits { max_nodes: 2_000_000, max_cells: 1_000_000, max_splits: 20_000_000 }
    }
}

/// Restrictions on patterns by pairs of types, the smaller index first.
#[derive(Debug)]
pub struct BranchConstraints {
    /// A pattern does not have copies of both types.
    pub forbidden: Vec<(usize, usize)>,
    /// A pattern has copies of both types or of neither.
    pub forced_together: Vec<(usize, usize)>,
}

impl Default for BranchConstraints {
    fn default() -> (r: Self)
        ensures
            r.forbidden@.len() == 0,
            r.forced_together@.len() == 0,
    {
        BranchConstraints { forbidden: Vec::new(), forced_together: Vec::new() }
    }
}

fn copy_pairs(list: &Vec<(usize, usize)>) -> (r: Vec<(usize, usize)>)
    ensures
        r@ == list@,
{
    let mut out: Vec<(usize, usize)> = Vec::new();
    while out.len() < list.len()
        invariant
            out@.len() <= list@.len(),
            out@ =~= list@.take(out@.len() as int),
        decreases list@.len() - out@.len(),
    {
        out.push(list[out.len()]);
    }
    assert(out@ =~= list@);
    out
}

impl Clone for BranchConstraints {
    fn clone(&self) -> (r: Self)
        ensures
            r.forbidden@ == self.forbidden@,
            r.forced_together@ == self.forced_together@,
    {
        BranchConstraints {
            forbidden: copy_pairs(&self.forbidden),
            forced_together: copy_pairs(&self.forced_together),
        }
    }
}

/// Two indices, the smaller first.
pub open spec fn ordered_pair(a: usize, b: usize) -> (usize, usize) {
    if a <= b {
        (a, b)
    } else {
        (b, a)
    }
}

impl BranchConstraints {
    /// A copy with one more pair of types that do not go together.
    pub fn with_forbidden(&self, a: usize, b: usize) -> (r: Self)
        ensures
            r.forbidden@ == self.forbidden@.push(ordered_pair(a, b)),
            r.forced_together@ == self.forced_together@,
    {
        let mut c = self.clone();
        if a <= b {
            c.forbidden.push((a, b));
        } else {
            c.forbidden.push((b, a));
        }
        c
    }

    /// A copy with one more pair of types that go together.
    pub fn with_forced_together(&self, a: usize, b: usize) -> (r: Self)
        ensures
            r.forbidden@ == self.forbidden@,
            r.forced_together@ == self.forced_together@.push(ordered_pair(a, b)),
    {
        let mut c = self.clone();
        if a <= b {
            c.forced_together.push((a, b));
        } else {
            c.forced_together.push((b, a));
        }
        c
    }

    /// The pairs are of different types among the first `n`.
    pub open spec fn about(self, n: nat) -> bool {
        &&& forall|k: int|
            0 <= k < self.forbidden@.len() ==> (#[trigger] self.forbidden@[k]).0
                < self.forbidden@[k].1 < n
        &&& forall|k: int|
            0 <= k < self.forced_together@.len() ==> (#[trigger] self.forced_together@[k]).0
                < self.forced_together@[k].1 < n
    }

    /// No two types that do not go together.
    pub open spec fn compatible(self, c: Seq<nat>) -> bool {
        forall|k: int|
            0 <= k < self.forbidden@.len() ==> !(c[(#[trigger] self.forbidden@[k]).0 as int] > 0
                && c[self.forbidden@[k].1 as int] > 0)
    }

    /// The type has to go together with another.
    pub open spec fn ties(self, t: int) -> bool {
        exists|k: int|
            0 <= k < self.forced_together@.len() && ((#[trigger] self.forced_together@[k]).0 == t
                || self.forced_together@[k].1 == t)
    }

    /// Whether the type has to go together with another.
    pub(crate) fn has_tie(&self, t: usize) -> (r: bool)
        ensures
            r == self.ties(t as int),
    {
        let mut k: usize = 0;
        while k < self.forced_together.len()
            invariant
                k <= self.forced_together@.len(),
                forall|i: int|
                    0 <= i < k ==> (#[trigger] self.forced_together@[i]).0 != t
                        && self.forced_together@[i].1 != t,
            decreases self.forced_together@.len() - k,
        {
            let (a, b) = self.forced_together[k];
            if a == t || b == t {
                assert(self.forced_together@[k as int].0 == t || self.forced_together@[k as int].1
                    == t);
                return true;
            }
            k += 1;
        }
        false
    }

    /// Types that go together are both there or both not.
    pub open spec fn paired(self, c: Seq<nat>) -> bool {
        forall|k: int|
            0 <= k < self.forced_together@.len() ==> (c[(
            #[trigger] self.forced_together@[k]).0 as int] > 0) == (c[
            self.forced_together@[k].1 as int] > 0)
    }
}

/// Outcome of one pricing.
pub enum PriceOutcome {
    /// A pattern that improves.
    Column(Pattern),
    /// There is none.
    NoneExists,
    /// A budget ran out.
    Aborted,
}

/// A piece as a type of its own.
pub open spec fn piece_kind(p: Piece) -> GpfType {
    GpfType { width: p.width, height: p.height, count: 1, can_rotate: p.can_rotate }
}

/// The pricing of one problem.
pub struct Pricer {
    pub pieces: Vec<Piece>,
    pub ptypes: Vec<PType>,
    pub sheet_w: u32,
    pub sheet_h: u32,
    pub limits: PricingLimits,
    /// Nodes of the last search.
    pub nodes: usize,
}

/// The copies of a type are pieces of its size, in order.
pub open spec fn copies_ok(pieces: Seq<Piece>, t: PType, k: nat) -> bool {
    &&& t.copies@.len() > 0
    &&& forall|i: int, j: int|
        0 <= i < j < t.copies@.len() ==> #[trigger] t.copies@[i] < #[trigger] t.copies@[j]
    &&& forall|i: int|
        0 <= i < t.copies@.len() ==> {
            &&& (#[trigger] t.copies@[i]) < k
            &&& same_size(pieces[t.copies@[i] as int], t)
        }
}

/// A piece is of the size of a type.
pub open spec fn same_size(p: Piece, t: PType) -> bool {
    p.width == t.width && p.height == t.height && p.can_rotate == t.can_rotate
}

/// The first `k` pieces that fit on the sheet are grouped by size, the types by first piece.
pub open spec fn grouped(
    pieces: Seq<Piece>,
    ptypes: Seq<PType>,
    k: nat,
    sw: int,
    sh: int,
) -> bool {
    &&& forall|t: int| 0 <= t < ptypes.len() ==> copies_ok(pieces, #[trigger] ptypes[t], k)
    &&& forall|t: int, u: int|
        0 <= t < u < ptypes.len() ==> {
            &&& !(ptypes[t].width == ptypes[u].width && ptypes[t].height == ptypes[u].height
                && ptypes[t].can_rotate == ptypes[u].can_rotate)
            &&& (#[trigger] ptypes[t]).copies@[0] < (#[trigger] ptypes[u]).copies@[0]
        }
    &&& forall|i: int|
        0 <= i < k && single_fits(piece_kind(#[trigger] pieces[i]), sw, sh) ==> exists|t: int|
            0 <= t < ptypes.len() && (#[trigger] ptypes[t]).copies@.contains(i as usize)
    &&& forall|t: int|
        0 <= t < ptypes.len() ==> single_fits((#[trigger] ptypes[t]).kind(), sw, sh)
}

impl Pricer {
    /// The pieces are solid and grouped by size, with the layout function of each size.
    pub open spec fn wf(self) -> bool {
        &&& types_ok(self.ptypes@, self.sheet_w as int, self.sheet_h as int)
        &&& grouped(
            self.pieces@,
            self.ptypes@,
            self.pieces@.len(),
            self.sheet_w as int,
            self.sheet_h as int,
        )
        &&& forall|i: int| 0 <= i < self.pieces@.len() ==> (#[trigger] self.pieces@[i]).solid()
    }

    /// Groups pieces by size. Those that fit on the sheet in no orientation are dropped.
    pub fn new(pieces: &Vec<Piece>, sheet_w: u32, sheet_h: u32, limits: PricingLimits) -> (r: Self)
        requires
            2 * sheet_w <= u32::MAX,
            2 * sheet_h <= u32::MAX,
            forall|i: int| 0 <= i < pieces@.len() ==> (#[trigger] pieces@[i]).solid(),
        ensures
            r.wf(),
            r.pieces@ == pieces@,
            r.sheet_w == sheet_w,
            r.sheet_h == sheet_h,
            r.limits == limits,
    {
        let ghost (sw, sh) = (sheet_w as int, sheet_h as int);
        let mut ptypes: Vec<PType> = Vec::new();
        let mut copy: Vec<Piece> = Vec::new();
        let mut idx: usize = 0;
        while idx < pieces.len()
            invariant
                idx <= pieces@.len(),
                sw == sheet_w,
                sh == sheet_h,
                2 * sheet_w <= u32::MAX,
                2 * sheet_h <= u32::MAX,
                copy@ =~= pieces@.take(idx as int),
                types_ok(ptypes@, sw, sh),
                grouped(pieces@, ptypes@, idx as nat, sw, sh),
            decreases pieces@.len() - idx,
        {
            let p = &pieces[idx];
            copy.push(p.clone());
            let ghost before = ptypes@;
            match find_type(&ptypes, p) {
                Some(t) => {
                    ptypes[t].copies.push(idx);
                    proof {
                        lemma_grouped_push(
                            pieces@,
                            before,
                            ptypes@,
                            idx as nat,
                            sw,
                            sh,
                            t as int,
                        );
                    }
                },
                None => {
                    let kind = GpfType {
                        width: p.width,
                        height: p.height,
                        count: 1,
                        can_rotate: p.can_rotate,
                    };
                    let all = single_layout(&kind);
                    let base = clip_to_sheet(&all, sheet_w, sheet_h);
                    proof {
                        lemma_reaches(base@, sw, sh);
                        assert(reaches(base@, sw, sh) <==> reaches(all@, sw, sh));
                        assert(single_fits(kind, sw, sh) <==> reaches(all@, sw, sh));
                        if base@.len() > 0 {
                            assert(base@[0].0 <= sw && base@[0].1 <= sh);
                        }
                    }
                    if base.len() > 0 {
                        let mut copies: Vec<usize> = Vec::new();
                        copies.push(idx);
                        let t = PType {
                            width: p.width,
                            height: p.height,
                            can_rotate: p.can_rotate,
                            copies,
                            base,
                        };
                        proof {
                            assert forall|w: int, h: int| #[trigger]
                                reaches(t.base@, w, h) <==> single_fits(
                                    t.kind(),
                                    lesser(w, sw),
                                    lesser(h, sh),
                                ) by {
                                let (a, b) = (lesser(w, sw), lesser(h, sh));
                                assert(single_fits(kind, a, b) <==> reaches(all@, a, b));
                            }
                            assert(t.based(sw, sh));
                        }
                        ptypes.push(t);
                        proof {
                            lemma_grouped_new(pieces@, before, t, idx as nat, sw, sh);
                            assert(ptypes@ =~= before.push(t));
                        }
                    } else {
                        proof {
                            lemma_grouped_none(pieces@, ptypes@, idx as nat, sw, sh);
                        }
                    }
                },
            }
            idx += 1;
        }
        assert(copy@ =~= pieces@);
        Pricer { pieces: copy, ptypes, sheet_w, sheet_h, limits, nodes: 0 }
    }

    /// The type that a piece belongs to, none where it was dropped.
    pub fn type_of(&self, flat_idx: usize) -> (r: Option<usize>)
        ensures
            match r {
                Some(t) => {
                    &&& t < self.ptypes@.len()
                    &&& self.ptypes@[t as int].copies@.contains(flat_idx)
                    &&& forall|u: int|
                        0 <= u < t ==> !(#[trigger] self.ptypes@[u]).copies@.contains(flat_idx)
                },
                None => forall|u: int|
                    0 <= u < self.ptypes@.len() ==> !(
                    #[trigger] self.ptypes@[u]).copies@.contains(flat_idx),
            },
    {
        let mut t: usize = 0;
        while t < self.ptypes.len()
            invariant
                t <= self.ptypes@.len(),
                forall|u: int|
                    0 <= u < t ==> !(#[trigger] self.ptypes@[u]).copies@.contains(flat_idx),
            decreases self.ptypes@.len() - t,
        {
            if has_copy(&self.ptypes[t].copies, flat_idx) {
                return Some(t);
            }
            t += 1;
        }
        None
    }
}

pub(crate) fn has_copy(list: &Vec<usize>, v: usize) -> (r: bool)
    ensures
        r == list@.contains(v),
{
    let mut k: usize = 0;
    while k < list.len()
        invariant
            k <= list@.len(),
            forall|i: int| 0 <= i < k ==> #[trigger] list@[i] != v,
        decreases list@.len() - k,
    {
        if list[k] == v {
            assert(list@[k as int] == v);
            return true;
        }
        k += 1;
    }
    false
}

fn find_type(ptypes: &Vec<PType>, p: &Piece) -> (r: Option<usize>)
    ensures
        match r {
            Some(t) => t < ptypes@.len() && same_size(*p, ptypes@[t as int]),
            None => forall|t: int|
                0 <= t < ptypes@.len() ==> !same_size(*p, #[trigger] ptypes@[t]),
        },
{
    let mut t: usize = 0;
    while t < ptypes.len()
        invariant
            t <= ptypes@.len(),
            forall|u: int| 0 <= u < t ==> !same_size(*p, #[trigger] ptypes@[u]),
        decreases ptypes@.len() - t,
    {
        let q = &ptypes[t];
        if q.width == p.width && q.height == p.height && q.can_rotate == p.can_rotate {
            return Some(t);
        }
        t += 1;
    }
    None
}

proof fn lemma_grouped_push(
    pieces: Seq<Piece>,
    before: Seq<PType>,
    after: Seq<PType>,
    k: nat,
    sw: int,
    sh: int,
    t: int,
)
    requires
        k < pieces.len() <= usize::MAX,
        types_ok(before, sw, sh),
        grouped(pieces, before, k, sw, sh),
        0 <= t < before.len(),
        same_size(pieces[k as int], before[t]),
        after.len() == before.len(),
        after[t].width == before[t].width,
        after[t].height == before[t].height,
        after[t].can_rotate == before[t].can_rotate,
        after[t].base == before[t].base,
        after[t].copies@ == before[t].copies@.push(k as usize),
        forall|u: int| 0 <= u < before.len() && u != t ==> #[trigger] after[u] == before[u],
    ensures
        grouped(pieces, after, k + 1, sw, sh),
        types_ok(after, sw, sh),
{
    assert forall|u: int| 0 <= u < after.len() implies (#[trigger] after[u]).based(sw, sh)
        && copies_ok(pieces, after[u], k + 1) && single_fits(after[u].kind(), sw, sh) by {
        assert(before[u].based(sw, sh));
        assert(copies_ok(pieces, before[u], k));
        assert(single_fits(before[u].kind(), sw, sh));
        if u == t {
            let c = before[t].copies@;
            let d = after[t].copies@;
            assert forall|i: int| 0 <= i < d.len() implies (#[trigger] d[i]) < k + 1 && same_size(
                pieces[d[i] as int],
                after[t],
            ) by {
                if i < c.len() {
                    assert(c[i] < k && same_size(pieces[c[i] as int], before[t]));
                }
            }
            assert forall|i: int, j: int| 0 <= i < j < d.len() implies #[trigger] d[i]
                < #[trigger] d[j] by {
                if j == c.len() {
                    assert(c[i] < k);
                } else {
                    assert(c[i] < c[j]);
                }
            }
            assert forall|w: int, h: int| #[trigger]
                reaches(after[t].base@, w, h) <==> single_fits(
                    after[t].kind(),
                    lesser(w, sw),
                    lesser(h, sh),
                ) by {
                assert(reaches(before[t].base@, w, h) <==> single_fits(
                    before[t].kind(),
                    lesser(w, sw),
                    lesser(h, sh),
                ));
            }
        }
    }
    assert forall|a: int, b: int| 0 <= a < b < after.len() implies {
        &&& !(after[a].width == after[b].width && after[a].height == after[b].height
            && after[a].can_rotate == after[b].can_rotate)
        &&& (#[trigger] after[a]).copies@[0] < (#[trigger] after[b]).copies@[0]
    } by {
        assert(before[a].copies@[0] < before[b].copies@[0]);
        assert(copies_ok(pieces, before[a], k) && copies_ok(pieces, before[b], k));
    }
    assert forall|i: int|
        0 <= i < k + 1 && single_fits(
            piece_kind(#[trigger] pieces[i]),
            sw,
            sh,
        ) implies exists|u: int|
        0 <= u < after.len() && (#[trigger] after[u]).copies@.contains(i as usize) by {
        if i < k {
            let u = choose|u: int|
                0 <= u < before.len() && (#[trigger] before[u]).copies@.contains(i as usize);
            let c = before[u].copies@;
            let j = choose|j: int| 0 <= j < c.len() && c[j] == i as usize;
            assert(after[u].copies@[j] == i as usize);
        } else {
            let d = after[t].copies@;
            assert(d[d.len() - 1] == k as usize);
        }
    }
}

proof fn lemma_grouped_new(
    pieces: Seq<Piece>,
    before: Seq<PType>,
    t: PType,
    k: nat,
    sw: int,
    sh: int,
)
    requires
        k < pieces.len() <= usize::MAX,
        types_ok(before, sw, sh),
        grouped(pieces, before, k, sw, sh),
        forall|u: int| 0 <= u < before.len() ==> !same_size(pieces[k as int], #[trigger] before[u]),
        same_size(pieces[k as int], t),
        t.copies@ == seq![k as usize],
        t.based(sw, sh),
        single_fits(t.kind(), sw, sh),
    ensures
        grouped(pieces, before.push(t), k + 1, sw, sh),
        types_ok(before.push(t), sw, sh),
{
    let after = before.push(t);
    assert forall|u: int| 0 <= u < after.len() implies (#[trigger] after[u]).based(sw, sh)
        && copies_ok(pieces, after[u], k + 1) && single_fits(after[u].kind(), sw, sh) by {
        if u < before.len() {
            assert(before[u].based(sw, sh));
            assert(copies_ok(pieces, before[u], k));
            assert(single_fits(before[u].kind(), sw, sh));
        }
    }
    assert forall|a: int, b: int| 0 <= a < b < after.len() implies {
        &&& !(after[a].width == after[b].width && after[a].height == after[b].height
            && after[a].can_rotate == after[b].can_rotate)
        &&& (#[trigger] after[a]).copies@[0] < (#[trigger] after[b]).copies@[0]
    } by {
        if b < before.len() {
            assert(before[a].copies@[0] < before[b].copies@[0]);
        } else {
            assert(copies_ok(pieces, before[a], k));
            assert(before[a].copies@[0] < k);
            assert(!same_size(pieces[k as int], before[a]));
        }
    }
    assert forall|i: int|
        0 <= i < k + 1 && single_fits(
            piece_kind(#[trigger] pieces[i]),
            sw,
            sh,
        ) implies exists|u: int|
        0 <= u < after.len() && (#[trigger] after[u]).copies@.contains(i as usize) by {
        if i < k {
            let u = choose|u: int|
                0 <= u < before.len() && (#[trigger] before[u]).copies@.contains(i as usize);
            assert(after[u].copies@.contains(i as usize));
        } else {
            assert(after[before.len() as int].copies@[0] == k as usize);
        }
    }
}

proof fn lemma_grouped_none(pieces: Seq<Piece>, ptypes: Seq<PType>, k: nat, sw: int, sh: int)
    requires
        k < pieces.len(),
        grouped(pieces, ptypes, k, sw, sh),
        !single_fits(piece_kind(pieces[k as int]), sw, sh),
    ensures
        grouped(pieces, ptypes, k + 1, sw, sh),
{
    assert forall|t: int| 0 <= t < ptypes.len() implies copies_ok(
        pieces,
        #[trigger] ptypes[t],
        k + 1,
    ) by {
        assert(copies_ok(pieces, ptypes[t], k));
    }
}

/// The pieces chosen are worth including, can be cut from one sheet, meet the constraints, and
/// are worth more than the threshold together.
pub open spec fn improving(
    pr: Pricer,
    mu: Seq<u64>,
    constraints: BranchConstraints,
    chosen: Seq<bool>,
) -> bool {
    let c = chosen_counts(pr.ptypes@, pr.pieces@.len(), chosen);
    &&& chosen.len() == pr.pieces@.len()
    &&& eligible(pr.ptypes@, mu, constraints, chosen)
    &&& fits(kinds(pr.ptypes@), c, pr.sheet_w as int, pr.sheet_h as int)
    &&& constraints.compatible(c)
    &&& constraints.paired(c)
    &&& chosen_profit(mu, chosen) > THRESHOLD
}

/// A pattern that can be cut, of pieces that improve.
pub open spec fn is_column(
    pr: Pricer,
    mu: Seq<u64>,
    constraints: BranchConstraints,
    p: Pattern,
) -> bool {
    &&& valid_pattern(pr, p)
    &&& improving(pr, mu, constraints, chosen_of(p.items@, pr.pieces@.len()))
}

/// What is searched in one pricing.
pub open spec fn quest_of(pr: Pricer, cands: Seq<Candidate>, constraints: BranchConstraints) -> Quest {
    Quest {
        cands,
        types: pr.ptypes@,
        constraints,
        sw: pr.sheet_w as int,
        sh: pr.sheet_h as int,
    }
}

/// The candidates at some positions go on the sheet one after the other, and no two types are
/// among them that do not go together.
pub open spec fn chains(q: Quest, list: Seq<usize>) -> bool {
    let types = types_at(q.cands, list);
    &&& chain_fits(kinds(q.types), types, q.sw, q.sh)
    &&& q.constraints.compatible(tally(types, q.types.len()))
}

/// The positions that are taken of the first `k` of an order: each with which those taken before
/// it still make a chain.
pub open spec fn taken(q: Quest, order: Seq<usize>, k: nat) -> Seq<usize>
    decreases k,
{
    if k == 0 {
        Seq::empty()
    } else {
        let before = taken(q, order, (k - 1) as nat);
        let next = before.push(order[k - 1]);
        if chains(q, next) {
            next
        } else {
            before
        }
    }
}

/// The candidates at some positions are worth more than the threshold together, and the types
/// that go together are both among them or both not.
pub open spec fn pays(q: Quest, list: Seq<usize>) -> bool {
    &&& profit(q.cands, selected(list, q.cands.len())) > THRESHOLD
    &&& q.constraints.paired(tally(types_at(q.cands, list), q.types.len()))
}

/// `p` has the candidates at some positions, laid out one after the other on the sheet's width
/// at their least height.
pub open spec fn chain_pattern(q: Quest, list: Seq<usize>, p: Pattern) -> bool {
    exists|h: int, spots: Seq<TypeSpot>|
        {
            &&& least_height(kinds(q.types), types_at(q.cands, list), q.sw, h)
            &&& #[trigger] laid_in_turn(kinds(q.types), types_at(q.cands, list), spots, q.sw, h)
            &&& assembled(q.cands, list, q.types.len(), spots, p)
        }
}

/// All positions of candidates, in order.
pub open spec fn all_positions(m: nat) -> Seq<usize> {
    Seq::new(m, |i: int| i as usize)
}

/// The search of all sets of copies.
pub open spec fn search_of(q: Quest, e: Terms, max_nodes: nat, wk: Work) -> Walk {
    let tr = Trail {
        list: Seq::empty(),
        blocked: Seq::new(q.types.len(), |t: int| false),
        linked: true,
    };
    walked(q, e, max_nodes, 0, wk, tr, 0)
}

/// What comes of a search: nothing where it found nothing or was stopped; else the layout of
/// the positions found, by their chain where that goes on the sheet, else by the oracle, whose
/// budgets may run out once more.
pub open spec fn searched(q: Quest, e: Terms, v: Walk, r: PriceOutcome, work: Work) -> bool {
    match v.end {
        WalkEnd::Nothing => r is NoneExists && work == v.work,
        WalkEnd::Stopped => r is Aborted && work == v.work,
        WalkEnd::Found(list) => {
            let types = types_at(q.cands, list);
            if chain_fits(kinds(q.types), types, q.sw, q.sh) {
                &&& work == v.work
                &&& r matches PriceOutcome::Column(p) && chain_pattern(q, list, p)
            } else {
                let b = rebuilt_on_sheet(e, v.work, tally(types, q.types.len()));
                &&& work == b.work
                &&& match b.spots {
                    Some(spots) => r matches PriceOutcome::Column(p) && assembled(
                        q.cands,
                        list,
                        q.types.len(),
                        spots,
                        p,
                    ),
                    None => r is Aborted,
                }
            }
        },
    }
}

/// What one pricing does with its candidates: with none there is nothing to find; a chain in the
/// order of density that pays is the column, else one in the order of profit; else all sets of
/// copies are searched.
pub open spec fn priced_with(
    pr: Pricer,
    oracle: GlfOracle,
    cands: Seq<Candidate>,
    constraints: BranchConstraints,
    r: PriceOutcome,
    pr2: Pricer,
    oracle2: GlfOracle,
) -> bool {
    let m = cands.len();
    let q = quest_of(pr, cands, constraints);
    let order = order_of(ProfitOrder { cands }, m);
    let by_density = taken(q, all_positions(m), m);
    let by_profit = taken(q, order, order.len());
    if m == 0 {
        r is NoneExists && pr2 == pr && oracle2 == oracle
    } else if pays(q, by_density) {
        &&& r matches PriceOutcome::Column(p) && chain_pattern(q, by_density, p)
        &&& pr2 == pr
        &&& oracle2 == oracle
    } else if pays(q, by_profit) {
        &&& r matches PriceOutcome::Column(p) && chain_pattern(q, by_profit, p)
        &&& pr2 == pr
        &&& oracle2 == oracle
    } else {
        let e = oracle.terms(kinds(pr.ptypes@));
        let wk = Work { splits: 0, ..oracle.work() };
        let v = search_of(q, e, pr.limits.max_nodes as nat, wk);
        &&& pr2.nodes == v.nodes
        &&& searched(q, e, v, r, oracle2.work())
    }
}

/// What one pricing does.
pub open spec fn priced(
    pr: Pricer,
    oracle: GlfOracle,
    mu: Seq<u64>,
    constraints: BranchConstraints,
    r: PriceOutcome,
    pr2: Pricer,
    oracle2: GlfOracle,
) -> bool {
    let cands = ranked_candidates(pr.ptypes@, mu, constraints);
    priced_with(pr, oracle, cands, constraints, r, pr2, oracle2)
}

/// A list of different items below `n` has no more than `n`.
proof fn lemma_few_places(list: Seq<usize>, n: nat)
    requires
        list.no_duplicates(),
        forall|i: int| 0 <= i < list.len() ==> (#[trigger] list[i]) < n,
    ensures
        list.len() <= n,
{
    let ints = list.map_values(|v: usize| v as int);
    assert(ints.no_duplicates()) by {
        assert forall|i: int, j: int| 0 <= i < ints.len() && 0 <= j < ints.len() && i != j implies ints[i]
            != ints[j] by {
            assert(list[i] != list[j]);
        }
    }
    ints.unique_seq_to_set();
    vstd::set_lib::lemma_int_range(0, n as int);
    assert forall|v: int| ints.to_set().contains(v) implies vstd::set_lib::set_int_range(
        0,
        n as int,
    ).contains(v) by {
        let i = choose|i: int| 0 <= i < ints.len() && ints[i] == v;
        assert(list[i] < n);
    }
    vstd::set_lib::lemma_len_subset(ints.to_set(), vstd::set_lib::set_int_range(0, n as int));
}

/// There are no more candidates than pieces.
proof fn lemma_few_candidates(pr: Pricer, mu: Seq<u64>, cands: Seq<Candidate>)
    requires
        pr.wf(),
        candidates_of(pr.ptypes@, mu, cands),
    ensures
        cands.len() <= pr.pieces@.len(),
{
    let list = Seq::new(cands.len(), |p: int| cands[p].flat_idx);
    assert(list.no_duplicates()) by {
        assert forall|i: int, j: int| 0 <= i < list.len() && 0 <= j < list.len() && i != j implies list[i]
            != list[j] by {
            if i < j {
                assert(cands[i].flat_idx != cands[j].flat_idx);
            } else {
                assert(cands[j].flat_idx != cands[i].flat_idx);
            }
        }
    }
    assert forall|i: int| 0 <= i < list.len() implies (#[trigger] list[i]) < pr.pieces@.len() by {
        assert(is_candidate(pr.ptypes@, mu, cands[i]));
        let t = cands[i].type_idx as int;
        lemma_one_type(pr, t, t, cands[i].flat_idx);
    }
    lemma_few_places(list, pr.pieces@.len());
}

/// Where no selection of candidates is to be hoped for, no pieces improve.
proof fn lemma_none_exists(
    pr: Pricer,
    mu: Seq<u64>,
    constraints: BranchConstraints,
    cands: Seq<Candidate>,
    cur: Seq<bool>,
    chosen: Seq<bool>,
)
    requires
        pr.wf(),
        pr.pieces@.len() <= usize::MAX,
        mu.len() == pr.pieces@.len(),
        candidates_of(pr.ptypes@, mu, cands),
        candidates_under(pr.ptypes@, constraints, cands),
        quest_of(pr, cands, constraints).hopeless(cur, 0),
    ensures
        !improving(pr, mu, constraints, chosen),
{
    if improving(pr, mu, constraints, chosen) {
        let q = quest_of(pr, cands, constraints);
        let sel = Seq::new(cands.len(), |p: int| chosen[cands[p].flat_idx as int]);
        assert forall|i: int| 0 <= i < chosen.len() && #[trigger] chosen[i] implies has_flat(
            cands,
            i as usize,
        ) by {
            let t = choose|t: int|
                0 <= t < pr.ptypes@.len() && (#[trigger] pr.ptypes@[t]).copies@.contains(
                    i as usize,
                ) && (mu[i] > MU_EPS || constraints.ties(t));
            let c = pr.ptypes@[t].copies@;
            let k = choose|k: int| 0 <= k < c.len() && c[k] == i as usize;
            assert(mu[pr.ptypes@[t].copies@[k] as int] > MU_EPS || constraints.ties(t));
        }
        assert(selects(cands, sel, chosen));
        lemma_selects(pr, mu, cands, sel, chosen);
        let ts = kinds(pr.ptypes@);
        let r = lemma_firsts(cands, ts, sel, ts.len());
        assert(closed(cands, r)) by {
            assert forall|i: int, j: int|
                0 <= i < j < cands.len() && cands[i].type_idx == cands[j].type_idx
                    && #[trigger] r[j] implies #[trigger] r[i] by {
                assert(cands[i].type_idx < ts.len());
            }
        }
        assert(q.good(r));
    }
}

/// A list of positions whose candidates can be laid out and improve makes a column.
proof fn lemma_column(
    pr: Pricer,
    mu: Seq<u64>,
    constraints: BranchConstraints,
    cands: Seq<Candidate>,
    list: Seq<usize>,
    p: Pattern,
)
    requires
        pr.wf(),
        pr.pieces@.len() <= usize::MAX,
        mu.len() == pr.pieces@.len(),
        candidates_of(pr.ptypes@, mu, cands),
        candidates_under(pr.ptypes@, constraints, cands),
        quest_of(pr, cands, constraints).good(selected(list, cands.len())),
        profit(cands, selected(list, cands.len())) > THRESHOLD,
        valid_pattern(pr, p),
        selects(cands, selected(list, cands.len()), chosen_of(p.items@, pr.pieces@.len())),
    ensures
        is_column(pr, mu, constraints, p),
{
    let sel = selected(list, cands.len());
    let chosen = chosen_of(p.items@, pr.pieces@.len());
    lemma_selects(pr, mu, cands, sel, chosen);
    assert forall|i: int| 0 <= i < chosen.len() && #[trigger] chosen[i] implies exists|t: int|
        0 <= t < pr.ptypes@.len() && (#[trigger] pr.ptypes@[t]).copies@.contains(i as usize) && (
        mu[i] > MU_EPS || constraints.ties(t)) by {
        assert(has_flat(cands, i as usize));
        let q = choose|q: int|
            0 <= q < cands.len() && (#[trigger] cands[q]).flat_idx == i as usize;
        assert(is_candidate(pr.ptypes@, mu, cands[q]));
        assert(pr.ptypes@[cands[q].type_idx as int].copies@.contains(i as usize));
    }
}

/// A list of selected positions gives the selection.
pub(crate) proof fn lemma_includes(list: Seq<usize>, sel: Seq<bool>)
    requires
        includes_of(list, sel),
        sel.len() <= usize::MAX,
    ensures
        places(list, sel.len()),
        selected(list, sel.len()) == sel,
{
    assert(list.no_duplicates()) by {
        assert forall|i: int, j: int| 0 <= i < list.len() && 0 <= j < list.len() && i != j implies list[i]
            != list[j] by {
            if i < j {
                assert(list[i] < list[j]);
            } else {
                assert(list[j] < list[i]);
            }
        }
    }
    assert(selected(list, sel.len()) =~= sel) by {
        assert forall|p: int| 0 <= p < sel.len() implies selected(list, sel.len())[p]
            == sel[p] by {
            if list.contains(p as usize) {
                let i = choose|i: int| 0 <= i < list.len() && list[i] == p as usize;
                assert(sel[list[i] as int]);
            }
        }
    }
}

fn copy_steps(f: &StepFn) -> (r: StepFn)
    ensures
        r@ == f@,
{
    let mut out: StepFn = Vec::new();
    while out.len() < f.len()
        invariant
            out@.len() <= f@.len(),
            out@ =~= f@.take(out@.len() as int),
        decreases f@.len() - out@.len(),
    {
        out.push(f[out.len()]);
    }
    assert(out@ =~= f@);
    out
}

impl Pricer {
    /// The chain function after one more piece of type `t`.
    fn grow(&self, list: &Vec<usize>, fs: &Vec<StepFn>, t: usize) -> (f: StepFn)
        requires
            self.wf(),
            t < self.ptypes@.len(),
            chained(
                self.ptypes@,
                list@,
                fs@,
                self.sheet_w as int,
                self.sheet_h as int,
            ),
        ensures
            fs@.len() == 0 ==> f@ == self.ptypes@[t as int].base@,
            fs@.len() > 0 ==> composed(
                fs@.last()@,
                self.ptypes@[t as int].base@,
                self.sheet_w as int,
                self.sheet_h as int,
                f@,
            ),
            stepped(f@),
            inside(f@, self.sheet_w as int, self.sheet_h as int),
    {
        proof {
            assert(self.ptypes@[t as int].based(self.sheet_w as int, self.sheet_h as int));
            if fs@.len() > 0 {
                lemma_chain_achieves(
                    self.ptypes@,
                    list@,
                    fs@,
                    self.sheet_w as int,
                    self.sheet_h as int,
                    fs@.len() - 1,
                );
            }
        }
        let base = &self.ptypes[t].base;
        if fs.len() == 0 {
            copy_steps(base)
        } else {
            compose(&fs[fs.len() - 1], base, self.sheet_w, self.sheet_h)
        }
    }

    /// Grows a layout greedily in the given order, taking every candidate with which it still
    /// goes on the sheet and no two types are together that do not go together. A pattern comes
    /// out exactly where what is taken improves.
    fn try_chain(
        &self,
        cands: &Vec<Candidate>,
        order: &Vec<usize>,
        constraints: &BranchConstraints,
        Ghost(mu): Ghost<Seq<u64>>,
    ) -> (r: Option<Pattern>)
        requires
            self.wf(),
            mu.len() == self.pieces@.len(),
            candidates_of(self.ptypes@, mu, cands@),
            candidates_under(self.ptypes@, *constraints, cands@),
            cands@.len() <= u32::MAX,
            positions(order@, cands@.len()),
            constraints.about(self.ptypes@.len()),
        ensures
            r is Some <==> pays(
                quest_of(*self, cands@, *constraints),
                taken(quest_of(*self, cands@, *constraints), order@, order@.len()),
            ),
            r matches Some(p) ==> {
                &&& is_column(*self, mu, *constraints, p)
                &&& chain_pattern(
                    quest_of(*self, cands@, *constraints),
                    taken(quest_of(*self, cands@, *constraints), order@, order@.len()),
                    p,
                )
            },
    {
        let n: usize = self.ptypes.len();
        let ghost ts = kinds(self.ptypes@);
        let ghost m = cands@.len();
        let ghost q = quest_of(*self, cands@, *constraints);
        let ghost (sw, sh) = (self.sheet_w as int, self.sheet_h as int);
        proof {
            assert(sw * sh <= 0xffff_ffff * 0xffff_ffff) by (nonlinear_arith)
                requires
                    0 <= sw <= 0xffff_ffff,
                    0 <= sh <= 0xffff_ffff,
            ;
        }
        let sheet_area: u64 = self.sheet_w as u64 * self.sheet_h as u64;
        let mut list: Vec<usize> = Vec::new();
        let mut fs: Vec<StepFn> = Vec::new();
        let mut includes: Vec<usize> = Vec::new();
        let mut included: Vec<u32> = vec![0u32; n];
        let mut profit_sum: u128 = 0;
        let mut area_sum: u64 = 0;
        let mut k: usize = 0;
        proof {
            lemma_empty_selection(cands@, ts, includes@);
            assert(nats(included@) =~= counts(cands@, n as nat, selected(includes@, m)));
            assert(includes@ =~= taken(q, order@, 0));
            assert(list@ =~= types_at(cands@, includes@));
        }
        while k < order.len()
            invariant
                k <= order@.len(),
                self.wf(),
                n == self.ptypes@.len(),
                ts == kinds(self.ptypes@),
                m == cands@.len(),
                m <= u32::MAX,
                sw == self.sheet_w,
                sh == self.sheet_h,
                sheet_area == sw * sh,
                candidates_of(self.ptypes@, mu, cands@),
                positions(order@, m),
                constraints.about(n as nat),
                q == quest_of(*self, cands@, *constraints),
                chained(self.ptypes@, list@, fs@, sw, sh),
                fs@.len() > 0 ==> fs@.last()@.len() > 0,
                places(includes@, m),
                includes@ == taken(q, order@, k as nat),
                forall|j: int|
                    k <= j < order@.len() ==> !includes@.contains(#[trigger] order@[j]),
                list@ == types_at(cands@, includes@),
                nats(included@) == counts(cands@, n as nat, selected(includes@, m)),
                constraints.compatible(nats(included@)),
                profit_sum == profit(cands@, selected(includes@, m)),
                area_sum == area(cands@, selected(includes@, m)),
                area_sum <= sheet_area,
            decreases order@.len() - k,
        {
            let pos: usize = order[k];
            let ghost sel = selected(includes@, m);
            assert(order@[k as int] < m);
            let c = cands[pos];
            let t: usize = c.type_idx;
            proof {
                assert(is_candidate(self.ptypes@, mu, cands@[pos as int]));
                assert(!includes@.contains(order@[k as int]));
                lemma_counts_more(cands@, ts, sel, pos as int);
                lemma_push_selection(includes@, pos, m);
                lemma_room_for_one(cands@, ts, sel, pos as int);
                lemma_profit_bound(cands@, sel.update(pos as int, true));
                assert(nats(included@).len() == n);
                assert(nats(included@)[t as int] == included@[t as int]);
                lemma_next_in_chain(q, includes@, pos);
                lemma_selected_counts(cands@, ts, includes@);
            }
            if c.area <= sheet_area - area_sum && !forbidden_with_included(
                constraints,
                &included,
                t,
            ) {
                let f = self.grow(&list, &fs, t);
                proof {
                    lemma_chain_push(self.ptypes@, list@, fs@, sw, sh, t, f);
                    lemma_chain_end(self.ptypes@, list@.push(t), fs@.push(f), sw, sh);
                }
                if f.len() > 0 {
                    let ghost (inc0, cnt0) = (includes@, included@);
                    list.push(t);
                    fs.push(f);
                    includes.push(pos);
                    let v: u32 = included[t];
                    included.set(t, v + 1);
                    profit_sum = profit_sum + c.profit as u128;
                    area_sum = area_sum + c.area;
                    proof {
                        assert(nats(included@) =~= one_more(nats(cnt0), t as int));
                        assert(list@ =~= types_at(cands@, includes@));
                        assert forall|j: int| k + 1 <= j < order@.len() implies !includes@.contains(
                            #[trigger] order@[j],
                        ) by {
                            assert(!inc0.contains(order@[j]));
                            if includes@.contains(order@[j]) {
                                let i = choose|i: int|
                                    0 <= i < includes@.len() && includes@[i] == order@[j];
                                if i < inc0.len() {
                                    assert(inc0[i] == order@[j]);
                                } else {
                                    assert(order@[k as int] != order@[j]);
                                }
                            }
                        }
                    }
                }
            }
            k += 1;
        }
        proof {
            lemma_selected_counts(cands@, ts, includes@);
        }
        if profit_sum <= THRESHOLD as u128 || !satisfies_forced(constraints, &included) {
            return None;
        }
        match chain_reconstruct(&self.ptypes, &list, &fs, self.sheet_w, Ghost(sh)) {
            Some(spots) => {
                proof {
                    lemma_chain_fits(self.ptypes@, list@, fs@, sw, sh);
                    assert(q.good(selected(includes@, m)));
                    assert(self.pieces.len() == self.pieces@.len());
                }
                let p = self.assemble(&spots, &includes, cands, Ghost(mu));
                proof {
                    lemma_column(*self, mu, *constraints, cands@, includes@, p);
                    let h = choose|h: int| #[trigger]
                        least_height(ts, list@, sw, h) && laid_in_turn(ts, list@, spots@, sw, h);
                    assert(laid_in_turn(ts, types_at(cands@, includes@), spots@, sw, h));
                    assert(chain_pattern(q, includes@, p));
                }
                Some(p)
            },
            None => {
                proof {
                    if includes@.len() == 0 {
                        lemma_empty_selection(cands@, ts, includes@);
                    }
                }
                None
            },
        }
    }

    /// A layout of the copies found: by a chain in their order where that works out, else by the
    /// layout functions.
    fn reconstruct_found(
        &self,
        cands: &Vec<Candidate>,
        includes: &Vec<usize>,
        found_counts: &Vec<u32>,
        oracle: &mut GlfOracle,
    ) -> (r: Option<Vec<TypeSpot>>)
        requires
            self.wf(),
            ranked_by_density(cands@, kinds(self.ptypes@)),
            places(includes@, cands@.len()),
            nats(found_counts@) == tally(types_at(cands@, includes@), self.ptypes@.len()),
            found_counts@.len() == self.ptypes@.len(),
            includes@.len() > 0,
            fits(
                kinds(self.ptypes@),
                nats(found_counts@),
                self.sheet_w as int,
                self.sheet_h as int,
            ),
            old(oracle).wf(kinds(self.ptypes@)),
            old(oracle).sheet_w == self.sheet_w,
            old(oracle).sheet_h == self.sheet_h,
        ensures
            final(oracle).wf(kinds(self.ptypes@)),
            final(oracle).follows(*old(oracle)),
            match r {
                Some(spots) => on_sheet(
                    kinds(self.ptypes@),
                    nats(found_counts@),
                    spots@,
                    self.sheet_w as int,
                    self.sheet_h as int,
                ),
                None => final(oracle).exhausted() && old(oracle).short_for(nats(found_counts@)),
            },
            ({
                let types = types_at(cands@, includes@);
                let (sw, sh) = (self.sheet_w as int, self.sheet_h as int);
                if chain_fits(kinds(self.ptypes@), types, sw, sh) {
                    &&& final(oracle).work() == old(oracle).work()
                    &&& r matches Some(spots) && exists|h: int| #[trigger]
                        least_height(kinds(self.ptypes@), types, sw, h) && laid_in_turn(
                            kinds(self.ptypes@),
                            types,
                            spots@,
                            sw,
                            h,
                        )
                } else {
                    (Rebuilt { work: final(oracle).work(), spots: found_spots(r) })
                        == rebuilt_on_sheet(
                        old(oracle).terms(kinds(self.ptypes@)),
                        old(oracle).work(),
                        nats(found_counts@),
                    )
                }
            }),
    {
        let ghost (sw, sh) = (self.sheet_w as int, self.sheet_h as int);
        let ghost ts = kinds(self.ptypes@);
        let mut list: Vec<usize> = Vec::new();
        let mut fs: Vec<StepFn> = Vec::new();
        let mut k: usize = 0;
        let mut whole = true;
        assert(list@ =~= types_at(cands@, includes@.take(0)));
        while k < includes.len() && whole
            invariant
                k <= includes@.len(),
                self.wf(),
                ts == kinds(self.ptypes@),
                sw == self.sheet_w,
                sh == self.sheet_h,
                ranked_by_density(cands@, ts),
                places(includes@, cands@.len()),
                chained(self.ptypes@, list@, fs@, sw, sh),
                whole ==> list@ == types_at(cands@, includes@.take(k as int)),
                !whole ==> !chain_fits(ts, types_at(cands@, includes@), sw, sh),
                whole && fs@.len() > 0 ==> fs@.last()@.len() > 0,
            decreases includes@.len() - k,
        {
            assert(includes@[k as int] < cands@.len());
            assert(cands@[includes@[k as int] as int].type_idx < ts.len());
            let t: usize = cands[includes[k]].type_idx;
            let f = self.grow(&list, &fs, t);
            proof {
                lemma_chain_push(self.ptypes@, list@, fs@, sw, sh, t, f);
                lemma_chain_end(self.ptypes@, list@.push(t), fs@.push(f), sw, sh);
                let l = types_at(cands@, includes@);
                assert(list@.push(t) =~= types_at(cands@, includes@.take(k + 1)));
                assert(l.take(k + 1) =~= list@.push(t));
                if chain_fits(ts, l, sw, sh) {
                    lemma_chain_prefix(ts, l, k + 1, sw, sh);
                }
            }
            if f.len() == 0 {
                whole = false;
            } else {
                list.push(t);
                fs.push(f);
            }
            k += 1;
        }
        if whole {
            assert(includes@.take(k as int) =~= includes@);
            proof {
                lemma_chain_end(self.ptypes@, list@, fs@, sw, sh);
            }
            if let Some(spots) = chain_reconstruct(
                &self.ptypes,
                &list,
                &fs,
                self.sheet_w,
                Ghost(sh),
            ) {
                return Some(spots);
            }
        }
        proof {
            let l = types_at(cands@, includes@);
            assert forall|i: int| 0 <= i < l.len() implies (#[trigger] l[i]) < ts.len() by {
                assert(includes@[i] < cands@.len());
                assert(cands@[includes@[i] as int].type_idx < ts.len());
            }
            lemma_tally_total(l, ts.len());
        }
        oracle.recon(&self.ptypes, found_counts)
    }

    /// Searches all sets of copies.
    #[verifier::rlimit(40)]
    fn exact(
        &mut self,
        cands: &Vec<Candidate>,
        constraints: &BranchConstraints,
        oracle: &mut GlfOracle,
        Ghost(mu): Ghost<Seq<u64>>,
    ) -> (r: PriceOutcome)
        requires
            old(self).wf(),
            mu.len() == old(self).pieces@.len(),
            candidates_of(old(self).ptypes@, mu, cands@),
            candidates_under(old(self).ptypes@, *constraints, cands@),
            cands@.len() <= u32::MAX,
            constraints.about(old(self).ptypes@.len()),
            old(oracle).wf(kinds(old(self).ptypes@)),
            old(oracle).sheet_w == old(self).sheet_w,
            old(oracle).sheet_h == old(self).sheet_h,
        ensures
            *final(self) == (Pricer { nodes: final(self).nodes, ..*old(self) }),
            final(oracle).wf(kinds(old(self).ptypes@)),
            final(oracle).follows((GlfOracle { splits: 0, ..*old(oracle) })),
            match r {
                PriceOutcome::Column(p) => is_column(*old(self), mu, *constraints, p),
                PriceOutcome::NoneExists => forall|chosen: Seq<bool>|
                    !#[trigger] improving(*old(self), mu, *constraints, chosen),
                PriceOutcome::Aborted => {
                    &&& final(oracle).exhausted() || final(self).nodes
                        >= old(self).limits.max_nodes
                    &&& (GlfOracle { splits: 0, ..*old(oracle) }).short_for(
                        quest_of(*old(self), cands@, *constraints).whole(),
                    ) || tree_size(cands@.len()) > old(self).limits.max_nodes
                },
            },
            ({
                let q = quest_of(*old(self), cands@, *constraints);
                let e = old(oracle).terms(kinds(old(self).ptypes@));
                let wk = Work { splits: 0, ..old(oracle).work() };
                let v = search_of(q, e, old(self).limits.max_nodes as nat, wk);
                &&& final(self).nodes == v.nodes
                &&& searched(q, e, v, r, final(oracle).work())
            }),
    {
        oracle.reset_splits();
        let ghost w0 = oracle.work();
        let n: usize = self.ptypes.len();
        let ghost ts = kinds(self.ptypes@);
        let ghost m = cands@.len();
        let ghost q = quest_of(*self, cands@, *constraints);
        let ghost (sw, sh) = (self.sheet_w as int, self.sheet_h as int);
        proof {
            assert(sw * sh <= 0xffff_ffff * 0xffff_ffff) by (nonlinear_arith)
                requires
                    0 <= sw <= 0xffff_ffff,
                    0 <= sh <= 0xffff_ffff,
            ;
            assert(0 <= sw * sh) by (nonlinear_arith)
                requires
                    0 <= sw,
                    0 <= sh,
            ;
        }
        let sheet_area: u64 = self.sheet_w as u64 * self.sheet_h as u64;
        let mut st = Search {
            nodes: 0,
            counts: vec![0u32; n],
            blocked: vec![false; n],
            includes: Vec::new(),
            profit: 0,
            area: 0,
        };
        let empty: StepFn = Vec::new();
        let ghost cur = selected(st.includes@, m);
        proof {
            lemma_empty_selection(cands@, ts, st.includes@);
            let c = counts(cands@, ts.len(), cur);
            assert(ts.len() == n);
            assert(c.len() == n);
            assert forall|t: int| 0 <= t < n implies #[trigger] c[t] == 0 by {}
            assert(nats(st.counts@) =~= c);
            lemma_no_pieces(c);
            assert(fits(ts, c, sw, sh));
            assert(includes_of(st.includes@, cur));
            assert(holds(q, st, cur, 0));
            assert(trail_of(st, true).list =~= Seq::empty());
            assert(trail_of(st, true).blocked =~= Seq::new(n as nat, |t: int| false));
        }
        let r = dfs(
            &self.ptypes,
            cands,
            constraints,
            oracle,
            &mut st,
            self.limits.max_nodes,
            sheet_area,
            0,
            Some(&empty),
            Ghost(q),
            Ghost(cur),
        );
        self.nodes = st.nodes;
        match r {
            Err(_) => PriceOutcome::Aborted,
            Ok(false) => {
                proof {
                    assert(self.pieces.len() == self.pieces@.len());
                    assert forall|chosen: Seq<bool>| !#[trigger] improving(
                        *old(self),
                        mu,
                        *constraints,
                        chosen,
                    ) by {
                        lemma_none_exists(*old(self), mu, *constraints, cands@, cur, chosen);
                    }
                }
                PriceOutcome::NoneExists
            },
            Ok(true) => {
                let ghost sel = choose|sel: Seq<bool>|
                    {
                        &&& #[trigger] includes_of(st.includes@, sel)
                        &&& sel.len() == q.cands.len()
                        &&& nats(st.counts@) == counts(q.cands, q.types.len(), sel)
                        &&& profit(q.cands, sel) > THRESHOLD
                        &&& q.good(sel)
                    };
                proof {
                    lemma_includes(st.includes@, sel);
                    lemma_selected_counts(cands@, ts, st.includes@);
                    if st.includes@.len() == 0 {
                        lemma_empty_selection(cands@, ts, st.includes@);
                    }
                    assert(nats(st.counts@).len() == n);
                }
                let ghost w1 = oracle.work();
                let ghost (max_cells, max_splits) = (
                    oracle.max_cells as int,
                    oracle.max_splits as int,
                );
                proof {
                    let all = Seq::new(m, |i: int| true);
                    lemma_counts_part(cands@, ts.len(), sel, all);
                    lemma_total_part(nats(st.counts@), q.whole());
                    if starved(w1, max_cells, max_splits, nats(st.counts@)) {
                        lemma_starved_before(
                            w0,
                            w1,
                            0,
                            max_cells,
                            max_splits,
                            nats(st.counts@),
                            q.whole(),
                        );
                    }
                }
                match self.reconstruct_found(cands, &st.includes, &st.counts, oracle) {
                    Some(spots) => {
                        proof {
                            assert(self.pieces.len() == self.pieces@.len());
                        }
                        let p = self.assemble(&spots, &st.includes, cands, Ghost(mu));
                        proof {
                            lemma_column(
                                *self,
                                mu,
                                *constraints,
                                cands@,
                                st.includes@,
                                p,
                            );
                            lemma_same_column(*self, *old(self), mu, *constraints, p);
                            let types = types_at(cands@, st.includes@);
                            if chain_fits(ts, types, sw, sh) {
                                let h = choose|h: int| #[trigger]
                                    least_height(ts, types, sw, h) && laid_in_turn(
                                        ts,
                                        types,
                                        spots@,
                                        sw,
                                        h,
                                    );
                                assert(laid_in_turn(ts, types, spots@, sw, h));
                                assert(chain_pattern(q, st.includes@, p));
                            }
                        }
                        PriceOutcome::Column(p)
                    },
                    None => PriceOutcome::Aborted,
                }
            },
        }
    }

    /// Tries the chains in both orders, then all sets of copies.
    #[verifier::rlimit(40)]
    fn price_candidates(
        &mut self,
        cands: &Vec<Candidate>,
        constraints: &BranchConstraints,
        oracle: &mut GlfOracle,
        Ghost(mu): Ghost<Seq<u64>>,
    ) -> (r: PriceOutcome)
        requires
            old(self).wf(),
            mu.len() == old(self).pieces@.len(),
            candidates_of(old(self).ptypes@, mu, cands@),
            candidates_under(old(self).ptypes@, *constraints, cands@),
            0 < cands@.len() <= u32::MAX,
            constraints.about(old(self).ptypes@.len()),
            old(oracle).wf(kinds(old(self).ptypes@)),
            old(oracle).sheet_w == old(self).sheet_w,
            old(oracle).sheet_h == old(self).sheet_h,
        ensures
            *final(self) == (Pricer { nodes: final(self).nodes, ..*old(self) }),
            final(oracle).wf(kinds(old(self).ptypes@)),
            final(oracle).follows((GlfOracle { splits: 0, ..*old(oracle) })),
            match r {
                PriceOutcome::Column(p) => is_column(*old(self), mu, *constraints, p),
                PriceOutcome::NoneExists => forall|chosen: Seq<bool>|
                    !#[trigger] improving(*old(self), mu, *constraints, chosen),
                PriceOutcome::Aborted => {
                    &&& final(oracle).exhausted() || final(self).nodes
                        >= old(self).limits.max_nodes
                    &&& (GlfOracle { splits: 0, ..*old(oracle) }).short_for(
                        quest_of(*old(self), cands@, *constraints).whole(),
                    ) || tree_size(cands@.len()) > old(self).limits.max_nodes
                },
            },
            priced_with(
                *old(self),
                *old(oracle),
                cands@,
                *constraints,
                r,
                *final(self),
                *final(oracle),
            ),
    {
        let mut density_order: Vec<usize> = Vec::new();
        while density_order.len() < cands.len()
            invariant
                density_order@.len() <= cands@.len(),
                forall|i: int| 0 <= i < density_order@.len() ==> #[trigger] density_order@[i] == i,
            decreases cands@.len() - density_order@.len(),
        {
            let k: usize = density_order.len();
            density_order.push(k);
        }
        assert(density_order@ =~= all_positions(cands@.len()));
        let by_profit = profit_order(cands);
        if let Some(p) = self.try_chain(cands, &density_order, constraints, Ghost(mu)) {
            return PriceOutcome::Column(p);
        }
        if let Some(p) = self.try_chain(cands, &by_profit, constraints, Ghost(mu)) {
            return PriceOutcome::Column(p);
        }
        self.exact(cands, constraints, oracle, Ghost(mu))
    }

    /// One pricing, for the dual value of each piece and under the constraints: a pattern that
    /// improves, or the proof that there is none, unless a budget runs out.
    pub fn price(
        &mut self,
        mu: &Vec<u64>,
        constraints: &BranchConstraints,
        oracle: &mut GlfOracle,
    ) -> (r: PriceOutcome)
        requires
            old(self).wf(),
            mu@.len() == old(self).pieces@.len(),
            old(self).pieces@.len() <= u32::MAX,
            constraints.about(old(self).ptypes@.len()),
            old(oracle).wf(kinds(old(self).ptypes@)),
            old(oracle).sheet_w == old(self).sheet_w,
            old(oracle).sheet_h == old(self).sheet_h,
        ensures
            *final(self) == (Pricer { nodes: final(self).nodes, ..*old(self) }),
            final(oracle).wf(kinds(old(self).ptypes@)),
            final(oracle).follows((GlfOracle { splits: 0, ..*old(oracle) })),
            match r {
                PriceOutcome::Column(p) => is_column(*old(self), mu@, *constraints, p),
                PriceOutcome::NoneExists => forall|chosen: Seq<bool>|
                    !#[trigger] improving(*old(self), mu@, *constraints, chosen),
                PriceOutcome::Aborted => final(oracle).exhausted() || final(self).nodes
                    >= old(self).limits.max_nodes,
            },
            priced(
                *old(self),
                *old(oracle),
                mu@,
                *constraints,
                r,
                *final(self),
                *final(oracle),
            ),
            (forall|i: int| 0 <= i < mu@.len() ==> #[trigger] mu@[i] <= MU_EPS)
                && constraints.forced_together@.len() == 0 ==> r is NoneExists,
            ample(*old(self), *old(oracle)) ==> !(r is Aborted),
    {
        let cands = self.build_candidates(mu, constraints);
        proof {
            lemma_few_candidates(*self, mu@, cands@);
            if ample(*self, *oracle) {
                lemma_ample(*self, *oracle, mu@, *constraints, cands@);
            }
            if cands@.len() > 0 {
                let t = cands@[0].type_idx as int;
                assert(is_candidate(self.ptypes@, mu@, cands@[0]));
                lemma_one_type(*self, t, t, cands@[0].flat_idx);
                assert(cands@[0].profit > MU_EPS || constraints.ties(t));
                assert(mu@[cands@[0].flat_idx as int] > MU_EPS || constraints.ties(t));
            }
        }
        if cands.len() == 0 {
            proof {
                assert(self.pieces.len() == self.pieces@.len());
                let cur = Seq::<bool>::empty();
                assert(quest_of(*self, cands@, *constraints).hopeless(cur, 0));
                assert forall|chosen: Seq<bool>| !#[trigger] improving(
                    *self,
                    mu@,
                    *constraints,
                    chosen,
                ) by {
                    lemma_none_exists(*self, mu@, *constraints, cands@, cur, chosen);
                }
            }
            return PriceOutcome::NoneExists;
        }
        self.price_candidates(&cands, constraints, oracle, Ghost(mu@))
    }
}

/// How many copies each type has.
pub open spec fn copy_numbers(ptypes: Seq<PType>) -> Seq<nat> {
    Seq::new(ptypes.len(), |t: int| ptypes[t].copies@.len())
}

/// The budgets are enough for any pricing: a node for each set of copies that is begun, a cell
/// for each multiset, and as many splits as multisets have parts.
pub open spec fn ample(pr: Pricer, oracle: GlfOracle) -> bool {
    let full = copy_numbers(pr.ptypes@);
    &&& tree_size(pr.pieces@.len()) <= pr.limits.max_nodes
    &&& oracle.cells + capacity(full) <= oracle.max_cells
    &&& (capacity(full) + total(full)) * capacity(full) < oracle.max_splits
}

/// The pieces that the first `k` candidates of a type stand for.
spec fn stood_for(cands: Seq<Candidate>, t: int, k: int) -> Set<usize> {
    Set::new(
        |f: usize|
            exists|p: int|
                0 <= p < k && (#[trigger] cands[p]).type_idx == t && cands[p].flat_idx == f,
    )
}

/// A type has no more candidates than copies.
proof fn lemma_type_candidates(
    ptypes: Seq<PType>,
    mu: Seq<u64>,
    cands: Seq<Candidate>,
    t: int,
    k: nat,
)
    requires
        candidates_of(ptypes, mu, cands),
        0 <= t < ptypes.len(),
        k <= cands.len(),
    ensures
        stood_for(cands, t, k as int).finite(),
        picked(of_type(cands, t), Seq::new(cands.len(), |i: int| true), k) == stood_for(
            cands,
            t,
            k as int,
        ).len(),
    decreases k,
{
    let now = stood_for(cands, t, k as int);
    if k == 0 {
        assert(now =~= Set::empty());
    } else {
        lemma_type_candidates(ptypes, mu, cands, t, (k - 1) as nat);
        let before = stood_for(cands, t, k - 1);
        let last = cands[k - 1];
        if last.type_idx == t {
            assert(!before.contains(last.flat_idx)) by {
                if before.contains(last.flat_idx) {
                    let p = choose|p: int|
                        0 <= p < k - 1 && (#[trigger] cands[p]).type_idx == t && cands[p].flat_idx
                            == last.flat_idx;
                    assert(cands[p].flat_idx != cands[k - 1].flat_idx);
                }
            }
            assert(now =~= before.insert(last.flat_idx)) by {
                assert forall|f: usize| before.insert(last.flat_idx).contains(f) implies now.contains(
                    f,
                ) by {
                    if f == last.flat_idx {
                        assert(cands[k - 1].type_idx == t && cands[k - 1].flat_idx == f);
                    } else {
                        let p = choose|p: int|
                            0 <= p < k - 1 && (#[trigger] cands[p]).type_idx == t
                                && cands[p].flat_idx == f;
                        assert(cands[p].type_idx == t && cands[p].flat_idx == f);
                    }
                }
            }
        } else {
            assert(now =~= before) by {
                assert forall|f: usize| before.contains(f) implies now.contains(f) by {
                    let p = choose|p: int|
                        0 <= p < k - 1 && (#[trigger] cands[p]).type_idx == t && cands[p].flat_idx
                            == f;
                    assert(cands[p].type_idx == t && cands[p].flat_idx == f);
                }
            }
        }
    }
}

/// Ample budgets are not used up.
proof fn lemma_ample(
    pr: Pricer,
    oracle: GlfOracle,
    mu: Seq<u64>,
    constraints: BranchConstraints,
    cands: Seq<Candidate>,
)
    requires
        pr.wf(),
        candidates_of(pr.ptypes@, mu, cands),
        ample(pr, oracle),
    ensures
        !(GlfOracle { splits: 0, ..oracle }).short_for(quest_of(pr, cands, constraints).whole()),
        tree_size(cands.len()) <= pr.limits.max_nodes,
{
    let whole = quest_of(pr, cands, constraints).whole();
    let full = copy_numbers(pr.ptypes@);
    lemma_few_candidates(pr, mu, cands);
    lemma_tree_size(cands.len(), pr.pieces@.len());
    assert forall|t: int| 0 <= t < full.len() implies #[trigger] whole[t] <= full[t] by {
        lemma_type_candidates(pr.ptypes@, mu, cands, t, cands.len());
        let copies = pr.ptypes@[t].copies@;
        let mine = stood_for(cands, t, cands.len() as int);
        assert(mine.subset_of(copies.to_set())) by {
            assert forall|f: usize| mine.contains(f) implies copies.to_set().contains(f) by {
                let p = choose|p: int|
                    0 <= p < cands.len() && (#[trigger] cands[p]).type_idx == t
                        && cands[p].flat_idx == f;
                assert(is_candidate(pr.ptypes@, mu, cands[p]));
            }
        }
        copies.lemma_cardinality_of_set();
        vstd::set_lib::lemma_len_subset(mine, copies.to_set());
    }
    assert(part_of(whole, full));
    lemma_capacity_part(whole, full);
    lemma_total_part(whole, full);
    let w = (GlfOracle { splits: 0, ..oracle }).work();
    lemma_missing(w, whole);
    let (u, s, m) = (missing(w, whole).len() as int, total(whole) as int, capacity(whole) as int);
    let (t, n) = (total(full) as int, capacity(full) as int);
    assert((u + s) * m <= (n + t) * n) by (nonlinear_arith)
        requires
            0 <= u <= m <= n,
            0 <= s <= t,
    ;
}

/// The number of nodes is of no account for a column.
proof fn lemma_same_column(
    a: Pricer,
    b: Pricer,
    mu: Seq<u64>,
    constraints: BranchConstraints,
    p: Pattern,
)
    requires
        a == (Pricer { nodes: a.nodes, ..b }),
        is_column(a, mu, constraints, p),
    ensures
        is_column(b, mu, constraints, p),
{
    assert(as_problem(a) == as_problem(b));
}

proof fn lemma_no_pieces(c: Seq<nat>)
    requires
        forall|i: int| 0 <= i < c.len() ==> #[trigger] c[i] == 0,
    ensures
        total(c) == 0,
    decreases c.len(),
{
    if c.len() > 0 {
        let d = c.drop_last();
        assert forall|i: int| 0 <= i < d.len() implies #[trigger] d[i] == 0 by {
            assert(c[i] == 0);
        }
        lemma_no_pieces(d);
        assert(c[c.len() - 1] == 0);
    }
}

/// Nothing selected: no counts, no profit, no area.
proof fn lemma_empty_selection(cands: Seq<Candidate>, types: Seq<GpfType>, list: Seq<usize>)
    requires
        list.len() == 0,
    ensures
        profit(cands, selected(list, cands.len())) == 0,
        area(cands, selected(list, cands.len())) == 0,
        forall|t: int|
            0 <= t < types.len() ==> #[trigger] counts(
                cands,
                types.len(),
                selected(list, cands.len()),
            )[t] == 0,
{
    let sel = selected(list, cands.len());
    assert forall|i: int| 0 <= i < sel.len() implies !#[trigger] sel[i] by {}
    lemma_none_picked(profits(cands), sel, cands.len());
    lemma_none_picked(areas(cands), sel, cands.len());
    assert forall|t: int| 0 <= t < types.len() implies #[trigger] counts(
        cands,
        types.len(),
        sel,
    )[t] == 0 by {
        lemma_none_picked(of_type(cands, t), sel, cands.len());
    }
}

/// One more position in the list is one more selected.
pub(crate) proof fn lemma_push_selection(list: Seq<usize>, pos: usize, m: nat)
    requires
        pos < m <= usize::MAX,
        places(list, m),
        !selected(list, m)[pos as int],
    ensures
        selected(list.push(pos), m) == selected(list, m).update(pos as int, true),
        places(list.push(pos), m),
{
    let next = list.push(pos);
    assert(!list.contains(pos));
    assert(selected(next, m) =~= selected(list, m).update(pos as int, true)) by {
        assert forall|p: int| 0 <= p < m implies selected(next, m)[p] == selected(
            list,
            m,
        ).update(pos as int, true)[p] by {
            if p == pos {
                assert(next[list.len() as int] == p as usize);
            } else if next.contains(p as usize) {
                let i = choose|i: int| 0 <= i < next.len() && next[i] == p as usize;
                assert(list[i] == p as usize);
            }
            if list.contains(p as usize) {
                let i = choose|i: int| 0 <= i < list.len() && list[i] == p as usize;
                assert(next[i] == p as usize);
            }
        }
    }
}

/// The last function of a chain has breakpoints exactly where its pieces go on the sheet one
/// after the other.
proof fn lemma_chain_end(
    types: Seq<PType>,
    list: Seq<usize>,
    fs: Seq<StepFn>,
    sw: int,
    sh: int,
)
    requires
        types_ok(types, sw, sh),
        chained(types, list, fs, sw, sh),
        fs.len() > 0,
    ensures
        fs.last()@.len() > 0 <==> chain_fits(kinds(types), list, sw, sh),
{
    let n = list.len() as int;
    lemma_chain_achieves(types, list, fs, sw, sh, n - 1);
    lemma_chain_reach(types, list, fs, sw, sh, n - 1);
    assert(list.take(n - 1 + 1) =~= list);
    assert(reaches(fs[n - 1]@, sw, sh) <==> chain_fits(kinds(types), list, sw, sh));
    if fs.last()@.len() > 0 {
        lemma_reaches_sheet(fs.last()@, sw, sh);
    }
}

/// A chain with one more candidate has that one's type besides, and no more area than the sheet.
proof fn lemma_next_in_chain(q: Quest, list: Seq<usize>, pos: usize)
    requires
        ranked_by_density(q.cands, kinds(q.types)),
        types_ok(q.types, q.sw, q.sh),
        q.cands.len() <= usize::MAX,
        places(list.push(pos), q.cands.len()),
        pos < q.cands.len(),
    ensures
        types_at(q.cands, list.push(pos)) == types_at(q.cands, list).push(
            q.cands[pos as int].type_idx,
        ),
        tally(types_at(q.cands, list.push(pos)), q.types.len()) == one_more(
            tally(types_at(q.cands, list), q.types.len()),
            q.cands[pos as int].type_idx as int,
        ),
        chains(q, list.push(pos)) ==> area(q.cands, selected(list.push(pos), q.cands.len()))
            <= q.sw * q.sh,
{
    let next = list.push(pos);
    let ts = kinds(q.types);
    let l = types_at(q.cands, next);
    assert(l =~= types_at(q.cands, list).push(q.cands[pos as int].type_idx));
    assert(l.drop_last() =~= types_at(q.cands, list));
    if chains(q, next) {
        assert forall|i: int| 0 <= i < l.len() implies (#[trigger] l[i]) < ts.len() by {
            assert(next[i] < q.cands.len());
            assert(q.cands[next[i] as int].type_idx < ts.len());
        }
        lemma_in_turn_fits(ts, l, q.sw, q.sh);
        lemma_selected_counts(q.cands, ts, next);
        lemma_tally_total(l, ts.len());
        law_fits_by_area(ts, tally(l, ts.len()), q.sw, q.sh);
        lemma_area_counts(q.cands, ts, selected(next, q.cands.len()));
    }
}

/// The pieces of a chain whose last function has breakpoints fit on the sheet.
proof fn lemma_chain_fits(
    types: Seq<PType>,
    list: Seq<usize>,
    fs: Seq<StepFn>,
    sw: int,
    sh: int,
)
    requires
        types_ok(types, sw, sh),
        chained(types, list, fs, sw, sh),
        fs.len() > 0,
        fs.last()@.len() > 0,
    ensures
        fits(kinds(types), tally(list, types.len()), sw, sh),
{
    let n = list.len() as int;
    lemma_chain_achieves(types, list, fs, sw, sh, n - 1);
    assert(list.take(n - 1 + 1) =~= list);
    lemma_reaches_sheet(fs[n - 1]@, sw, sh);
}

} // verus!
