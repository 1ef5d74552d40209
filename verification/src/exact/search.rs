//! Branch and bound over the number of copies of each type on one sheet.

use vstd::prelude::*;

use super::assembly::{lemma_selected_counts, places, selected, types_at};
use super::budget::{
    lemma_spent_none, lemma_spent_trans, lemma_spent_wider, lemma_starved_before, spent, starved,
    Work,
};
use super::chain::{
    chain_fits, chain_function, composed, lemma_chain_begins, lemma_chain_grows, lemma_in_turn_fits,
    lemma_one_more, tally,
};
use super::fitting::{compose, law_fits_by_area, law_fits_with_fewer, reaches};
use super::oracle::{evaluated, kinds, types_ok, Evaluation, Exhausted, GlfOracle, PType, Terms};
use super::pricing::{lemma_includes, lemma_push_selection, pays, BranchConstraints, THRESHOLD};
use super::selection::{
    area, closed, counts, lemma_area_counts, lemma_counts_more, lemma_counts_part,
    lemma_fraction_bound, lemma_picked_bound, lemma_picked_le, of_type, one_more, profit, profits,
    ranked_by_density, Candidate,
};
use crate::gpf::table::{fits, lemma_total_part, nats, part_of, GpfType};
use crate::gpf::{stepped, StepFn};

verus! {

/// The state of a search.
pub struct Search {
    pub nodes: usize,
    /// Copies included so far, by type.
    pub counts: Vec<u32>,
    /// Types of which no further copies are taken.
    pub blocked: Vec<bool>,
    /// Positions of the candidates included, in order.
    pub includes: Vec<usize>,
    pub profit: u128,
    pub area: u64,
}

/// What is searched: the candidates and what a selection of them has to meet.
pub struct Quest {
    pub cands: Seq<Candidate>,
    pub types: Seq<PType>,
    pub constraints: BranchConstraints,
    pub sw: int,
    pub sh: int,
}

impl Quest {
    /// The selection can be cut from a sheet and meets the constraints.
    pub open spec fn good(self, sel: Seq<bool>) -> bool {
        let c = counts(self.cands, self.types.len(), sel);
        &&& fits(kinds(self.types), c, self.sw, self.sh)
        &&& self.constraints.compatible(c)
        &&& self.constraints.paired(c)
    }

    /// No selection that goes on from the first `pos` decisions, taking the copies of each type
    /// in order, is worth more than the threshold.
    pub open spec fn hopeless(self, cur: Seq<bool>, pos: int) -> bool {
        forall|sel: Seq<bool>|
            {
                &&& sel.len() == self.cands.len()
                &&& (forall|i: int| 0 <= i < pos ==> sel[i] == cur[i])
                &&& closed(self.cands, sel)
                &&& #[trigger] self.good(sel)
            } ==> profit(self.cands, sel) <= THRESHOLD
    }

    /// How many candidates there are of each type.
    pub open spec fn whole(self) -> Seq<nat> {
        counts(self.cands, self.types.len(), Seq::new(self.cands.len(), |i: int| true))
    }

    pub open spec fn ok(self) -> bool {
        &&& types_ok(self.types, self.sw, self.sh)
        &&& ranked_by_density(self.cands, kinds(self.types))
        &&& self.constraints.about(self.types.len())
        &&& self.cands.len() <= u32::MAX
    }
}

/// The state is that of a selection of candidates in front of `pos`.
pub open spec fn holds(q: Quest, st: Search, cur: Seq<bool>, pos: int) -> bool {
    &&& cur.len() == q.cands.len()
    &&& 0 <= pos <= q.cands.len()
    &&& forall|i: int| pos <= i < cur.len() ==> !#[trigger] cur[i]
    &&& nats(st.counts@) == counts(q.cands, q.types.len(), cur)
    &&& st.profit == profit(q.cands, cur)
    &&& st.area == area(q.cands, cur)
    &&& st.area <= q.sw * q.sh
    &&& st.blocked@.len() == q.types.len()
    &&& forall|t: int|
        0 <= t < q.types.len() ==> (#[trigger] st.blocked@[t] <==> passed_over(
            q.cands,
            cur,
            pos,
            t,
        ))
    &&& includes_of(st.includes@, cur)
    &&& fits(kinds(q.types), counts(q.cands, q.types.len(), cur), q.sw, q.sh)
    &&& q.constraints.compatible(counts(q.cands, q.types.len(), cur))
}

/// A copy of type `t` in front of `pos` was not taken.
pub open spec fn passed_over(cands: Seq<Candidate>, cur: Seq<bool>, pos: int, t: int) -> bool {
    exists|i: int| 0 <= i < pos && (#[trigger] cands[i]).type_idx == t && !cur[i]
}

/// The list holds the selected positions in increasing order.
pub open spec fn includes_of(list: Seq<usize>, cur: Seq<bool>) -> bool {
    &&& forall|i: int, j: int| 0 <= i < j < list.len() ==> #[trigger] list[i] < #[trigger] list[j]
    &&& forall|i: int| 0 <= i < list.len() ==> (#[trigger] list[i]) < cur.len() && cur[list[i] as int]
    &&& forall|p: int| 0 <= p < cur.len() && #[trigger] cur[p] ==> list.contains(p as usize)
}

/// A selection that is worth more than the threshold was found.
pub open spec fn found(q: Quest, st: Search) -> bool {
    exists|sel: Seq<bool>|
        {
            &&& #[trigger] includes_of(st.includes@, sel)
            &&& sel.len() == q.cands.len()
            &&& nats(st.counts@) == counts(q.cands, q.types.len(), sel)
            &&& profit(q.cands, sel) > THRESHOLD
            &&& q.good(sel)
        }
}

/// The same decisions.
pub open spec fn same_decisions(a: Search, b: Search) -> bool {
    &&& a.counts@ == b.counts@
    &&& a.blocked@ == b.blocked@
    &&& a.includes@ == b.includes@
    &&& a.profit == b.profit
    &&& a.area == b.area
}

/// Going on from more decisions that had to be made.
proof fn lemma_hopeless_skip(q: Quest, st: Search, cur: Seq<bool>, pos: int, next: int)
    requires
        q.ok(),
        holds(q, st, cur, pos),
        pos <= next <= q.cands.len(),
        forall|i: int| pos <= i < next ==> st.blocked@[(#[trigger] q.cands[i]).type_idx as int],
        q.hopeless(cur, next),
    ensures
        q.hopeless(cur, pos),
{
    assert forall|sel: Seq<bool>|
        {
            &&& sel.len() == q.cands.len()
            &&& (forall|i: int| 0 <= i < pos ==> sel[i] == cur[i])
            &&& closed(q.cands, sel)
            &&& #[trigger] q.good(sel)
        } implies profit(q.cands, sel) <= THRESHOLD by {
        assert forall|i: int| 0 <= i < next implies sel[i] == cur[i] by {
            if i >= pos {
                lemma_blocked_unused(q, st, cur, pos, sel, i);
            }
        }
    }
}

/// A closed selection uses no blocked type any more.
proof fn lemma_blocked_unused(
    q: Quest,
    st: Search,
    cur: Seq<bool>,
    pos: int,
    sel: Seq<bool>,
    i: int,
)
    requires
        q.ok(),
        holds(q, st, cur, pos),
        sel.len() == q.cands.len(),
        forall|i: int| 0 <= i < pos ==> sel[i] == cur[i],
        closed(q.cands, sel),
        pos <= i < q.cands.len(),
        st.blocked@[q.cands[i].type_idx as int],
    ensures
        !sel[i],
{
    let t = q.cands[i].type_idx as int;
    assert(passed_over(q.cands, cur, pos, t));
    let j = choose|j: int| 0 <= j < pos && (#[trigger] q.cands[j]).type_idx == t && !cur[j];
    assert(sel[j] == cur[j]);
    assert(!sel[i]) by {
        if sel[i] {
            assert(sel[j]);
        }
    }
}

/// What fits has no more area than the sheet.
proof fn lemma_good_area(q: Quest, sel: Seq<bool>)
    requires
        q.ok(),
        sel.len() == q.cands.len(),
        q.good(sel),
    ensures
        area(q.cands, sel) <= q.sw * q.sh,
{
    let ts = kinds(q.types);
    lemma_area_counts(q.cands, ts, sel);
    law_fits_by_area(ts, counts(q.cands, ts.len(), sel), q.sw, q.sh);
}

/// What the candidates from `pos` on are worth at most, whose types are not blocked: in order, as
/// long as there is room, and of the first that there is no room for the fraction that there is.
pub open spec fn still_won(cands: Seq<Candidate>, blocked: Seq<bool>, pos: int, room: int) -> int
    decreases cands.len() - pos,
{
    if pos >= cands.len() {
        0
    } else {
        let c = cands[pos];
        if blocked[c.type_idx as int] {
            still_won(cands, blocked, pos + 1, room)
        } else if c.area <= room {
            c.profit + still_won(cands, blocked, pos + 1, room - c.area)
        } else {
            c.profit * room / c.area as int
        }
    }
}

/// The decisions on the way to a node: the positions included, the types of which no more is
/// taken, and whether the chain of what is included still follows.
pub struct Trail {
    pub list: Seq<usize>,
    pub blocked: Seq<bool>,
    pub linked: bool,
}

/// What comes of including one more candidate.
pub struct Trial {
    pub work: Work,
    /// The oracle, where it was asked, came to its end.
    pub done: bool,
    pub fits: bool,
    pub linked: bool,
}

/// One more candidate is included where there is room for its area and its type goes together
/// with those included: if the chain does not follow, the oracle says whether the pieces fit.
pub open spec fn tried_with(q: Quest, e: Terms, wk: Work, tr: Trail, pos: int) -> Trial {
    let types = types_at(q.cands, tr.list.push(pos as usize));
    let c = tally(types, q.types.len());
    let used = area(q.cands, selected(tr.list, q.cands.len()));
    if q.cands[pos].area > q.sw * q.sh - used || !q.constraints.compatible(c) {
        Trial { work: wk, done: true, fits: false, linked: false }
    } else if tr.linked && chain_fits(kinds(q.types), types, q.sw, q.sh) {
        Trial { work: wk, done: true, fits: true, linked: true }
    } else {
        let v = evaluated(e, wk, c);
        Trial {
            work: v.work,
            done: v.done,
            fits: v.done && fits(kinds(q.types), c, q.sw, q.sh),
            linked: false,
        }
    }
}

/// How a search ended.
pub enum WalkEnd {
    /// With these positions.
    Found(Seq<usize>),
    /// There is nothing to be found.
    Nothing,
    /// A budget ran out.
    Stopped,
}

/// A search: the nodes visited, the work of the oracle, and the end.
pub struct Walk {
    pub nodes: nat,
    pub work: Work,
    pub end: WalkEnd,
}

/// The search from candidate `pos` on, unless as many nodes as may be were visited before.
pub open spec fn walked(
    q: Quest,
    e: Terms,
    max_nodes: nat,
    nodes: nat,
    wk: Work,
    tr: Trail,
    pos: int,
) -> Walk
    decreases q.cands.len() - pos, 1nat,
{
    if nodes >= max_nodes {
        Walk { nodes, work: wk, end: WalkEnd::Stopped }
    } else {
        walked_at(q, e, max_nodes, nodes + 1, wk, tr, pos)
    }
}

/// The search at a node: candidates of blocked types are passed over; where the bound leaves
/// hope, the next candidate is included and the search goes on behind it, and where that finds
/// nothing, it goes on with the type of the candidate blocked.
pub open spec fn walked_at(
    q: Quest,
    e: Terms,
    max_nodes: nat,
    nodes: nat,
    wk: Work,
    tr: Trail,
    pos: int,
) -> Walk
    decreases q.cands.len() - pos, 0nat,
{
    let sel = selected(tr.list, q.cands.len());
    if pos >= q.cands.len() {
        let end = if pays(q, tr.list) {
            WalkEnd::Found(tr.list)
        } else {
            WalkEnd::Nothing
        };
        Walk { nodes, work: wk, end }
    } else if tr.blocked[q.cands[pos].type_idx as int] {
        walked_at(q, e, max_nodes, nodes, wk, tr, pos + 1)
    } else if profit(q.cands, sel) + still_won(
        q.cands,
        tr.blocked,
        pos,
        q.sw * q.sh - area(q.cands, sel),
    ) <= THRESHOLD {
        Walk { nodes, work: wk, end: WalkEnd::Nothing }
    } else {
        let next = tr.list.push(pos as usize);
        let trial = tried_with(q, e, wk, tr, pos);
        if !trial.done {
            Walk { nodes, work: trial.work, end: WalkEnd::Stopped }
        } else if trial.fits && pays(q, next) {
            Walk { nodes, work: trial.work, end: WalkEnd::Found(next) }
        } else {
            let with = if trial.fits {
                walked(
                    q,
                    e,
                    max_nodes,
                    nodes,
                    trial.work,
                    Trail { list: next, blocked: tr.blocked, linked: trial.linked },
                    pos + 1,
                )
            } else {
                Walk { nodes, work: trial.work, end: WalkEnd::Nothing }
            };
            if with.end is Nothing {
                let t = q.cands[pos].type_idx as int;
                walked(
                    q,
                    e,
                    max_nodes,
                    with.nodes,
                    with.work,
                    Trail { blocked: tr.blocked.update(t, true), ..tr },
                    pos + 1,
                )
            } else {
                with
            }
        }
    }
}

/// The decisions that a state holds.
pub open spec fn trail_of(st: Search, linked: bool) -> Trail {
    Trail { list: st.includes@, blocked: st.blocked@, linked }
}

/// What a state says of its list of positions.
proof fn lemma_state(q: Quest, st: Search, cur: Seq<bool>, pos: int)
    requires
        q.ok(),
        holds(q, st, cur, pos),
    ensures
        places(st.includes@, q.cands.len()),
        selected(st.includes@, q.cands.len()) == cur,
        nats(st.counts@) == tally(types_at(q.cands, st.includes@), q.types.len()),
{
    lemma_includes(st.includes@, cur);
    lemma_selected_counts(q.cands, kinds(q.types), st.includes@);
}

/// The types of a list with one more position.
proof fn lemma_types_push(q: Quest, list: Seq<usize>, pos: usize)
    ensures
        types_at(q.cands, list.push(pos)) == types_at(q.cands, list).push(
            q.cands[pos as int].type_idx,
        ),
        tally(types_at(q.cands, list.push(pos)), q.types.len()) == one_more(
            tally(types_at(q.cands, list), q.types.len()),
            q.cands[pos as int].type_idx as int,
        ),
{
    let l = types_at(q.cands, list.push(pos));
    assert(l =~= types_at(q.cands, list).push(q.cands[pos as int].type_idx));
    assert(l.drop_last() =~= types_at(q.cands, list));
}

/// A bound on what can still be won: the candidates from `pos` on whose types are not blocked,
/// in order, and of the first that the area left has no room for the fraction that it has.
fn frac_bound(
    cands: &Vec<Candidate>,
    blocked: &Vec<bool>,
    pos: usize,
    room: u64,
    Ghost(q): Ghost<Quest>,
    Ghost(st): Ghost<Search>,
    Ghost(cur): Ghost<Seq<bool>>,
) -> (r: u128)
    requires
        q.ok(),
        q.cands == cands@,
        holds(q, st, cur, pos as int),
        blocked@ == st.blocked@,
        room == q.sw * q.sh - st.area,
    ensures
        r == still_won(cands@, blocked@, pos as int, room as int),
        profit(cands@, cur) + r <= u128::MAX,
        profit(cands@, cur) + r <= THRESHOLD ==> q.hopeless(cur, pos as int),
{
    let ghost m = cands@.len();
    let ghost ts = kinds(q.types);
    let mut rem: u64 = room;
    let mut sum: u128 = 0;
    let mut j: usize = pos;
    let ghost mut greedy = cur;
    proof {
        lemma_profit_bound(cands@, cur);
    }
    while j < cands.len()
        invariant
            q.ok(),
            q.cands == cands@,
            m == cands@.len(),
            ts == kinds(q.types),
            holds(q, st, cur, pos as int),
            blocked@ == st.blocked@,
            pos <= j <= m,
            greedy.len() == m,
            forall|i: int| 0 <= i < pos ==> #[trigger] greedy[i] == cur[i],
            forall|i: int|
                pos <= i < j ==> (#[trigger] greedy[i] == !blocked@[cands@[i].type_idx as int]),
            forall|i: int| j <= i < m ==> !#[trigger] greedy[i],
            profit(cands@, greedy) == profit(cands@, cur) + sum,
            area(cands@, greedy) + rem == q.sw * q.sh,
            still_won(cands@, blocked@, pos as int, room as int) == sum + still_won(
                cands@,
                blocked@,
                j as int,
                rem as int,
            ),
        decreases m - j,
    {
        let c = cands[j];
        assert(cands@[j as int].type_idx < ts.len());
        if !blocked[c.type_idx] {
            proof {
                lemma_counts_more(cands@, ts, greedy, j as int);
                lemma_profit_bound(cands@, greedy.update(j as int, true));
            }
            if c.area <= rem {
                sum = sum + c.profit as u128;
                rem = rem - c.area;
                proof {
                    greedy = greedy.update(j as int, true);
                }
            } else {
                proof {
                    assert(c.profit * rem <= 0xffff_ffff_ffff_ffff * 0xffff_ffff_ffff_ffff)
                        by (nonlinear_arith)
                        requires
                            0 <= c.profit <= 0xffff_ffff_ffff_ffff,
                            0 <= rem <= 0xffff_ffff_ffff_ffff,
                    ;
                }
                let part: u128 = c.profit as u128 * rem as u128 / c.area as u128;
                proof {
                    let (p, l, a) = (c.profit as int, rem as int, c.area as int);
                    assert(p * l <= p * a) by (nonlinear_arith)
                        requires
                            p >= 0,
                            l <= a,
                    ;
                    vstd::arithmetic::div_mod::lemma_div_is_ordered(p * l, p * a, a);
                    vstd::arithmetic::div_mod::lemma_div_by_multiple(p, a);
                    assert(part == p * l / a);
                    assert(part <= p);
                    if profit(cands@, cur) + sum + part <= THRESHOLD {
                        assert forall|sel: Seq<bool>|
                            {
                                &&& sel.len() == q.cands.len()
                                &&& (forall|i: int| 0 <= i < pos ==> sel[i] == cur[i])
                                &&& closed(q.cands, sel)
                                &&& #[trigger] q.good(sel)
                            } implies profit(q.cands, sel) <= THRESHOLD by {
                            lemma_good_area(q, sel);
                            assert forall|i: int| 0 <= i < pos implies #[trigger] sel[i]
                                == greedy[i] by {
                                assert(greedy[i] == cur[i]);
                            }
                            assert forall|i: int|
                                pos <= i < j && #[trigger] sel[i] implies greedy[i] by {
                                if blocked@[cands@[i].type_idx as int] {
                                    lemma_blocked_unused(q, st, cur, pos as int, sel, i);
                                }
                                assert(greedy[i] == !blocked@[cands@[i].type_idx as int]);
                            }
                            lemma_fraction_bound(
                                cands@,
                                ts,
                                sel,
                                greedy,
                                pos as int,
                                j as int,
                                q.sw * q.sh,
                            );
                        }
                    }
                }
                return sum + part;
            }
        }
        j += 1;
    }
    proof {
        lemma_profit_bound(cands@, greedy);
        if profit(cands@, cur) + sum <= THRESHOLD {
            assert forall|sel: Seq<bool>|
                {
                    &&& sel.len() == q.cands.len()
                    &&& (forall|i: int| 0 <= i < pos ==> sel[i] == cur[i])
                    &&& closed(q.cands, sel)
                    &&& #[trigger] q.good(sel)
                } implies profit(q.cands, sel) <= THRESHOLD by {
                assert forall|i: int| 0 <= i < m implies (if #[trigger] sel[i] {
                    profits(cands@)[i]
                } else {
                    0
                }) <= (if greedy[i] {
                    profits(cands@)[i]
                } else {
                    0
                }) by {
                    if i < pos {
                        assert(greedy[i] == cur[i]);
                    } else {
                        if sel[i] && blocked@[cands@[i].type_idx as int] {
                            lemma_blocked_unused(q, st, cur, pos as int, sel, i);
                        }
                        assert(greedy[i] == !blocked@[cands@[i].type_idx as int]);
                    }
                }
                lemma_picked_le(profits(cands@), sel, greedy, m);
            }
        }
    }
    sum
}

/// Profits add up to what a machine integer holds.
pub(crate) proof fn lemma_profit_bound(cands: Seq<Candidate>, sel: Seq<bool>)
    requires
        cands.len() <= u32::MAX,
    ensures
        0 <= profit(cands, sel) <= u128::MAX,
{
    let m = cands.len();
    lemma_picked_bound(profits(cands), sel, m, u64::MAX as int);
    assert(m * 0xffff_ffff_ffff_ffff <= 0xffff_ffff * 0xffff_ffff_ffff_ffff) by (nonlinear_arith)
        requires
            0 <= m <= 0xffff_ffff,
    ;
}

/// The chain function of a branch: without breakpoints before the first piece; else, where it
/// is kept, that of the pieces in the order in which they were included.
pub open spec fn tracks(q: Quest, list: Seq<usize>, chain: Option<Seq<(u32, u32)>>) -> bool {
    match chain {
        Some(f) => if list.len() == 0 {
            f.len() == 0
        } else {
            f.len() > 0 && chain_function(q.types, types_at(q.cands, list), q.sw, q.sh, f)
        },
        None => true,
    }
}

/// What the chain function says.
pub open spec fn chain_view(chain: Option<&StepFn>) -> Option<Seq<(u32, u32)>> {
    match chain {
        Some(f) => Some(f@),
        None => None,
    }
}

/// Whether one more copy can be included.
enum Include {
    Infeasible,
    /// It can; with the chain function afterwards where the chain still follows.
    Feasible(Option<StepFn>),
}

spec fn kept(f: Option<StepFn>) -> Option<Seq<(u32, u32)>> {
    match f {
        Some(f) => Some(f@),
        None => None,
    }
}

/// A function with breakpoints inside the sheet reaches the sheet's sides.
pub(crate) proof fn lemma_reaches_sheet(f: Seq<(u32, u32)>, sw: int, sh: int)
    requires
        stepped(f),
        super::fitting::inside(f, sw, sh),
        f.len() > 0,
    ensures
        reaches(f, sw, sh),
{
    super::fitting::lemma_reaches(f, sw, sh);
    assert(f[0].0 <= sw && f[0].1 <= sh);
}

fn copy_chain(f: &StepFn) -> (r: StepFn)
    ensures
        r@ == f@,
{
    let mut out: StepFn = Vec::new();
    while out.len() < f.len()
        invariant
            out@.len() <= f@.len(),
            out@ =~= f@.take(out@.len() as int),
        decreases f@.len() - out@.len(),
    {
        out.push(f[out.len()]);
    }
    assert(out@ =~= f@);
    out
}

/// Whether the pieces counted and one more of a type can be cut from a sheet: by the chain where
/// it still follows, else by the layout function of the multiset.
fn feasible_with(
    types: &Vec<PType>,
    oracle: &mut GlfOracle,
    counts: &Vec<u32>,
    t: usize,
    chain: Option<&StepFn>,
    Ghost(q): Ghost<Quest>,
    Ghost(list): Ghost<Seq<usize>>,
    Ghost(pos): Ghost<usize>,
) -> (r: Result<Include, Exhausted>)
    requires
        q.ok(),
        q.types == types@,
        t < types@.len(),
        places(list.push(pos), q.cands.len()),
        pos < q.cands.len(),
        q.cands[pos as int].type_idx == t,
        nats(counts@) == tally(types_at(q.cands, list), q.types.len()),
        counts@.len() == types@.len(),
        counts@[t as int] < u32::MAX,
        old(oracle).wf(kinds(types@)),
        old(oracle).sheet_w == q.sw,
        old(oracle).sheet_h == q.sh,
        tracks(q, list, chain_view(chain)),
    ensures
        final(oracle).wf(kinds(types@)),
        final(oracle).follows(*old(oracle)),
        ({
            let next = types_at(q.cands, list.push(pos));
            if chain is Some && chain_fits(kinds(types@), next, q.sw, q.sh) {
                &&& final(oracle).work() == old(oracle).work()
                &&& r matches Ok(Include::Feasible(Some(_)))
            } else {
                &&& (Evaluation { work: final(oracle).work(), done: r is Ok }) == evaluated(
                    old(oracle).terms(kinds(types@)),
                    old(oracle).work(),
                    tally(next, q.types.len()),
                )
                &&& r matches Ok(Include::Feasible(f)) ==> f is None
            }
        }),
        match r {
            Ok(Include::Infeasible) => !fits(
                kinds(types@),
                one_more(nats(counts@), t as int),
                q.sw,
                q.sh,
            ),
            Ok(Include::Feasible(f)) => {
                &&& fits(kinds(types@), one_more(nats(counts@), t as int), q.sw, q.sh)
                &&& tracks(q, list.push(pos), kept(f))
            },
            Err(_) => final(oracle).exhausted() && old(oracle).short_for(
                one_more(nats(counts@), t as int),
            ),
        },
        r is Ok ==> spent(
            old(oracle).work(),
            final(oracle).work(),
            one_more(nats(counts@), t as int),
        ),
{
    let ghost c = nats(counts@);
    let ghost d = one_more(c, t as int);
    proof {
        lemma_spent_none(oracle.work(), d);
        lemma_one_more(c, t as int);
        assert(types@[t as int].based(q.sw, q.sh));
        lemma_types_push(q, list, pos);
    }
    let ghost now = types_at(q.cands, list.push(pos));
    if let Some(prefix) = chain {
        let base = &types[t].base;
        let f = if prefix.len() == 0 {
            copy_chain(base)
        } else {
            compose(prefix, base, oracle.sheet_w, oracle.sheet_h)
        };
        proof {
            let front = types_at(q.cands, list);
            if list.len() == 0 {
                lemma_chain_begins(types@, t, q.sw, q.sh);
                assert(now =~= seq![t]);
            } else {
                assert(composed(prefix@, base@, q.sw, q.sh, f@));
                lemma_chain_grows(types@, front, t, q.sw, q.sh, prefix@, f@);
            }
            assert(reaches(f@, q.sw, q.sh) <==> chain_fits(kinds(types@), now, q.sw, q.sh));
        }
        if f.len() > 0 {
            proof {
                lemma_reaches_sheet(f@, q.sw, q.sh);
                assert forall|i: int| 0 <= i < now.len() implies (#[trigger] now[i])
                    < types@.len() by {
                    assert(list.push(pos)[i] < q.cands.len());
                    assert(q.cands[list.push(pos)[i] as int].type_idx < q.types.len());
                }
                lemma_in_turn_fits(kinds(types@), now, q.sw, q.sh);
            }
            return Ok(Include::Feasible(Some(f)));
        }
    }
    let mut key: Vec<u32> = Vec::new();
    while key.len() < counts.len()
        invariant
            key@.len() <= counts@.len(),
            t < counts@.len(),
            counts@[t as int] < u32::MAX,
            forall|i: int|
                0 <= i < key@.len() ==> #[trigger] key@[i] == counts@[i] + (if i == t {
                    1int
                } else {
                    0int
                }),
        decreases counts@.len() - key@.len(),
    {
        let i: usize = key.len();
        if i == t {
            key.push(counts[i] + 1);
        } else {
            key.push(counts[i]);
        }
    }
    assert(nats(key@) =~= d);
    let f = oracle.eval(types, &key)?;
    if f.len() == 0 {
        proof {
            assert(!reaches(f@, q.sw, q.sh));
        }
        Ok(Include::Infeasible)
    } else {
        proof {
            lemma_reaches_sheet(f@, q.sw, q.sh);
        }
        Ok(Include::Feasible(None))
    }
}

/// Including the next candidate.
proof fn lemma_include(q: Quest, st: Search, cur: Seq<bool>, pos: int, st2: Search)
    requires
        q.ok(),
        holds(q, st, cur, pos),
        pos < q.cands.len(),
        fits(
            kinds(q.types),
            one_more(counts(q.cands, q.types.len(), cur), q.cands[pos].type_idx as int),
            q.sw,
            q.sh,
        ),
        q.constraints.compatible(
            one_more(counts(q.cands, q.types.len(), cur), q.cands[pos].type_idx as int),
        ),
        st.area + q.cands[pos].area <= q.sw * q.sh,
        nats(st2.counts@) == one_more(nats(st.counts@), q.cands[pos].type_idx as int),
        st2.blocked@ == st.blocked@,
        st2.includes@ == st.includes@.push(pos as usize),
        st2.profit == st.profit + q.cands[pos].profit,
        st2.area == st.area + q.cands[pos].area,
    ensures
        holds(q, st2, cur.update(pos, true), pos + 1),
{
    let now = cur.update(pos, true);
    let ts = kinds(q.types);
    lemma_counts_more(q.cands, ts, cur, pos);
    assert forall|t: int| 0 <= t < q.types.len() implies (#[trigger] st2.blocked@[t]
        <==> passed_over(q.cands, now, pos + 1, t)) by {
        assert(st.blocked@[t] <==> passed_over(q.cands, cur, pos, t));
        if passed_over(q.cands, cur, pos, t) {
            let i = choose|i: int|
                0 <= i < pos && (#[trigger] q.cands[i]).type_idx == t && !cur[i];
            assert(q.cands[i].type_idx == t && !now[i]);
        }
        if passed_over(q.cands, now, pos + 1, t) {
            let i = choose|i: int|
                0 <= i < pos + 1 && (#[trigger] q.cands[i]).type_idx == t && !now[i];
            assert(i < pos);
            assert(q.cands[i].type_idx == t && !cur[i]);
        }
    }
    let (a, b) = (st.includes@, st2.includes@);
    assert(includes_of(b, now)) by {
        assert forall|i: int, j: int| 0 <= i < j < b.len() implies #[trigger] b[i]
            < #[trigger] b[j] by {
            if j == a.len() {
                assert(a[i] < cur.len() && cur[a[i] as int]);
            } else {
                assert(a[i] < a[j]);
            }
        }
        assert forall|i: int| 0 <= i < b.len() implies (#[trigger] b[i]) < now.len()
            && now[b[i] as int] by {
            if i < a.len() {
                assert(a[i] < cur.len() && cur[a[i] as int]);
            }
        }
        assert forall|p: int| 0 <= p < now.len() && #[trigger] now[p] implies b.contains(
            p as usize,
        ) by {
            if p == pos {
                assert(b[a.len() as int] == p as usize);
            } else {
                assert(cur[p]);
                let i = choose|i: int| 0 <= i < a.len() && a[i] == p as usize;
                assert(b[i] == p as usize);
            }
        }
    }
}

/// Passing the next candidate over.
proof fn lemma_exclude(q: Quest, st: Search, cur: Seq<bool>, pos: int, st2: Search)
    requires
        q.ok(),
        holds(q, st, cur, pos),
        pos < q.cands.len(),
        st2.counts@ == st.counts@,
        st2.blocked@ == st.blocked@.update(q.cands[pos].type_idx as int, true),
        st2.includes@ == st.includes@,
        st2.profit == st.profit,
        st2.area == st.area,
    ensures
        holds(q, st2, cur, pos + 1),
{
    assert(q.cands[pos].type_idx < kinds(q.types).len());
    assert forall|t: int| 0 <= t < q.types.len() implies (#[trigger] st2.blocked@[t]
        <==> passed_over(q.cands, cur, pos + 1, t)) by {
        assert(st.blocked@[t] <==> passed_over(q.cands, cur, pos, t));
        if passed_over(q.cands, cur, pos, t) {
            let i = choose|i: int|
                0 <= i < pos && (#[trigger] q.cands[i]).type_idx == t && !cur[i];
            assert(q.cands[i].type_idx == t && !cur[i]);
        }
        if t == q.cands[pos].type_idx {
            assert(q.cands[pos].type_idx == t && !cur[pos]);
        }
    }
}

/// Passing over candidates of blocked types decides nothing.
proof fn lemma_skip(q: Quest, st: Search, cur: Seq<bool>, pos: int, next: int)
    requires
        q.ok(),
        holds(q, st, cur, pos),
        pos <= next <= q.cands.len(),
        forall|i: int| pos <= i < next ==> st.blocked@[(#[trigger] q.cands[i]).type_idx as int],
    ensures
        holds(q, st, cur, next),
{
    assert forall|t: int| 0 <= t < q.types.len() implies (#[trigger] st.blocked@[t]
        <==> passed_over(q.cands, cur, next, t)) by {
        assert(st.blocked@[t] <==> passed_over(q.cands, cur, pos, t));
        if passed_over(q.cands, cur, pos, t) {
            let i = choose|i: int|
                0 <= i < pos && (#[trigger] q.cands[i]).type_idx == t && !cur[i];
            assert(q.cands[i].type_idx == t && !cur[i]);
        }
        if passed_over(q.cands, cur, next, t) {
            let i = choose|i: int|
                0 <= i < next && (#[trigger] q.cands[i]).type_idx == t && !cur[i];
            if i >= pos {
                assert(st.blocked@[q.cands[i].type_idx as int]);
            }
        }
    }
}

/// Where the next candidate cannot be included, every selection that goes on passes it over.
proof fn lemma_cannot_include(q: Quest, st: Search, cur: Seq<bool>, pos: int, sel: Seq<bool>)
    requires
        q.ok(),
        holds(q, st, cur, pos),
        pos < q.cands.len(),
        sel.len() == q.cands.len(),
        forall|i: int| 0 <= i < pos ==> sel[i] == cur[i],
        q.good(sel),
        sel[pos],
    ensures
        fits(
            kinds(q.types),
            one_more(counts(q.cands, q.types.len(), cur), q.cands[pos].type_idx as int),
            q.sw,
            q.sh,
        ),
        q.constraints.compatible(
            one_more(counts(q.cands, q.types.len(), cur), q.cands[pos].type_idx as int),
        ),
        st.area + q.cands[pos].area <= q.sw * q.sh,
{
    let ts = kinds(q.types);
    let n = q.types.len();
    let now = cur.update(pos, true);
    lemma_counts_more(q.cands, ts, cur, pos);
    assert forall|i: int| 0 <= i < now.len() && #[trigger] now[i] implies sel[i] by {
        if i < pos {
            assert(sel[i] == cur[i]);
        }
    }
    lemma_counts_part(q.cands, n, now, sel);
    let (c, d) = (counts(q.cands, n, now), counts(q.cands, n, sel));
    law_fits_with_fewer(ts, d, c, q.sw, q.sh);
    lemma_area_counts(q.cands, ts, now);
    law_fits_by_area(ts, c, q.sw, q.sh);
    assert forall|k: int| 0 <= k < q.constraints.forbidden@.len() implies !(c[(
    #[trigger] q.constraints.forbidden@[k]).0 as int] > 0
        && c[q.constraints.forbidden@[k].1 as int] > 0) by {
        let (a, b) = q.constraints.forbidden@[k];
        assert(c[a as int] <= d[a as int]);
        assert(c[b as int] <= d[b as int]);
    }
}

/// Nothing is to be hoped for where neither including nor passing over leaves hope.
proof fn lemma_both_hopeless(q: Quest, cur: Seq<bool>, pos: int)
    requires
        0 <= pos < q.cands.len(),
        cur.len() == q.cands.len(),
        !cur[pos],
        q.hopeless(cur, pos + 1),
        forall|sel: Seq<bool>|
            {
                &&& sel.len() == q.cands.len()
                &&& (forall|i: int| 0 <= i < pos ==> sel[i] == cur[i])
                &&& sel[pos]
                &&& closed(q.cands, sel)
                &&& #[trigger] q.good(sel)
            } ==> profit(q.cands, sel) <= THRESHOLD,
    ensures
        q.hopeless(cur, pos),
{
    assert forall|sel: Seq<bool>|
        {
            &&& sel.len() == q.cands.len()
            &&& (forall|i: int| 0 <= i < pos ==> sel[i] == cur[i])
            &&& closed(q.cands, sel)
            &&& #[trigger] q.good(sel)
        } implies profit(q.cands, sel) <= THRESHOLD by {
        if !sel[pos] {
            assert forall|i: int| 0 <= i < pos + 1 implies sel[i] == cur[i] by {}
        }
    }
}

/// Whether a copy of type `t` goes with the types that are there.
pub(crate) fn forbidden_with_included(constraints: &BranchConstraints, counts: &Vec<u32>, t: usize) -> (r: bool)
    requires
        constraints.about(counts@.len()),
        t < counts@.len(),
        constraints.compatible(nats(counts@)),
    ensures
        r == !constraints.compatible(one_more(nats(counts@), t as int)),
{
    let ghost c = nats(counts@);
    let ghost d = one_more(c, t as int);
    let mut k: usize = 0;
    while k < constraints.forbidden.len()
        invariant
            k <= constraints.forbidden@.len(),
            constraints.about(counts@.len()),
            t < counts@.len(),
            c == nats(counts@),
            d == one_more(c, t as int),
            constraints.compatible(c),
            forall|i: int|
                0 <= i < k ==> !(d[(#[trigger] constraints.forbidden@[i]).0 as int] > 0
                    && d[constraints.forbidden@[i].1 as int] > 0),
        decreases constraints.forbidden@.len() - k,
    {
        let (a, b) = constraints.forbidden[k];
        assert(constraints.forbidden@[k as int].0 < constraints.forbidden@[k as int].1);
        assert(!(c[constraints.forbidden@[k as int].0 as int] > 0
            && c[constraints.forbidden@[k as int].1 as int] > 0));
        if a == t {
            if counts[b] > 0 {
                assert(d[constraints.forbidden@[k as int].0 as int] > 0);
                return true;
            }
        } else if b == t {
            if counts[a] > 0 {
                assert(d[constraints.forbidden@[k as int].0 as int] > 0);
                return true;
            }
        }
        k += 1;
    }
    false
}

/// Whether types that go together are both there or both not.
pub(crate) fn satisfies_forced(constraints: &BranchConstraints, counts: &Vec<u32>) -> (r: bool)
    requires
        constraints.about(counts@.len()),
    ensures
        r == constraints.paired(nats(counts@)),
{
    let ghost c = nats(counts@);
    let mut k: usize = 0;
    while k < constraints.forced_together.len()
        invariant
            k <= constraints.forced_together@.len(),
            constraints.about(counts@.len()),
            c == nats(counts@),
            forall|i: int|
                0 <= i < k ==> (c[(#[trigger] constraints.forced_together@[i]).0 as int] > 0) == (
                c[constraints.forced_together@[i].1 as int] > 0),
        decreases constraints.forced_together@.len() - k,
    {
        let (a, b) = constraints.forced_together[k];
        assert(constraints.forced_together@[k as int].0 < constraints.forced_together@[k as int].1);
        if (counts[a] > 0) != (counts[b] > 0) {
            assert((c[constraints.forced_together@[k as int].0 as int] > 0) != (c[
            constraints.forced_together@[k as int].1 as int] > 0));
            return false;
        }
        k += 1;
    }
    true
}

/// Counts of selected candidates are no more than there are candidates.
proof fn lemma_count_bound(cands: Seq<Candidate>, n: nat, sel: Seq<bool>, t: int)
    requires
        0 <= t < n,
        sel.len() == cands.len(),
    ensures
        counts(cands, n, sel)[t] <= cands.len(),
{
    lemma_picked_bound(of_type(cands, t), sel, cands.len(), 1);
}

/// A selection that leaves out a candidate of its type counts fewer of it than there are.
pub(crate) proof fn lemma_room_for_one(cands: Seq<Candidate>, types: Seq<GpfType>, sel: Seq<bool>, pos: int)
    requires
        ranked_by_density(cands, types),
        sel.len() == cands.len(),
        0 <= pos < cands.len(),
        !sel[pos],
    ensures
        counts(cands, types.len(), sel)[cands[pos].type_idx as int] < cands.len(),
        profit(cands, sel) + cands[pos].profit == profit(cands, sel.update(pos, true)),
{
    lemma_counts_more(cands, types, sel, pos);
    lemma_count_bound(cands, types.len(), sel.update(pos, true), cands[pos].type_idx as int);
}

/// The number of nodes of a search over `k` candidates, at most.
pub open spec fn tree_size(k: nat) -> nat
    decreases k,
{
    if k == 0 {
        1
    } else {
        1 + 2 * tree_size((k - 1) as nat)
    }
}

pub(crate) proof fn lemma_tree_size(a: nat, b: nat)
    requires
        a <= b,
    ensures
        1 <= tree_size(a) <= tree_size(b),
    decreases b,
{
    if a < b {
        lemma_tree_size(a, (b - 1) as nat);
    } else if b > 0 {
        lemma_tree_size((b - 1) as nat, (b - 1) as nat);
    }
}

/// Searches on from candidate `first`.
#[verifier::rlimit(40)]
pub(crate) fn dfs(
    types: &Vec<PType>,
    cands: &Vec<Candidate>,
    constraints: &BranchConstraints,
    oracle: &mut GlfOracle,
    st: &mut Search,
    max_nodes: usize,
    sheet_area: u64,
    first: usize,
    chain: Option<&StepFn>,
    Ghost(q): Ghost<Quest>,
    Ghost(cur): Ghost<Seq<bool>>,
) -> (r: Result<bool, Exhausted>)
    requires
        q.ok(),
        q.types == types@,
        q.cands == cands@,
        q.constraints == *constraints,
        sheet_area == q.sw * q.sh,
        old(oracle).wf(kinds(types@)),
        old(oracle).sheet_w == q.sw,
        old(oracle).sheet_h == q.sh,
        holds(q, *old(st), cur, first as int),
        tracks(q, old(st).includes@, chain_view(chain)),
    ensures
        final(oracle).wf(kinds(types@)),
        final(oracle).follows(*old(oracle)),
        (Walk {
            nodes: final(st).nodes as nat,
            work: final(oracle).work(),
            end: match r {
                Ok(true) => WalkEnd::Found(final(st).includes@),
                Ok(false) => WalkEnd::Nothing,
                Err(_) => WalkEnd::Stopped,
            },
        }) == walked(
            q,
            old(oracle).terms(kinds(types@)),
            max_nodes as nat,
            old(st).nodes as nat,
            old(oracle).work(),
            trail_of(*old(st), chain is Some),
            first as int,
        ),
        match r {
            Ok(true) => found(q, *final(st)),
            Ok(false) => same_decisions(*final(st), *old(st)) && q.hopeless(cur, first as int),
            Err(_) => {
                &&& final(oracle).exhausted() || final(st).nodes >= max_nodes
                &&& old(oracle).short_for(q.whole()) || old(st).nodes + tree_size(
                    (cands@.len() - first) as nat,
                ) > max_nodes
            },
        },
        final(st).nodes >= old(st).nodes,
        r is Ok ==> {
            &&& spent(old(oracle).work(), final(oracle).work(), q.whole())
            &&& final(st).nodes <= old(st).nodes + tree_size((cands@.len() - first) as nat)
        },
    decreases cands@.len() - first,
{
    let ghost (w0, n0) = (oracle.work(), st.nodes as int);
    let ghost (max_cells, max_splits) = (oracle.max_cells as int, oracle.max_splits as int);
    let ghost size = tree_size((cands@.len() - first) as nat) as int;
    proof {
        lemma_spent_none(w0, q.whole());
    }
    if st.nodes >= max_nodes {
        return Err(Exhausted);
    }
    st.nodes = st.nodes + 1;
    let mut pos: usize = first;
    let ghost terms = oracle.terms(kinds(types@));
    let ghost tr = trail_of(*st, chain is Some);
    let ghost goal = walked_at(
        q,
        terms,
        max_nodes as nat,
        st.nodes as nat,
        w0,
        tr,
        first as int,
    );
    while pos < cands.len() && st.blocked[cands[pos].type_idx]
        invariant
            st.blocked@ == tr.blocked,
            goal == walked_at(q, terms, max_nodes as nat, st.nodes as nat, w0, tr, pos as int),
            first <= pos <= cands@.len(),
            q.ok(),
            q.types == types@,
            q.cands == cands@,
            st.blocked@.len() == q.types.len(),
            forall|i: int|
                first <= i < pos ==> st.blocked@[(#[trigger] q.cands[i]).type_idx as int],
            forall|i: int|
                0 <= i < cands@.len() ==> (#[trigger] cands@[i]).type_idx < types@.len(),
        decreases cands@.len() - pos,
    {
        pos += 1;
    }
    let ghost ts = kinds(types@);
    proof {
        lemma_skip(q, *st, cur, first as int, pos as int);
        lemma_state(q, *st, cur, pos as int);
    }
    let ghost st0 = *st;
    if pos == cands.len() {
        let good = st.profit > THRESHOLD as u128 && satisfies_forced(constraints, &st.counts);
        proof {
            if good {
                assert(q.good(cur));
                assert(includes_of(st.includes@, cur));
            } else {
                assert forall|sel: Seq<bool>|
                    {
                        &&& sel.len() == q.cands.len()
                        &&& (forall|i: int| 0 <= i < pos ==> sel[i] == cur[i])
                        &&& closed(q.cands, sel)
                        &&& #[trigger] q.good(sel)
                    } implies profit(q.cands, sel) <= THRESHOLD by {
                    assert(sel =~= cur);
                }
                lemma_hopeless_skip(q, st0, cur, first as int, pos as int);
            }
        }
        return Ok(good);
    }
    let bound: u128 = frac_bound(
        cands,
        &st.blocked,
        pos,
        sheet_area - st.area,
        Ghost(q),
        Ghost(*st),
        Ghost(cur),
    );
    if st.profit + bound <= THRESHOLD as u128 {
        proof {
            lemma_hopeless_skip(q, st0, cur, first as int, pos as int);
        }
        return Ok(false);
    }
    let c = cands[pos];
    let t: usize = c.type_idx;
    proof {
        lemma_room_for_one(cands@, ts, cur, pos as int);
        lemma_profit_bound(cands@, cur.update(pos as int, true));
        assert(nats(st.counts@)[t as int] == st.counts@[t as int]);
    }
    let ghost now = cur.update(pos as int, true);
    proof {
        lemma_push_selection(st.includes@, pos, cands@.len());
        lemma_types_push(q, st.includes@, pos);
    }
    let ghost trial = tried_with(q, terms, w0, tr, pos as int);
    let ghost mut tried = false;
    let ghost below = tree_size((cands@.len() - (pos + 1)) as nat) as int;
    proof {
        lemma_tree_size((cands@.len() - (pos + 1)) as nat, (cands@.len() - first - 1) as nat);
        assert(1 + 2 * below <= size);
    }
    if c.area <= sheet_area - st.area && !forbidden_with_included(constraints, &st.counts, t) {
        let ghost d = one_more(nats(st.counts@), t as int);
        proof {
            lemma_counts_more(cands@, ts, cur, pos as int);
            lemma_counts_part(
                cands@,
                q.types.len(),
                now,
                Seq::new(cands@.len(), |i: int| true),
            );
            assert(part_of(d, q.whole()));
            lemma_total_part(d, q.whole());
        }
        let verdict = match feasible_with(
            types,
            oracle,
            &st.counts,
            t,
            chain,
            Ghost(q),
            Ghost(st.includes@),
            Ghost(pos),
        ) {
            Ok(verdict) => verdict,
            Err(x) => {
                proof {
                    lemma_starved_before(w0, w0, 0, max_cells, max_splits, d, q.whole());
                }
                return Err(x);
            },
        };
        proof {
            lemma_spent_wider(w0, oracle.work(), d, q.whole());
        }
        let ghost w1 = oracle.work();
        match verdict {
            Include::Feasible(child) => {
                let ghost before = *st;
                let k: u32 = st.counts[t];
                st.counts.set(t, k + 1);
                st.includes.push(pos);
                st.profit = st.profit + c.profit as u128;
                st.area = st.area + c.area;
                proof {
                    assert(nats(st.counts@) =~= one_more(nats(before.counts@), t as int));
                    lemma_include(q, before, cur, pos as int, *st);
                    lemma_counts_more(cands@, ts, cur, pos as int);
                    lemma_state(q, *st, now, pos + 1);
                    tried = true;
                }
                if st.profit > THRESHOLD as u128 && satisfies_forced(constraints, &st.counts) {
                    proof {
                        assert(q.good(now));
                        assert(includes_of(st.includes@, now));
                    }
                    return Ok(true);
                }
                let next_chain: Option<&StepFn> = match &child {
                    Some(f) => Some(f),
                    None => None,
                };
                let deeper = match dfs(
                    types,
                    cands,
                    constraints,
                    oracle,
                    st,
                    max_nodes,
                    sheet_area,
                    pos + 1,
                    next_chain,
                    Ghost(q),
                    Ghost(now),
                ) {
                    Ok(deeper) => deeper,
                    Err(x) => {
                        proof {
                            assert(part_of(q.whole(), q.whole()));
                            if starved(w1, max_cells, max_splits, q.whole()) {
                                lemma_starved_before(
                                    w0,
                                    w1,
                                    0,
                                    max_cells,
                                    max_splits,
                                    q.whole(),
                                    q.whole(),
                                );
                            }
                        }
                        return Err(x);
                    },
                };
                proof {
                    lemma_spent_trans(w0, w1, oracle.work(), q.whole());
                }
                if deeper {
                    return Ok(true);
                }
                st.counts.set(t, k);
                st.includes.pop();
                st.profit = st.profit - c.profit as u128;
                st.area = st.area - c.area;
                proof {
                    assert(st.counts@ =~= before.counts@);
                    assert(st.includes@ =~= before.includes@);
                    assert(same_decisions(*st, before));
                    assert(q.hopeless(now, pos + 1));
                }
            },
            Include::Infeasible => {},
        }
    }
    proof {
        assert(same_decisions(*st, st0));
        assert(holds(q, *st, cur, pos as int));
        assert forall|sel: Seq<bool>|
            {
                &&& sel.len() == q.cands.len()
                &&& (forall|i: int| 0 <= i < pos ==> sel[i] == cur[i])
                &&& sel[pos as int]
                &&& closed(q.cands, sel)
                &&& #[trigger] q.good(sel)
            } implies profit(q.cands, sel) <= THRESHOLD by {
            lemma_cannot_include(q, st0, cur, pos as int, sel);
            assert(tried);
            assert forall|i: int| 0 <= i < pos + 1 implies sel[i] == now[i] by {}
        }
    }
    st.blocked.set(t, true);
    proof {
        lemma_exclude(q, st0, cur, pos as int, *st);
        assert(spent(w0, oracle.work(), q.whole()));
        assert(st.nodes <= n0 + 1 + below);
    }
    let ghost w2 = oracle.work();
    let r = match dfs(
        types,
        cands,
        constraints,
        oracle,
        st,
        max_nodes,
        sheet_area,
        pos + 1,
        chain,
        Ghost(q),
        Ghost(cur),
    ) {
        Ok(r) => r,
        Err(x) => {
            proof {
                assert(part_of(q.whole(), q.whole()));
                if starved(w2, max_cells, max_splits, q.whole()) {
                    lemma_starved_before(
                        w0,
                        w2,
                        0,
                        max_cells,
                        max_splits,
                        q.whole(),
                        q.whole(),
                    );
                }
            }
            return Err(x);
        },
    };
    proof {
        lemma_spent_trans(w0, w2, oracle.work(), q.whole());
    }
    if r {
        return Ok(true);
    }
    st.blocked.set(t, false);
    proof {
        assert(st.blocked@ =~= st0.blocked@) by {
            assert(!st0.blocked@[t as int]);
        }
        lemma_both_hopeless(q, cur, pos as int);
        lemma_hopeless_skip(q, st0, cur, first as int, pos as int);
    }
    Ok(false)
}

} // verus!
