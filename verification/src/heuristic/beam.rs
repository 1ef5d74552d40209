use vstd::prelude::*;

use super::common::{place_into, product, PieceRanking, SortDir, SortKey};
use super::choices::{lemma_best_place_lays, smallest_room};
use super::gbaf::{
    all_fit, best_place, by_area, find_best_place, find_roomy_direction, lemma_best_place,
    lemma_order_complete, roomy_direction,
};
use crate::laying::{lays, room, turned_as_wished};
use crate::model::{FreeRect, Placement, Problem, Solution};
use crate::packing::{
    coherent, complete, few_sheets, fresh, lemma_coherent_sliced, lemma_free_within, lemma_fresh,
    lemma_placed, pack_of, placed, placed_indices, sliced, Pack,
};
use crate::slas::decoder::{fits_sheet, sheet_rect, slas_direction};
use crate::sorting::{in_order, order_of, ranked, Order, Ranking};
use crate::tiling::{
    lemma_tiles_fresh, lemma_tiles_opened, lemma_tiles_placed, tiled, tiles,
};
use crate::turning::turned_as_allowed;

verus! {

/// Free area on all sheets but the last.
pub open spec fn stranded(free: Seq<FreeRect>, last: int) -> int
    decreases free.len(),
{
    if free.len() == 0 {
        0
    } else {
        let rest = stranded(free.drop_last(), last);
        if free.last().sheet_idx < last {
            rest + free.last().area()
        } else {
            rest
        }
    }
}

/// Area of the largest free rectangle of the last sheet, 0 without any.
pub open spec fn largest_on(free: Seq<FreeRect>, last: int) -> int
    decreases free.len(),
{
    if free.len() == 0 {
        0
    } else {
        let rest = largest_on(free.drop_last(), last);
        if free.last().sheet_idx == last && free.last().area() > rest {
            free.last().area()
        } else {
            rest
        }
    }
}

/// States by number of sheets, then by free area that is stranded on earlier sheets, then by
/// decreasing size of the largest free rectangle of the last sheet.
pub struct StateOrder {
    pub states: Seq<Pack>,
}

/// `p` does not rank behind `q`.
pub open spec fn state_leq(p: Pack, q: Pack) -> bool {
    let (a, b) = (stranded(p.free, p.sheets - 1), stranded(q.free, q.sheets - 1));
    p.sheets < q.sheets || (p.sheets == q.sheets && (a < b || (a == b && largest_on(
        p.free,
        p.sheets - 1,
    ) >= largest_on(q.free, q.sheets - 1))))
}

impl Order for StateOrder {
    open spec fn ranks(self, i: int) -> bool {
        0 <= i < self.states.len()
    }

    open spec fn leq(self, a: int, b: int) -> bool {
        state_leq(self.states[a], self.states[b])
    }

    proof fn leq_total(self, a: int, b: int) {
    }

    proof fn leq_trans(self, a: int, b: int, c: int) {
    }
}

/// A candidate state of the search.
pub struct State {
    pub free: Vec<FreeRect>,
    pub placements: Vec<Placement>,
    pub sheets_open: usize,
}

impl State {
    pub open spec fn pack(self) -> Pack {
        pack_of(self.free@, self.placements@, self.sheets_open as int)
    }
}

pub open spec fn packs(states: Seq<State>) -> Seq<Pack> {
    Seq::new(states.len(), |i: int| states[i].pack())
}

/// What a state is ranked by.
struct Grade {
    sheets_open: usize,
    stranded: u128,
    largest: u64,
}

struct StateRanking<'a> {
    states: &'a Vec<State>,
    grades: &'a Vec<Grade>,
}

spec fn graded(states: Seq<State>, grades: Seq<Grade>) -> bool {
    &&& grades.len() == states.len()
    &&& forall|i: int|
        0 <= i < states.len() ==> {
            let p = (#[trigger] states[i]).pack();
            &&& grades[i].sheets_open == p.sheets
            &&& grades[i].stranded == stranded(p.free, p.sheets - 1)
            &&& grades[i].largest == largest_on(p.free, p.sheets - 1)
        }
}

struct GradedOrder {
    states: Seq<Pack>,
    sound: bool,
}

impl Order for GradedOrder {
    closed spec fn ranks(self, i: int) -> bool {
        0 <= i < self.states.len() && self.sound
    }

    closed spec fn leq(self, a: int, b: int) -> bool {
        state_leq(self.states[a], self.states[b])
    }

    proof fn leq_total(self, a: int, b: int) {
    }

    proof fn leq_trans(self, a: int, b: int, c: int) {
    }
}

impl<'a> Ranking for StateRanking<'a> {
    type Of = GradedOrder;

    closed spec fn order(&self) -> GradedOrder {
        GradedOrder {
            states: packs(self.states@),
            sound: graded(self.states@, self.grades@),
        }
    }

    fn at_most(&self, a: usize, b: usize) -> (r: bool) {
        let p = &self.grades[a];
        let q = &self.grades[b];
        assert(self.states@[a as int].pack() == packs(self.states@)[a as int]);
        assert(self.states@[b as int].pack() == packs(self.states@)[b as int]);
        if p.sheets_open != q.sheets_open {
            p.sheets_open < q.sheets_open
        } else if p.stranded != q.stranded {
            p.stranded < q.stranded
        } else {
            p.largest >= q.largest
        }
    }
}

/// The cut that is tried first: the one that leaves the longer strip whole, or the roomier one
/// where only one state is kept.
pub open spec fn first_direction(fr: FreeRect, pw: u32, ph: u32, alone: bool) -> bool {
    if alone {
        roomy_direction(fr, pw, ph)
    } else {
        slas_direction(fr, pw, ph, false)
    }
}

/// The states that come of `st` when piece `i` is placed where it wastes least: one for each
/// direction of the cut, or only one where both are the same.
pub open spec fn successors(problem: Problem, st: Pack, i: usize, alone: bool) -> Seq<Pack> {
    let (st2, spot) = best_place(problem, st, i as int);
    let fr = st2.free[spot.0];
    let dir = first_direction(fr, spot.1, spot.2, alone);
    let first = placed(st2, spot.0, i, spot.1, spot.2, spot.3, dir);
    let second = placed(st2, spot.0, i, spot.1, spot.2, spot.3, !dir);
    if fr.w > spot.1 && fr.h > spot.2 {
        seq![first, second]
    } else {
        seq![first]
    }
}

/// The successors of the first `n` states.
pub open spec fn all_successors(
    problem: Problem,
    beam: Seq<Pack>,
    i: usize,
    alone: bool,
    n: nat,
) -> Seq<Pack>
    decreases n,
{
    if n == 0 {
        Seq::empty()
    } else {
        all_successors(problem, beam, i, alone, (n - 1) as nat) + successors(
            problem,
            beam[n - 1],
            i,
            alone,
        )
    }
}

/// The best `width` states, in order.
pub open spec fn keep_best(states: Seq<Pack>, width: nat) -> Seq<Pack> {
    let order = order_of(StateOrder { states }, states.len());
    let n = if width < states.len() {
        width
    } else {
        states.len()
    };
    Seq::new(n, |k: int| states[order[k] as int])
}

/// The beam after the first `k` pieces of the order.
pub open spec fn beam_state(problem: Problem, order: Seq<usize>, width: nat, k: nat) -> Seq<Pack>
    decreases k,
{
    if k == 0 {
        seq![fresh(problem.sheet)]
    } else {
        let beam = beam_state(problem, order, width, (k - 1) as nat);
        keep_best(all_successors(problem, beam, order[k - 1], width == 1, beam.len()), width)
    }
}

/// What holds of every state of the beam after `k` pieces.
spec fn state_ok(problem: Problem, order: Seq<usize>, k: int, st: Pack) -> bool {
    &&& coherent(problem, st)
    &&& tiles(problem, st)
    &&& st.sheets <= (if k == 0 {
        1int
    } else {
        k
    })
    &&& k == 0 ==> st == fresh(problem.sheet)
    &&& placed_indices(st.placements) == order.take(k)
    &&& turned_as_allowed(problem, st.placements)
}

spec fn beam_ok(problem: Problem, order: Seq<usize>, k: int, beam: Seq<Pack>) -> bool {
    forall|j: int| 0 <= j < beam.len() ==> state_ok(problem, order, k, #[trigger] beam[j])
}

proof fn lemma_successor(
    problem: Problem,
    order: Seq<usize>,
    k: int,
    st: Pack,
    dir: bool,
)
    requires
        all_fit(problem),
        0 <= k < order.len() < usize::MAX,
        order[k] < problem.pieces.len(),
        state_ok(problem, order, k, st),
    ensures
        ({
            let (st2, spot) = best_place(problem, st, order[k] as int);
            state_ok(
                problem,
                order,
                k + 1,
                placed(
                    st2,
                    spot.0,
                    order[k],
                    spot.1,
                    spot.2,
                    spot.3,
                    dir,
                ),
            )
        }),
{
    let i = order[k];
    assert(fits_sheet(problem, i as int));
    lemma_best_place(problem, st, i as int);
    let (st2, spot) = best_place(problem, st, i as int);
    if st2 != st {
        lemma_tiles_opened(problem, st);
    }
    lemma_placed(problem, st2, spot.0, i, spot.1, spot.2, spot.3, dir);
    lemma_tiles_placed(problem, st2, spot.0, i, spot.1, spot.2, spot.3, dir);
    let now = placed(st2, spot.0, i, spot.1, spot.2, spot.3, dir);
    let p0 = placed_indices(st.placements);
    assert forall|j: int|
        0 <= j < now.placements.len() && (#[trigger] now.placements[j]).rotated implies
        problem.pieces@[now.placements[j].piece_idx as int].can_rotate by {
        if j < st.placements.len() {
            assert(now.placements[j] == st.placements[j]);
        }
    }
    assert(placed_indices(now.placements) =~= p0.push(i));
    assert(order.take(k + 1) =~= order.take(k).push(i));
}

fn copy_free(v: &Vec<FreeRect>) -> (r: Vec<FreeRect>)
    ensures
        r@ == v@,
{
    let mut out: Vec<FreeRect> = Vec::new();
    let mut k: usize = 0;
    while k < v.len()
        invariant
            k <= v.len(),
            out@ == v@.take(k as int),
        decreases v.len() - k,
    {
        out.push(v[k]);
        k += 1;
        assert(out@ =~= v@.take(k as int));
    }
    assert(v@.take(k as int) =~= v@);
    out
}

fn copy_placements(v: &Vec<Placement>) -> (r: Vec<Placement>)
    ensures
        r@ == v@,
{
    let mut out: Vec<Placement> = Vec::new();
    let mut k: usize = 0;
    while k < v.len()
        invariant
            k <= v.len(),
            out@ == v@.take(k as int),
        decreases v.len() - k,
    {
        out.push(v[k]);
        k += 1;
        assert(out@ =~= v@.take(k as int));
    }
    assert(v@.take(k as int) =~= v@);
    out
}

/// Replaces a state by its successors, which go to the end of `out`.
fn push_successors(
    problem: &Problem,
    st: &State,
    i: usize,
    alone: bool,
    out: &mut Vec<State>,
    Ghost(order): Ghost<Seq<usize>>,
    Ghost(k): Ghost<int>,
)
    requires
        all_fit(*problem),
        0 <= k < order.len() < usize::MAX,
        i == order[k],
        i < problem.pieces.len(),
        state_ok(*problem, order, k, st.pack()),
        beam_ok(*problem, order, k + 1, packs(old(out)@)),
    ensures
        packs(final(out)@) == packs(old(out)@) + successors(*problem, st.pack(), i, alone),
        beam_ok(*problem, order, k + 1, packs(final(out)@)),
{
    let mut free = copy_free(&st.free);
    let ghost start = packs(out@);
    proof {
        assert(fits_sheet(*problem, i as int));
        lemma_best_place(*problem, st.pack(), i as int);
        lemma_successor(*problem, order, k, st.pack(), false);
        lemma_successor(*problem, order, k, st.pack(), true);
    }
    let (sheets, spot) = find_best_place(
        problem,
        &mut free,
        st.sheets_open,
        i,
        Ghost(st.placements@),
    );
    let ghost st2 = pack_of(free@, st.placements@, sheets as int);
    proof {
        lemma_free_within(*problem, st2, spot.0 as int);
    }
    let fr = free[spot.0];
    let dir = if alone {
        find_roomy_direction(&fr, spot.1, spot.2)
    } else {
        fr.w - spot.1 <= fr.h - spot.2
    };
    let mut nf = copy_free(&free);
    let mut np = copy_placements(&st.placements);
    assert(pack_of(nf@, np@, sheets as int) == st2);
    place_into(&mut nf, &mut np, spot, i, dir);
    out.push(State { free: nf, placements: np, sheets_open: sheets });
    let ghost first = out@[out@.len() - 1].pack();
    assert(packs(out@) =~= start.push(first));
    if fr.w > spot.1 && fr.h > spot.2 {
        let mut mf = free;
        let mut mp = copy_placements(&st.placements);
        assert(pack_of(mf@, mp@, sheets as int) == st2);
        place_into(&mut mf, &mut mp, spot, i, !dir);
        out.push(State { free: mf, placements: mp, sheets_open: sheets });
        let ghost second = out@[out@.len() - 1].pack();
        assert(packs(out@) =~= start.push(first).push(second));
    }
    assert(packs(out@) =~= start + successors(*problem, st.pack(), i, alone));
}

fn grade(st: &State) -> (r: Grade)
    requires
        st.sheets_open >= 1,
    ensures
        r.sheets_open == st.sheets_open,
        r.stranded == stranded(st.free@, st.sheets_open - 1),
        r.largest == largest_on(st.free@, st.sheets_open - 1),
{
    let last: usize = st.sheets_open - 1;
    let mut sum: u128 = 0;
    let mut largest: u64 = 0;
    let mut k: usize = 0;
    assert(st.free@.take(0) =~= Seq::empty());
    while k < st.free.len()
        invariant
            k <= st.free.len(),
            last == st.sheets_open - 1,
            sum == stranded(st.free@.take(k as int), last as int),
            sum <= k * 0xffff_ffff_ffff_ffff,
            largest == largest_on(st.free@.take(k as int), last as int),
        decreases st.free.len() - k,
    {
        assert(st.free@.take(k + 1).drop_last() =~= st.free@.take(k as int));
        let fr = st.free[k];
        let area: u64 = product(fr.w, fr.h);
        assert(k * 0xffff_ffff_ffff_ffff + 0xffff_ffff_ffff_ffff
            <= 0xffff_ffff_ffff_ffff_ffff_ffff_ffff_ffff) by (nonlinear_arith)
            requires
                0 <= k < 0xffff_ffff_ffff_ffff,
        ;
        if fr.sheet_idx < last {
            sum = sum + area as u128;
        }
        if fr.sheet_idx == last && area > largest {
            largest = area;
        }
        k += 1;
    }
    assert(st.free@.take(k as int) =~= st.free@);
    Grade { sheets_open: st.sheets_open, stranded: sum, largest }
}

proof fn lemma_order_agrees(states: Seq<Pack>, s: Seq<usize>)
    requires
        in_order(GradedOrder { states, sound: true }, states.len(), s),
    ensures
        s == order_of(StateOrder { states }, states.len()),
{
    let o = StateOrder { states };
    assert(in_order(o, states.len(), s)) by {
        assert forall|i: int, j: int| 0 <= i < j < s.len() implies crate::sorting::precedes(
            o,
            #[trigger] s[i] as int,
            #[trigger] s[j] as int,
        ) by {
            assert(crate::sorting::precedes(
                GradedOrder { states, sound: true },
                s[i] as int,
                s[j] as int,
            ));
        }
    }
    crate::sorting::lemma_order_unique(o, states.len(), s, order_of(o, states.len()));
}

/// The best `width` of the states, in order.
fn select_best(states: Vec<State>, width: usize) -> (r: Vec<State>)
    requires
        forall|i: int| 0 <= i < states@.len() ==> (#[trigger] states@[i]).sheets_open >= 1,
    ensures
        packs(r@) == keep_best(packs(states@), width as nat),
        forall|i: int|
            0 <= i < r@.len() ==> packs(states@).contains((#[trigger] r@[i]).pack()),
        width >= 1 && states@.len() > 0 ==> r@.len() > 0,
{
    let n: usize = states.len();
    let mut grades: Vec<Grade> = Vec::new();
    let mut k: usize = 0;
    while k < n
        invariant
            k <= n,
            n == states@.len(),
            grades@.len() == k,
            forall|i: int| 0 <= i < states@.len() ==> (#[trigger] states@[i]).sheets_open >= 1,
            forall|i: int|
                0 <= i < k ==> {
                    let p = (#[trigger] states@[i]).pack();
                    &&& grades@[i].sheets_open == p.sheets
                    &&& grades@[i].stranded == stranded(p.free, p.sheets - 1)
                    &&& grades@[i].largest == largest_on(p.free, p.sheets - 1)
                },
        decreases n - k,
    {
        grades.push(grade(&states[k]));
        k += 1;
    }
    let rank = StateRanking { states: &states, grades: &grades };
    let order = ranked(&rank, n);
    proof {
        lemma_order_agrees(packs(states@), order@);
    }
    let m: usize = if width < n {
        width
    } else {
        n
    };
    let mut out: Vec<State> = Vec::new();
    let mut j: usize = 0;
    while j < m
        invariant
            j <= m <= n,
            n == states@.len(),
            order@.len() == n,
            forall|i: int| 0 <= i < order@.len() ==> #[trigger] order@[i] < n,
            out@.len() == j,
            forall|i: int|
                0 <= i < j ==> (#[trigger] out@[i]).pack() == states@[order@[i] as int].pack(),
        decreases m - j,
    {
        let st = &states[order[j]];
        let free = copy_free(&st.free);
        let placements = copy_placements(&st.placements);
        out.push(State { free, placements, sheets_open: st.sheets_open });
        j += 1;
    }
    assert(packs(out@) =~= keep_best(packs(states@), width as nat));
    assert forall|i: int| 0 <= i < out@.len() implies packs(states@).contains(
        (#[trigger] out@[i]).pack(),
    ) by {
        assert(out@[i].pack() == packs(states@)[order@[i] as int]);
    }
    out
}

/// Beam search over guillotine cuttings with best-area-fit placement. Up to `beam_width`
/// states are kept; pieces are taken by decreasing area, each goes where it wastes least, and
/// both cut directions are tried. The best states by number of sheets, stranded free area and
/// room on the last sheet are kept, and the best of all is the result. With a width of 1 the
/// result is that of best-area-fit packing.
pub fn beam_solve(problem: &Problem, beam_width: usize) -> (r: Solution)
    requires
        all_fit(*problem),
        problem.pieces@.len() < usize::MAX,
        beam_width >= 1 || problem.pieces@.len() == 0,
    ensures
        r.placements@ == beam_state(
            *problem,
            by_area(*problem),
            beam_width as nat,
            problem.pieces@.len(),
        )[0].placements,
        r.leftovers@ == beam_state(
            *problem,
            by_area(*problem),
            beam_width as nat,
            problem.pieces@.len(),
        )[0].free,
        complete(*problem, r.placements@),
        few_sheets(r.placements@, problem.pieces@.len()),
        sliced(*problem, r.placements@, r.leftovers@),
        tiled(*problem, r.placements@, r.leftovers@),
        turned_as_allowed(*problem, r.placements@),
{
    let n: usize = problem.pieces.len();
    let rank = PieceRanking { problem, key: SortKey::Area, dir: SortDir::Desc };
    let order = ranked(&rank, n);
    let mut beam: Vec<State> = Vec::new();
    let first: Vec<FreeRect> = vec![sheet_rect(problem, 0)];
    beam.push(State { free: first, placements: Vec::new(), sheets_open: 1 });
    proof {
        let b = beam@[0].pack();
        assert(b.free =~= fresh(problem.sheet).free);
        assert(b.placements =~= fresh(problem.sheet).placements);
        lemma_fresh(*problem);
        lemma_tiles_fresh(*problem);
        assert(packs(beam@) =~= seq![fresh(problem.sheet)]);
        assert(placed_indices(b.placements) =~= order@.take(0));
    }
    let mut k: usize = 0;
    while k < n
        invariant
            k <= n,
            n == problem.pieces@.len(),
            n < usize::MAX,
            beam_width >= 1 || n == 0,
            order@.len() == n,
            forall|i: int| 0 <= i < order.len() ==> #[trigger] order@[i] < n,
            all_fit(*problem),
            beam@.len() > 0,
            packs(beam@) == beam_state(*problem, order@, beam_width as nat, k as nat),
            beam_ok(*problem, order@, k as int, packs(beam@)),
        decreases n - k,
    {
        let i: usize = order[k];
        let ghost all = packs(beam@);
        let mut candidates: Vec<State> = Vec::new();
        let mut j: usize = 0;
        assert(packs(candidates@) =~= Seq::empty());
        while j < beam.len()
            invariant
                j <= beam@.len(),
                k < n,
                n == problem.pieces@.len(),
                n < usize::MAX,
                order@.len() == n,
                i == order@[k as int],
                i < n,
                all_fit(*problem),
                all == packs(beam@),
                beam_ok(*problem, order@, k as int, all),
                packs(candidates@) == all_successors(
                    *problem,
                    all,
                    i,
                    beam_width == 1,
                    j as nat,
                ),
                beam_ok(*problem, order@, k + 1, packs(candidates@)),
                j > 0 ==> candidates@.len() > 0,
            decreases beam@.len() - j,
        {
            assert(beam@[j as int].pack() == all[j as int]);
            push_successors(
                problem,
                &beam[j],
                i,
                beam_width == 1,
                &mut candidates,
                Ghost(order@),
                Ghost(k as int),
            );
            assert(packs(candidates@).len() == candidates@.len());
            assert(successors(*problem, all[j as int], i, beam_width == 1).len() >= 1);
            j += 1;
        }
        proof {
            assert forall|q: int| 0 <= q < candidates@.len() implies (
            #[trigger] candidates@[q]).sheets_open >= 1 by {
                assert(state_ok(*problem, order@, k + 1, packs(candidates@)[q]));
            }
        }
        let ghost cand = packs(candidates@);
        beam = select_best(candidates, beam_width);
        assert forall|q: int| 0 <= q < packs(beam@).len() implies state_ok(
            *problem,
            order@,
            k + 1,
            #[trigger] packs(beam@)[q],
        ) by {
            assert(packs(beam@)[q] == beam@[q].pack());
            assert(cand.contains(beam@[q].pack()));
            let z = choose|z: int| 0 <= z < cand.len() && cand[z] == beam@[q].pack();
            assert(state_ok(*problem, order@, k + 1, cand[z]));
        }
        k += 1;
    }
    let best = &beam[0];
    let placements = copy_placements(&best.placements);
    let leftovers = copy_free(&best.free);
    proof {
        let st = packs(beam@)[0];
        assert(state_ok(*problem, order@, n as int, st));
        lemma_coherent_sliced(*problem, st);
        assert(tiles(*problem, pack_of(st.free, st.placements, st.sheets)));
        assert(order@.take(n as int) =~= order@);
        lemma_order_complete(rank.order(), *problem, order@, placements@);
    }
    Solution { placements, leftovers }
}

/// `b` comes of `a` by laying piece `i` in the smallest room that it goes into, upright where
/// that goes, and cutting either way.
pub open spec fn comes_of(problem: Problem, a: Pack, b: Pack, i: usize) -> bool {
    let piece = problem.pieces@[i as int];
    exists|slot: int, turned: bool, across: bool|
        {
            &&& #[trigger] lays(problem.sheet, a, b, piece, i, slot, turned, across)
            &&& turned_as_wished(room(problem.sheet, a, slot), piece, false, turned)
            &&& slot < a.free.len() ==> smallest_room(a.free, piece, slot)
        }
}

/// Laying the same piece in the same room and cutting the same way leads to the same state.
proof fn lemma_comes_of(problem: Problem, st: Pack, c: Pack, i: usize, alone: bool)
    requires
        coherent(problem, st),
        i < problem.pieces@.len(),
        fits_sheet(problem, i as int),
        st.sheets <= usize::MAX,
        comes_of(problem, st, c, i),
    ensures
        successors(problem, st, i, alone).contains(c),
{
    let piece = problem.pieces@[i as int];
    let (st2, spot) = best_place(problem, st, i as int);
    let (slot, turned, across) = choose|slot: int, turned: bool, across: bool|
        {
            &&& #[trigger] lays(problem.sheet, st, c, piece, i, slot, turned, across)
            &&& turned_as_wished(room(problem.sheet, st, slot), piece, false, turned)
            &&& slot < st.free.len() ==> smallest_room(st.free, piece, slot)
        };
    lemma_best_place_lays(problem, st, i, across);
    let n = st.free.len() as int;
    assert(slot == spot.0) by {
        if slot < n {
            assert(crate::laying::goes(st.free[slot], piece, turned));
            if spot.0 < n {
                assert(crate::laying::goes(st.free[spot.0], piece, spot.3));
            }
        } else if spot.0 < n {
            assert(crate::laying::goes(st.free[spot.0], piece, spot.3));
        }
    }
    let fr = room(problem.sheet, st, slot);
    assert(turned == spot.3);
    let b = placed(st2, spot.0, i, spot.1, spot.2, spot.3, across);
    let kept = if slot < n {
        n - 1
    } else {
        n
    };
    let (p, q) = (
        b.free.subrange(kept, b.free.len() as int),
        c.free.subrange(kept, c.free.len() as int),
    );
    assert(p.len() == q.len());
    assert forall|j: int| 0 <= j < p.len() implies p[j] == q[j] by {}
    assert(b.free.len() == c.free.len());
    assert forall|j: int| 0 <= j < b.free.len() implies b.free[j] == c.free[j] by {
        if j >= kept {
            assert(b.free[j] == p[j - kept]);
            assert(c.free[j] == q[j - kept]);
        }
    }
    assert(b.free =~= c.free);
    assert(b == c);
    let dir = first_direction(fr, spot.1, spot.2, alone);
    let list = successors(problem, st, i, alone);
    if across == dir {
        assert(list[0] == c);
    } else if fr.w > spot.1 && fr.h > spot.2 {
        assert(list[1] == c);
    } else {
        let d = placed(st2, spot.0, i, spot.1, spot.2, spot.3, dir);
        assert(crate::packing::split_parts(fr, spot.1, spot.2, dir)
            =~= crate::packing::split_parts(fr, spot.1, spot.2, across));
        assert(list[0] == c);
    }
}

proof fn lemma_all_successors(
    problem: Problem,
    order: Seq<usize>,
    k: int,
    beam: Seq<Pack>,
    alone: bool,
    n: nat,
)
    requires
        all_fit(problem),
        0 <= k < order.len() < usize::MAX,
        order[k] < problem.pieces@.len(),
        beam_ok(problem, order, k, beam),
        n <= beam.len(),
    ensures
        ({
            let all = all_successors(problem, beam, order[k], alone, n);
            &&& beam_ok(problem, order, k + 1, all)
            &&& n > 0 ==> all.len() > 0
            &&& all.len() <= 2 * n
            &&& forall|x: int|
                0 <= x < all.len() ==> exists|j: int|
                    0 <= j < n && comes_of(problem, #[trigger] beam[j], #[trigger] all[x], order[k])
            &&& forall|j: int, c: Pack|
                0 <= j < n && #[trigger] comes_of(problem, beam[j], c, order[k]) ==> all.contains(
                    c,
                )
        }),
    decreases n,
{
    let i = order[k];
    if n > 0 {
        let m = (n - 1) as nat;
        lemma_all_successors(problem, order, k, beam, alone, m);
        let before = all_successors(problem, beam, i, alone, m);
        let st = beam[n - 1];
        assert(state_ok(problem, order, k, st));
        assert(fits_sheet(problem, i as int));
        let new = successors(problem, st, i, alone);
        let all = all_successors(problem, beam, i, alone, n);
        let (st2, spot) = best_place(problem, st, i as int);
        let dir = first_direction(st2.free[spot.0], spot.1, spot.2, alone);
        lemma_successor(problem, order, k, st, dir);
        lemma_successor(problem, order, k, st, !dir);
        lemma_best_place_lays(problem, st, i, dir);
        lemma_best_place_lays(problem, st, i, !dir);
        assert forall|y: int| 0 <= y < new.len() implies comes_of(
            problem,
            st,
            #[trigger] new[y],
            i,
        ) && state_ok(problem, order, k + 1, new[y]) by {
            let across = if y == 0 {
                dir
            } else {
                !dir
            };
            assert(new[y] == placed(st2, spot.0, i, spot.1, spot.2, spot.3, across));
            assert(lays(
                problem.sheet,
                st,
                new[y],
                problem.pieces@[i as int],
                i,
                spot.0,
                spot.3,
                across,
            ));
        }
        assert forall|x: int| 0 <= x < all.len() implies state_ok(
            problem,
            order,
            k + 1,
            #[trigger] all[x],
        ) && exists|j: int| 0 <= j < n && comes_of(problem, #[trigger] beam[j], all[x], i) by {
            if x < before.len() {
                assert(all[x] == before[x]);
                let j = choose|j: int|
                    0 <= j < m && comes_of(problem, #[trigger] beam[j], before[x], i);
                assert(comes_of(problem, beam[j], all[x], i));
            } else {
                assert(all[x] == new[x - before.len()]);
                assert(comes_of(problem, beam[n - 1], all[x], i));
            }
        }
        assert forall|j: int, c: Pack|
            0 <= j < n && #[trigger] comes_of(problem, beam[j], c, i) implies all.contains(c) by {
            if j < m {
                assert(before.contains(c));
                let x = choose|x: int| 0 <= x < before.len() && before[x] == c;
                assert(all[x] == c);
            } else {
                lemma_comes_of(problem, st, c, i, alone);
                let x = choose|x: int| 0 <= x < new.len() && new[x] == c;
                assert(all[before.len() + x] == c);
            }
        }
    }
}

/// The first `n` of a beam rank: no later one before an earlier one.
proof fn lemma_kept(states: Seq<Pack>, width: nat)
    requires
        states.len() <= usize::MAX,
    ensures
        ({
            let kept = keep_best(states, width);
            &&& kept.len() == if width < states.len() {
                width
            } else {
                states.len()
            }
            &&& forall|x: int| 0 <= x < kept.len() ==> states.contains(#[trigger] kept[x])
            &&& forall|x: int, y: int|
                0 <= x < y < kept.len() ==> state_leq(#[trigger] kept[x], #[trigger] kept[y])
            &&& forall|z: int, x: int|
                0 <= z < states.len() && 0 <= x < kept.len() && !kept.contains(
                    #[trigger] states[z],
                ) ==> state_leq(#[trigger] kept[x], states[z])
        }),
{
    let o = StateOrder { states };
    let n = states.len();
    crate::sorting::lemma_order_exists(o, n);
    let order = order_of(o, n);
    assert(in_order(o, n, order));
    let kept = keep_best(states, width);
    assert forall|x: int| 0 <= x < kept.len() implies states.contains(#[trigger] kept[x]) by {
        assert(states[order[x] as int] == kept[x]);
    }
    assert forall|x: int, y: int| 0 <= x < y < kept.len() implies state_leq(
        #[trigger] kept[x],
        #[trigger] kept[y],
    ) by {
        assert(crate::sorting::precedes(o, order[x] as int, order[y] as int));
    }
    assert forall|z: int, x: int|
        0 <= z < states.len() && 0 <= x < kept.len() && !kept.contains(
            #[trigger] states[z],
        ) implies state_leq(#[trigger] kept[x], states[z]) by {
        crate::sorting::lemma_in_order_all(o, n, order, z as usize);
        let y = choose|y: int| 0 <= y < order.len() && order[y] == z;
        if y < kept.len() {
            assert(kept[y] == states[z]);
        }
        assert(crate::sorting::precedes(o, order[x] as int, order[y] as int));
    }
}

proof fn lemma_beam_ok(problem: Problem, order: Seq<usize>, width: nat, k: nat)
    requires
        all_fit(problem),
        k <= order.len() < usize::MAX,
        forall|i: int| 0 <= i < order.len() ==> #[trigger] order[i] < problem.pieces.len(),
        1 <= width,
        2 * width <= usize::MAX,
    ensures
        beam_ok(problem, order, k as int, beam_state(problem, order, width, k)),
        1 <= beam_state(problem, order, width, k).len() <= width,
    decreases k,
{
    if k == 0 {
        lemma_fresh(problem);
        lemma_tiles_fresh(problem);
        assert(placed_indices(fresh(problem.sheet).placements) =~= order.take(0));
    } else {
        let m = (k - 1) as nat;
        lemma_beam_ok(problem, order, width, m);
        let beam = beam_state(problem, order, width, m);
        let all = all_successors(problem, beam, order[k - 1], width == 1, beam.len());
        lemma_all_successors(problem, order, k - 1, beam, width == 1, beam.len());
        lemma_kept(all, width);
        let now = beam_state(problem, order, width, k);
        assert forall|x: int| 0 <= x < now.len() implies state_ok(
            problem,
            order,
            k as int,
            #[trigger] now[x],
        ) by {
            assert(all.contains(now[x]));
            let z = choose|z: int| 0 <= z < all.len() && all[z] == now[x];
            assert(state_ok(problem, order, k as int, all[z]));
        }
    }
}

/// One step of the beam: every state that is kept comes of one that was kept before, by laying
/// the next piece in the smallest room, cut one way or the other; both ways are tried of every
/// state; and of all that come out, the best `width` are kept, the better ones first.
pub proof fn law_beam_keeps_the_best(problem: Problem, order: Seq<usize>, width: nat, k: nat)
    requires
        all_fit(problem),
        k < order.len() < usize::MAX,
        forall|i: int| 0 <= i < order.len() ==> #[trigger] order[i] < problem.pieces.len(),
        1 <= width,
        2 * width <= usize::MAX,
    ensures
        ({
            let a = beam_state(problem, order, width, k);
            let b = beam_state(problem, order, width, k + 1);
            let i = order[k as int];
            &&& beam_state(problem, order, width, 0) == seq![fresh(problem.sheet)]
            &&& 1 <= b.len() <= width
            &&& forall|x: int|
                0 <= x < b.len() ==> exists|j: int|
                    0 <= j < a.len() && comes_of(problem, #[trigger] a[j], #[trigger] b[x], i)
            &&& forall|x: int, y: int|
                0 <= x < y < b.len() ==> state_leq(#[trigger] b[x], #[trigger] b[y])
            &&& forall|j: int, c: Pack|
                0 <= j < a.len() && #[trigger] comes_of(problem, a[j], c, i) && !b.contains(c)
                    ==> b.len() == width
            &&& forall|j: int, c: Pack, x: int|
                0 <= j < a.len() && #[trigger] comes_of(problem, a[j], c, i) && !b.contains(c)
                    && 0 <= x < b.len() ==> state_leq(#[trigger] b[x], c)
        }),
{
    lemma_beam_ok(problem, order, width, k);
    lemma_beam_ok(problem, order, width, k + 1);
    let a = beam_state(problem, order, width, k);
    assert(beam_state(problem, order, width, 0) =~= seq![fresh(problem.sheet)]);
    let b = beam_state(problem, order, width, k + 1);
    let i = order[k as int];
    let all = all_successors(problem, a, i, width == 1, a.len());
    lemma_all_successors(problem, order, k as int, a, width == 1, a.len());
    lemma_kept(all, width);
    assert forall|x: int| 0 <= x < b.len() implies exists|j: int|
        0 <= j < a.len() && comes_of(problem, #[trigger] a[j], #[trigger] b[x], i) by {
        assert(all.contains(b[x]));
        let z = choose|z: int| 0 <= z < all.len() && all[z] == b[x];
        let j = choose|j: int| 0 <= j < a.len() && comes_of(problem, #[trigger] a[j], all[z], i);
        assert(comes_of(problem, a[j], b[x], i));
    }
    assert forall|j: int, c: Pack|
        0 <= j < a.len() && #[trigger] comes_of(problem, a[j], c, i) && !b.contains(
            c,
        ) implies b.len() == width by {
        assert(all.contains(c));
        let z = choose|z: int| 0 <= z < all.len() && all[z] == c;
        if all.len() <= width {
            lemma_all_kept(all, width);
            assert(b.contains(all[z]));
        }
    }
    assert forall|j: int, c: Pack, x: int|
        0 <= j < a.len() && #[trigger] comes_of(problem, a[j], c, i) && !b.contains(c) && 0 <= x
            < b.len() implies state_leq(#[trigger] b[x], c) by {
        assert(all.contains(c));
        let z = choose|z: int| 0 <= z < all.len() && all[z] == c;
        assert(state_leq(b[x], all[z]));
    }
}

/// Where there is room for all states, all are kept.
proof fn lemma_all_kept(states: Seq<Pack>, width: nat)
    requires
        states.len() <= usize::MAX,
        states.len() <= width,
    ensures
        forall|z: int|
            0 <= z < states.len() ==> keep_best(states, width).contains(#[trigger] states[z]),
{
    let o = StateOrder { states };
    let n = states.len();
    crate::sorting::lemma_order_exists(o, n);
    let order = order_of(o, n);
    let kept = keep_best(states, width);
    assert forall|z: int| 0 <= z < n implies kept.contains(#[trigger] states[z]) by {
        crate::sorting::lemma_in_order_all(o, n, order, z as usize);
        let y = choose|y: int| 0 <= y < order.len() && order[y] == z;
        assert(kept[y] == states[z]);
    }
}

/// A state ranks by its sheets, then by the free area on all sheets but the last, then by its
/// largest free rectangle on the last sheet. The first of these two is the area of what is free
/// on the sheets in front of the last; the second is reached by a free rectangle there and by
/// none exceeded.
pub proof fn law_rank_of_a_state(free: Seq<FreeRect>, last: int)
    requires
        last >= 0,
    ensures
        stranded(free, last) == area_in_front(free, last as nat),
        largest_on(free, last) >= 0,
        forall|j: int|
            0 <= j < free.len() && (#[trigger] free[j]).sheet_idx == last ==> free[j].w * free[j].h
                <= largest_on(free, last),
        largest_on(free, last) > 0 ==> exists|j: int|
            0 <= j < free.len() && (#[trigger] free[j]).sheet_idx == last && free[j].w * free[j].h
                == largest_on(free, last),
    decreases free.len(),
{
    if free.len() == 0 {
        lemma_in_front_of_none(free, last as nat);
    } else {
        let rest = free.drop_last();
        law_rank_of_a_state(rest, last);
        lemma_in_front_more(rest, free.last(), last as nat);
        assert(rest.push(free.last()) =~= free);
        assert forall|j: int|
            0 <= j < free.len() && (#[trigger] free[j]).sheet_idx == last implies free[j].w
            * free[j].h <= largest_on(free, last) by {
            if j < rest.len() {
                assert(rest[j] == free[j]);
            }
        }
        if largest_on(free, last) > 0 {
            if largest_on(free, last) == largest_on(rest, last) {
                let j = choose|j: int|
                    0 <= j < rest.len() && (#[trigger] rest[j]).sheet_idx == last && rest[j].w
                        * rest[j].h == largest_on(rest, last);
                assert(free[j] == rest[j]);
            } else {
                assert(free[free.len() - 1].sheet_idx == last);
            }
        }
    }
}

/// The free area on the first `n` sheets, sheet by sheet.
pub open spec fn area_in_front(free: Seq<FreeRect>, n: nat) -> int
    decreases n,
{
    if n == 0 {
        0
    } else {
        area_in_front(free, (n - 1) as nat) + crate::tiling::area_on(free, n - 1)
    }
}

proof fn lemma_in_front_of_none(free: Seq<FreeRect>, n: nat)
    requires
        free.len() == 0,
    ensures
        area_in_front(free, n) == 0,
    decreases n,
{
    if n > 0 {
        lemma_in_front_of_none(free, (n - 1) as nat);
    }
}

proof fn lemma_in_front_more(free: Seq<FreeRect>, c: FreeRect, n: nat)
    ensures
        area_in_front(free.push(c), n) == area_in_front(free, n) + if c.sheet_idx < n {
            c.area()
        } else {
            0
        },
    decreases n,
{
    if n > 0 {
        lemma_in_front_more(free, c, (n - 1) as nat);
        crate::tiling::lemma_area_push(free, c, n - 1);
    }
}

} // verus!
