use vstd::prelude::*;

use super::gbaf::lemma_order_complete;
use super::shelf::{
    all_stand, by_height, stand_h, stand_w, standing, stands_turned, upright_h, upright_w, TallOrder,
    TallRanking,
};
use crate::model::{FreeRect, Placement, Problem, Sheet, Solution};
use crate::offcuts::{gradable, scorable};
use crate::packing::{
    bottom_rest, coherent, complete, few_sheets, fresh, lemma_coherent_gradable, lemma_cornered,
    lemma_fresh, lemma_opened, lemma_update_multiset, lemma_without_leftovers, opened,
    placed_indices, right_rest, sliced, solid_pieces, Pack,
};
use crate::sorting::{ranked, Ranking};

verus! {

/// A shelf across a sheet: pieces stand on it side by side, up to `x_cursor`.
#[derive(Debug, Clone, Copy, PartialEq, Eq, Structural)]
pub struct Shelf {
    pub sheet_idx: usize,
    pub y: u32,
    pub h: u32,
    pub x_cursor: u32,
}

/// Shelves of all sheets, the filled height of every sheet, and what is placed.
pub struct Shelves {
    pub shelves: Seq<Shelf>,
    pub filled: Seq<u32>,
    pub placements: Seq<Placement>,
}

/// The shelf has room for a piece of `pw` x `ph`.
pub open spec fn shelf_fits(s: Shelf, pw: u32, ph: u32, sw: u32) -> bool {
    ph <= s.h && s.x_cursor + pw <= sw
}

/// Among the first `n` shelves the fullest that has room, the first one where several are
/// equal.
pub open spec fn fullest(shelves: Seq<Shelf>, pw: u32, ph: u32, sw: u32, n: nat) -> Option<int>
    decreases n,
{
    if n == 0 {
        None
    } else {
        let best = fullest(shelves, pw, ph, sw, (n - 1) as nat);
        if shelf_fits(shelves[n - 1], pw, ph, sw) && (best is None || shelves[n - 1].x_cursor
            > shelves[best->0].x_cursor) {
            Some(n - 1)
        } else {
            best
        }
    }
}

/// The first sheet from `s` on that has room for a shelf of height `ph`, or the number of
/// sheets.
pub open spec fn first_room(filled: Seq<u32>, ph: u32, sh: u32, s: int) -> int
    decreases filled.len() - s,
{
    if s >= filled.len() || filled[s] + ph <= sh {
        s
    } else {
        first_room(filled, ph, sh, s + 1)
    }
}

pub open spec fn stand_placement(
    problem: Problem,
    i: usize,
    sheet_idx: int,
    x: u32,
    y: u32,
) -> Placement {
    Placement {
        sheet_idx: sheet_idx as usize,
        piece_idx: i,
        x,
        y,
        rotated: stands_turned(problem.pieces[i as int]),
    }
}

/// Piece `i` goes on the fullest shelf that has room, else on a new shelf of the first sheet
/// that has room, else on a new sheet.
pub open spec fn bfdh_step(problem: Problem, st: Shelves, i: usize) -> Shelves {
    let pw = stand_w(problem.pieces[i as int]);
    let ph = stand_h(problem.pieces[i as int]);
    match fullest(st.shelves, pw, ph, problem.sheet.width, st.shelves.len()) {
        Some(b) => {
            let s = st.shelves[b];
            Shelves {
                shelves: st.shelves.update(b, Shelf { x_cursor: (s.x_cursor + pw) as u32, ..s }),
                filled: st.filled,
                placements: st.placements.push(
                    stand_placement(problem, i, s.sheet_idx as int, s.x_cursor, s.y),
                ),
            }
        },
        None => {
            let s = first_room(st.filled, ph, problem.sheet.height, 0);
            let y = if s < st.filled.len() {
                st.filled[s]
            } else {
                0
            };
            Shelves {
                shelves: st.shelves.push(Shelf { sheet_idx: s as usize, y, h: ph, x_cursor: pw }),
                filled: if s < st.filled.len() {
                    st.filled.update(s, (y + ph) as u32)
                } else {
                    st.filled.push(ph)
                },
                placements: st.placements.push(stand_placement(problem, i, s, 0, y)),
            }
        },
    }
}

/// The first `k` pieces of the order are placed.
pub open spec fn bfdh_state(problem: Problem, order: Seq<usize>, k: nat) -> Shelves
    decreases k,
{
    if k == 0 {
        Shelves { shelves: Seq::empty(), filled: seq![0u32], placements: Seq::empty() }
    } else {
        bfdh_step(problem, bfdh_state(problem, order, (k - 1) as nat), order[k - 1])
    }
}

/// The free end of a shelf.
pub open spec fn tail(sheet: Sheet, s: Shelf) -> FreeRect {
    FreeRect {
        sheet_idx: s.sheet_idx,
        x: s.x_cursor,
        y: s.y,
        w: (sheet.width - s.x_cursor) as u32,
        h: s.h,
    }
}

/// What is below the shelves of sheet `k`.
pub open spec fn rest_of(sheet: Sheet, k: int, y: u32) -> FreeRect {
    FreeRect { sheet_idx: k as usize, x: 0, y, w: sheet.width, h: (sheet.height - y) as u32 }
}

pub open spec fn tails(sheet: Sheet, shelves: Seq<Shelf>) -> Seq<FreeRect> {
    Seq::new(shelves.len(), |k: int| tail(sheet, shelves[k]))
}

spec fn rests(sheet: Sheet, filled: Seq<u32>) -> Seq<FreeRect> {
    Seq::new(filled.len(), |k: int| rest_of(sheet, k, filled[k]))
}

/// The shelves seen as a cutting of the sheets.
spec fn shelf_pack(sheet: Sheet, st: Shelves) -> Pack {
    Pack {
        free: tails(sheet, st.shelves) + rests(sheet, st.filled),
        placements: st.placements,
        sheets: st.filled.len() as int,
    }
}

spec fn shelves_ok(problem: Problem, st: Shelves) -> bool {
    &&& coherent(problem, shelf_pack(problem.sheet, st))
    &&& forall|k: int|
        0 <= k < st.shelves.len() ==> (#[trigger] st.shelves[k]).x_cursor <= problem.sheet.width
            && st.shelves[k].sheet_idx < st.filled.len()
    &&& forall|k: int|
        0 <= k < st.filled.len() ==> (#[trigger] st.filled[k]) <= problem.sheet.height
}

pub proof fn lemma_fullest(shelves: Seq<Shelf>, pw: u32, ph: u32, sw: u32, n: nat)
    requires
        n <= shelves.len(),
    ensures
        fullest(shelves, pw, ph, sw, n) matches Some(b) ==> 0 <= b < n && shelf_fits(
            shelves[b],
            pw,
            ph,
            sw,
        ),
        forall|k: int|
            0 <= k < n && shelf_fits(#[trigger] shelves[k], pw, ph, sw) ==> {
                &&& fullest(shelves, pw, ph, sw, n) is Some
                &&& shelves[k].x_cursor <= shelves[fullest(shelves, pw, ph, sw, n)->0].x_cursor
                &&& shelves[k].x_cursor == shelves[fullest(shelves, pw, ph, sw, n)->0].x_cursor
                    ==> fullest(shelves, pw, ph, sw, n)->0 <= k
            },
    decreases n,
{
    if n > 0 {
        lemma_fullest(shelves, pw, ph, sw, (n - 1) as nat);
    }
}

proof fn lemma_first_room(filled: Seq<u32>, ph: u32, sh: u32, s: int)
    requires
        0 <= s <= filled.len(),
    ensures
        s <= first_room(filled, ph, sh, s) <= filled.len(),
        first_room(filled, ph, sh, s) < filled.len() ==> filled[first_room(filled, ph, sh, s)] + ph
            <= sh,
        forall|j: int| s <= j < first_room(filled, ph, sh, s) ==> #[trigger] filled[j] + ph > sh,
    decreases filled.len() - s,
{
    if s < filled.len() && filled[s] + ph > sh {
        lemma_first_room(filled, ph, sh, s + 1);
    }
}

proof fn lemma_onto_shelf(problem: Problem, st: Shelves, i: usize, b: int)
    requires
        shelves_ok(problem, st),
        i < problem.pieces.len(),
        0 <= b < st.shelves.len(),
        shelf_fits(
            st.shelves[b],
            stand_w(problem.pieces[i as int]),
            stand_h(problem.pieces[i as int]),
            problem.sheet.width,
        ),
    ensures
        ({
            let s = st.shelves[b];
            let pw = stand_w(problem.pieces[i as int]);
            shelves_ok(
                problem,
                Shelves {
                    shelves: st.shelves.update(
                        b,
                        Shelf { x_cursor: (s.x_cursor + pw) as u32, ..s },
                    ),
                    filled: st.filled,
                    placements: st.placements.push(
                        stand_placement(problem, i, s.sheet_idx as int, s.x_cursor, s.y),
                    ),
                },
            )
        }),
{
    let sheet = problem.sheet;
    let s = st.shelves[b];
    let pw = stand_w(problem.pieces[i as int]);
    let pl = stand_placement(problem, i, s.sheet_idx as int, s.x_cursor, s.y);
    let s2 = Shelf { x_cursor: (s.x_cursor + pw) as u32, ..s };
    let st2 = Shelves {
        shelves: st.shelves.update(b, s2),
        filled: st.filled,
        placements: st.placements.push(pl),
    };
    let p = shelf_pack(sheet, st);
    let p2 = shelf_pack(sheet, st2);
    assert(p.free[b] == tail(sheet, s));
    assert(p2.free =~= p.free.update(b, tail(sheet, s2)));
    lemma_update_multiset(p.free, b, tail(sheet, s2));
    let c = pl.cell(problem.pieces@);
    assert(right_rest(tail(sheet, s), c.w, c.h, false) == tail(sheet, s2));
    lemma_cornered(problem, p, b, pl, false, false, p2);
}

proof fn lemma_new_shelf(problem: Problem, st: Shelves, i: usize, k: int)
    requires
        shelves_ok(problem, st),
        i < problem.pieces.len(),
        0 <= k < st.filled.len() <= usize::MAX + 1,
        stand_w(problem.pieces[i as int]) <= problem.sheet.width,
        st.filled[k] + stand_h(problem.pieces[i as int]) <= problem.sheet.height,
    ensures
        ({
            let pw = stand_w(problem.pieces[i as int]);
            let ph = stand_h(problem.pieces[i as int]);
            let y = st.filled[k];
            shelves_ok(
                problem,
                Shelves {
                    shelves: st.shelves.push(
                        Shelf { sheet_idx: k as usize, y, h: ph, x_cursor: pw },
                    ),
                    filled: st.filled.update(k, (y + ph) as u32),
                    placements: st.placements.push(stand_placement(problem, i, k, 0, y)),
                },
            )
        }),
{
    let sheet = problem.sheet;
    let pw = stand_w(problem.pieces[i as int]);
    let ph = stand_h(problem.pieces[i as int]);
    let y = st.filled[k];
    let pl = stand_placement(problem, i, k, 0, y);
    let s = Shelf { sheet_idx: k as usize, y, h: ph, x_cursor: pw };
    let st2 = Shelves {
        shelves: st.shelves.push(s),
        filled: st.filled.update(k, (y + ph) as u32),
        placements: st.placements.push(pl),
    };
    let p = shelf_pack(sheet, st);
    let p2 = shelf_pack(sheet, st2);
    let n = st.shelves.len() as int;
    let idx = n + k;
    let room = rest_of(sheet, k, y);
    let room2 = rest_of(sheet, k, (y + ph) as u32);
    assert(p.free[idx] == room);
    let c = pl.cell(problem.pieces@);
    assert(right_rest(room, c.w, c.h, true) == tail(sheet, s));
    assert(bottom_rest(room, c.w, c.h, true) == room2);
    assert(p2.free =~= p.free.update(idx, room2).insert(n, tail(sheet, s)));
    lemma_update_multiset(p.free, idx, room2);
    vstd::seq_lib::to_multiset_insert(p.free.update(idx, room2), n, tail(sheet, s));
    assert(p2.free.to_multiset() =~= p.free.remove(idx).to_multiset().insert(
        tail(sheet, s),
    ).insert(room2));
    lemma_cornered(problem, p, idx, pl, true, true, p2);
}

proof fn lemma_bfdh_step(problem: Problem, st: Shelves, i: usize)
    requires
        shelves_ok(problem, st),
        i < problem.pieces.len(),
        all_stand(problem),
        st.filled.len() <= usize::MAX,
    ensures
        shelves_ok(problem, bfdh_step(problem, st, i)),
{
    let sheet = problem.sheet;
    let pw = stand_w(problem.pieces[i as int]);
    let ph = stand_h(problem.pieces[i as int]);
    lemma_fullest(st.shelves, pw, ph, sheet.width, st.shelves.len());
    match fullest(st.shelves, pw, ph, sheet.width, st.shelves.len()) {
        Some(b) => {
            lemma_onto_shelf(problem, st, i, b);
        },
        None => {
            lemma_first_room(st.filled, ph, sheet.height, 0);
            let k = first_room(st.filled, ph, sheet.height, 0);
            if k < st.filled.len() {
                lemma_new_shelf(problem, st, i, k);
            } else {
                let mid = Shelves { filled: st.filled.push(0), ..st };
                let p = shelf_pack(sheet, st);
                lemma_opened(problem, p);
                assert(shelf_pack(sheet, mid).free =~= opened(sheet, p).free);
                assert(shelf_pack(sheet, mid) == opened(sheet, p));
                lemma_new_shelf(problem, mid, i, k);
                assert(mid.filled.update(k, ph) =~= st.filled.push(ph));
            }
        },
    }
}

proof fn lemma_bfdh_sizes(problem: Problem, order: Seq<usize>, k: nat)
    requires
        k <= order.len(),
    ensures
        bfdh_state(problem, order, k).shelves.len() <= k,
        1 <= bfdh_state(problem, order, k).filled.len() <= k + 1,
        placed_indices(bfdh_state(problem, order, k).placements) =~= order.take(k as int),
        few_sheets(bfdh_state(problem, order, k).placements, k + 1),
        forall|i: int|
            0 <= i < bfdh_state(problem, order, k).shelves.len() ==> (#[trigger] bfdh_state(
                problem,
                order,
                k,
            ).shelves[i]).sheet_idx <= k,
    decreases k,
{
    if k > 0 {
        lemma_bfdh_sizes(problem, order, (k - 1) as nat);
        let st = bfdh_state(problem, order, (k - 1) as nat);
        let p = problem.pieces[order[k - 1] as int];
        let sheet = problem.sheet;
        lemma_fullest(st.shelves, stand_w(p), stand_h(p), sheet.width, st.shelves.len());
        lemma_first_room(st.filled, stand_h(p), sheet.height, 0);
        let now = bfdh_state(problem, order, k);
        let p0 = placed_indices(st.placements);
        let p1 = placed_indices(now.placements);
        assert forall|j: int| 0 <= j < k implies p1[j] == order[j] by {
            if j < k - 1 {
                assert(now.placements[j] == st.placements[j]);
                assert(p0[j] == order.take(k - 1)[j]);
            }
        }
    }
}

proof fn lemma_bfdh_state(problem: Problem, order: Seq<usize>, k: nat)
    requires
        k <= order.len() < usize::MAX,
        forall|i: int| 0 <= i < order.len() ==> #[trigger] order[i] < problem.pieces.len(),
        all_stand(problem),
    ensures
        shelves_ok(problem, bfdh_state(problem, order, k)),
    decreases k,
{
    if k == 0 {
        let st = bfdh_state(problem, order, 0);
        lemma_fresh(problem);
        assert(shelf_pack(problem.sheet, st).free =~= fresh(problem.sheet).free);
    } else {
        lemma_bfdh_state(problem, order, (k - 1) as nat);
        lemma_bfdh_sizes(problem, order, (k - 1) as nat);
        lemma_bfdh_step(problem, bfdh_state(problem, order, (k - 1) as nat), order[k - 1]);
    }
}

/// What is placed in the end is a cutting that can be scored.
pub proof fn lemma_bfdh_result(problem: Problem)
    requires
        all_stand(problem),
        problem.pieces@.len() < usize::MAX,
    ensures
        ({
            let n = problem.pieces@.len();
            let list = bfdh_state(problem, by_height(problem), n).placements;
            &&& sliced(problem, list, Seq::empty())
            &&& scorable(problem.sheet, n) ==> gradable(problem, list)
        }),
{
    let n = problem.pieces@.len();
    let order = by_height(problem);
    crate::sorting::lemma_order_exists(TallOrder { pieces: problem.pieces@ }, n);
    let st = bfdh_state(problem, order, n);
    lemma_bfdh_sizes(problem, order, n);
    lemma_bfdh_state(problem, order, n);
    lemma_without_leftovers(problem, shelf_pack(problem.sheet, st), Seq::empty());
    if scorable(problem.sheet, n) {
        assert(placed_indices(st.placements).len() == n);
        lemma_coherent_gradable(problem, shelf_pack(problem.sheet, st));
    }
}

pub fn find_fullest(shelves: &Vec<Shelf>, pw: u32, ph: u32, sw: u32) -> (r: Option<usize>)
    ensures
        match fullest(shelves@, pw, ph, sw, shelves@.len()) {
            Some(b) => r is Some && r->0 == b,
            None => r is None,
        },
{
    let mut best: Option<usize> = None;
    let mut k: usize = 0;
    while k < shelves.len()
        invariant
            k <= shelves.len(),
            match fullest(shelves@, pw, ph, sw, k as nat) {
                Some(b) => best is Some && best->0 == b && b < k,
                None => best is None,
            },
        decreases shelves.len() - k,
    {
        let s = shelves[k];
        if ph <= s.h && s.x_cursor as u64 + pw as u64 <= sw as u64 {
            match best {
                None => {
                    best = Some(k);
                },
                Some(b) => {
                    if s.x_cursor > shelves[b].x_cursor {
                        best = Some(k);
                    }
                },
            }
        }
        k += 1;
    }
    best
}

fn find_room(filled: &Vec<u32>, ph: u32, sh: u32) -> (r: usize)
    ensures
        r == first_room(filled@, ph, sh, 0),
        r <= filled@.len(),
{
    let mut s: usize = 0;
    while s < filled.len() && filled[s] as u64 + ph as u64 > sh as u64
        invariant
            s <= filled.len(),
            first_room(filled@, ph, sh, 0) == first_room(filled@, ph, sh, s as int),
        decreases filled.len() - s,
    {
        s += 1;
    }
    s
}

/// Best-fit decreasing height with shelves kept open on all sheets. Pieces stand upright and
/// are taken by decreasing height; each goes on the fullest shelf that has room for it, else on
/// a new shelf of the first sheet that has room, else on a new sheet.
pub fn bfdh_solve(problem: &Problem) -> (r: Solution)
    requires
        problem.pieces@.len() < usize::MAX,
    ensures
        r.placements@ == bfdh_state(
            *problem,
            by_height(*problem),
            problem.pieces@.len(),
        ).placements,
        r.leftovers@.len() == 0,
        complete(*problem, r.placements@),
        few_sheets(r.placements@, problem.pieces@.len() + 1),
        all_stand(*problem) ==> sliced(*problem, r.placements@, r.leftovers@),
        all_stand(*problem) && scorable(problem.sheet, problem.pieces@.len()) ==> gradable(
            *problem,
            r.placements@,
        ),
{
    let sw: u32 = problem.sheet.width;
    let sh: u32 = problem.sheet.height;
    let n: usize = problem.pieces.len();
    let rank = TallRanking { problem };
    let order = ranked(&rank, n);
    let mut placements: Vec<Placement> = Vec::new();
    let mut shelves: Vec<Shelf> = Vec::new();
    let mut filled: Vec<u32> = vec![0u32];
    let mut k: usize = 0;
    assert(filled@ =~= seq![0u32]);
    while k < n
        invariant
            k <= n,
            n == problem.pieces@.len(),
            n < usize::MAX,
            sw == problem.sheet.width,
            sh == problem.sheet.height,
            order@.len() == n,
            forall|i: int| 0 <= i < order.len() ==> #[trigger] order@[i] < n,
            shelves@ == bfdh_state(*problem, order@, k as nat).shelves,
            filled@ == bfdh_state(*problem, order@, k as nat).filled,
            placements@ == bfdh_state(*problem, order@, k as nat).placements,
        decreases n - k,
    {
        let i: usize = order[k];
        let (pw, ph, rotated) = standing(&problem.pieces[i]);
        let ghost st = bfdh_state(*problem, order@, k as nat);
        proof {
            lemma_bfdh_sizes(*problem, order@, k as nat);
            lemma_fullest(st.shelves, pw, ph, sw, st.shelves.len());
            lemma_first_room(st.filled, ph, sh, 0);
        }
        match find_fullest(&shelves, pw, ph, sw) {
            Some(b) => {
                let mut s = shelves[b];
                placements.push(
                    Placement {
                        sheet_idx: s.sheet_idx,
                        piece_idx: i,
                        x: s.x_cursor,
                        y: s.y,
                        rotated,
                    },
                );
                s.x_cursor = s.x_cursor + pw;
                shelves.set(b, s);
            },
            None => {
                let sidx: usize = find_room(&filled, ph, sh);
                let y: u32 = if sidx < filled.len() {
                    filled[sidx]
                } else {
                    0
                };
                if sidx < filled.len() {
                    filled.set(sidx, y + ph);
                } else {
                    filled.push(ph);
                }
                placements.push(Placement { sheet_idx: sidx, piece_idx: i, x: 0, y, rotated });
                shelves.push(Shelf { sheet_idx: sidx, y, h: ph, x_cursor: pw });
            },
        }
        k += 1;
    }
    let leftovers: Vec<FreeRect> = Vec::new();
    proof {
        lemma_bfdh_sizes(*problem, order@, n as nat);
        assert(order@.take(n as int) =~= order@);
        lemma_order_complete(rank.order(), *problem, order@, placements@);
        if all_stand(*problem) {
            lemma_bfdh_result(*problem);
            assert(leftovers@ =~= Seq::empty());
        }
    }
    Solution { placements, leftovers }
}

/// A piece of `w` x `h` has room at the end of the shelf.
pub open spec fn has_end_for(s: Shelf, w: int, h: int, sheet: Sheet) -> bool {
    h <= s.h && s.x_cursor + w <= sheet.width
}

/// From `a` to `b` a piece of `w` x `h` goes to the end of shelf `q`.
pub open spec fn shelf_taken(a: Shelves, b: Shelves, q: int, w: int, h: int, sheet: Sheet) -> bool {
    let at = b.placements.last();
    &&& 0 <= q < a.shelves.len()
    &&& has_end_for(a.shelves[q], w, h, sheet)
    &&& at.sheet_idx == a.shelves[q].sheet_idx
    &&& at.x == a.shelves[q].x_cursor
    &&& at.y == a.shelves[q].y
    &&& b.shelves.len() == a.shelves.len()
    &&& forall|j: int|
        0 <= j < a.shelves.len() && j != q ==> #[trigger] b.shelves[j] == a.shelves[j]
    &&& b.shelves[q].sheet_idx == a.shelves[q].sheet_idx
    &&& b.shelves[q].y == a.shelves[q].y
    &&& b.shelves[q].h == a.shelves[q].h
    &&& b.shelves[q].x_cursor == a.shelves[q].x_cursor + w
    &&& b.filled == a.filled
}

/// From `a` to `b` a piece of `w` x `h` begins a shelf on sheet `s`, below the others there, or
/// on a new sheet.
pub open spec fn shelf_begun(a: Shelves, b: Shelves, s: int, w: int, h: int) -> bool {
    let at = b.placements.last();
    let top = if s < a.filled.len() {
        a.filled[s] as int
    } else {
        0
    };
    &&& 0 <= s <= a.filled.len()
    &&& at.sheet_idx == s
    &&& at.x == 0
    &&& at.y == top
    &&& b.shelves.len() == a.shelves.len() + 1
    &&& forall|j: int| 0 <= j < a.shelves.len() ==> #[trigger] b.shelves[j] == a.shelves[j]
    &&& b.shelves.last().sheet_idx == s
    &&& b.shelves.last().y == top
    &&& b.shelves.last().h == h
    &&& b.shelves.last().x_cursor == w
    &&& b.filled.len() == if s < a.filled.len() {
        a.filled.len()
    } else {
        a.filled.len() + 1
    }
    &&& b.filled[s] == top + h
    &&& forall|j: int| 0 <= j < a.filled.len() && j != s ==> #[trigger] b.filled[j] == a.filled[j]
}

/// The first sheet on which a shelf can begin has room for it, and every sheet in front of it
/// has none.
pub proof fn law_first_room_is_first(filled: Seq<u32>, ph: u32, sh: u32)
    ensures
        0 <= first_room(filled, ph, sh, 0) <= filled.len(),
        first_room(filled, ph, sh, 0) < filled.len() ==> filled[first_room(filled, ph, sh, 0)] + ph
            <= sh,
        forall|j: int| 0 <= j < first_room(filled, ph, sh, 0) ==> #[trigger] filled[j] + ph > sh,
{
    lemma_first_room(filled, ph, sh, 0);
}

/// A piece goes on the fullest of the shelves that have room for it, the first one of equally
/// full ones. Where no shelf has room it begins one, on the earliest sheet that has height left
/// for it: every sheet in front of that one is filled too far. Only where all are filled too
/// far does it begin a new sheet.
pub proof fn law_best_shelf_else_earliest_sheet(problem: Problem, order: Seq<usize>, k: nat)
    requires
        k < order.len() < usize::MAX,
        forall|i: int| 0 <= i < order.len() ==> #[trigger] order[i] < problem.pieces.len(),
        all_stand(problem),
    ensures
        ({
            let p = problem.pieces@[order[k as int] as int];
            let w = upright_w(p);
            let h = upright_h(p);
            let a = bfdh_state(problem, order, k);
            let b = bfdh_state(problem, order, k + 1);
            let sheet = problem.sheet;
            &&& b.placements.len() == a.placements.len() + 1
            &&& b.placements.drop_last() == a.placements
            &&& b.placements.last().piece_idx == order[k as int]
            &&& b.placements.last().rotated == (p.can_rotate && p.width > p.height)
            &&& {
                ||| exists|q: int|
                    {
                        &&& #[trigger] shelf_taken(a, b, q, w, h, sheet)
                        &&& forall|j: int|
                            0 <= j < a.shelves.len() && has_end_for(
                                #[trigger] a.shelves[j],
                                w,
                                h,
                                sheet,
                            ) ==> {
                                ||| a.shelves[j].x_cursor < a.shelves[q].x_cursor
                                ||| a.shelves[j].x_cursor == a.shelves[q].x_cursor && q <= j
                            }
                    }
                ||| exists|s: int|
                    {
                        &&& #[trigger] shelf_begun(a, b, s, w, h)
                        &&& forall|j: int|
                            0 <= j < a.shelves.len() ==> !has_end_for(
                                #[trigger] a.shelves[j],
                                w,
                                h,
                                sheet,
                            )
                        &&& forall|j: int|
                            0 <= j < s ==> #[trigger] a.filled[j] + h > sheet.height
                        &&& s < a.filled.len() ==> a.filled[s] + h <= sheet.height
                    }
            }
        }),
{
    let i = order[k as int];
    let p = problem.pieces[i as int];
    let pw = stand_w(p);
    let ph = stand_h(p);
    let w = upright_w(p);
    let h = upright_h(p);
    assert(w == pw && h == ph);
    let a = bfdh_state(problem, order, k);
    let b = bfdh_state(problem, order, k + 1);
    let sheet = problem.sheet;
    lemma_bfdh_sizes(problem, order, k);
    lemma_bfdh_state(problem, order, k);
    lemma_fullest(a.shelves, pw, ph, sheet.width, a.shelves.len());
    lemma_first_room(a.filled, ph, sheet.height, 0);
    assert(b.placements.drop_last() =~= a.placements);
    match fullest(a.shelves, pw, ph, sheet.width, a.shelves.len()) {
        Some(q) => {
            assert(shelf_taken(a, b, q, w, h, sheet));
            assert forall|j: int| 0 <= j < a.shelves.len() && has_end_for(
                #[trigger] a.shelves[j],
                w,
                h,
                sheet,
            ) implies {
                ||| a.shelves[j].x_cursor < a.shelves[q].x_cursor
                ||| a.shelves[j].x_cursor == a.shelves[q].x_cursor && q <= j
            } by {
                assert(shelf_fits(a.shelves[j], pw, ph, sheet.width));
            }
        },
        None => {
            let s = first_room(a.filled, ph, sheet.height, 0);
            assert(shelf_begun(a, b, s, w, h));
            assert forall|j: int| 0 <= j < a.shelves.len() implies !has_end_for(
                #[trigger] a.shelves[j],
                w,
                h,
                sheet,
            ) by {
                assert(!shelf_fits(a.shelves[j], pw, ph, sheet.width));
            }
        },
    }
}

/// The piece of a placement reaches down to here.
pub open spec fn reach(problem: Problem, pl: Placement) -> int {
    let p = problem.pieces@[pl.piece_idx as int];
    pl.y + if pl.rotated {
        p.width as int
    } else {
        p.height as int
    }
}

/// The filled height of a sheet is where the lowest of its pieces ends, and 0 without any.
pub open spec fn filled_so_far(problem: Problem, st: Shelves) -> bool {
    &&& forall|i: int|
        0 <= i < st.placements.len() ==> {
            let pl = #[trigger] st.placements[i];
            pl.sheet_idx < st.filled.len() && reach(problem, pl) <= st.filled[pl.sheet_idx as int]
        }
    &&& forall|s: int|
        0 <= s < st.filled.len() && #[trigger] st.filled[s] > 0 ==> exists|i: int|
            0 <= i < st.placements.len() && (#[trigger] st.placements[i]).sheet_idx == s
                && reach(problem, st.placements[i]) == st.filled[s]
}

/// No shelf ends below what is filled.
spec fn shelves_above(st: Shelves) -> bool {
    forall|q: int|
        0 <= q < st.shelves.len() ==> {
            let s = #[trigger] st.shelves[q];
            s.sheet_idx < st.filled.len() && s.y + s.h <= st.filled[s.sheet_idx as int]
        }
}

/// The filled height of every sheet is where the lowest of its pieces ends.
pub proof fn law_filled_is_the_lowest_end(problem: Problem, order: Seq<usize>, k: nat)
    requires
        k <= order.len() < usize::MAX,
        forall|i: int| 0 <= i < order.len() ==> #[trigger] order[i] < problem.pieces.len(),
        all_stand(problem),
    ensures
        filled_so_far(problem, bfdh_state(problem, order, k)),
{
    lemma_filled(problem, order, k);
}

proof fn lemma_filled(problem: Problem, order: Seq<usize>, k: nat)
    requires
        k <= order.len() < usize::MAX,
        forall|i: int| 0 <= i < order.len() ==> #[trigger] order[i] < problem.pieces.len(),
        all_stand(problem),
    ensures
        filled_so_far(problem, bfdh_state(problem, order, k)),
        shelves_above(bfdh_state(problem, order, k)),
    decreases k,
{
    let b = bfdh_state(problem, order, k);
    if k > 0 {
        let m = (k - 1) as nat;
        let a = bfdh_state(problem, order, m);
        let i = order[k - 1];
        let p = problem.pieces@[i as int];
        let w = upright_w(p);
        let h = upright_h(p);
        lemma_filled(problem, order, m);
        law_best_shelf_else_earliest_sheet(problem, order, m);
        let last = b.placements.last();
        assert(reach(problem, last) == last.y + h);
        assert forall|j: int| 0 <= j < a.placements.len() implies #[trigger] a.placements[j]
            == b.placements[j] by {
            assert(b.placements.drop_last()[j] == b.placements[j]);
        }
        if exists|q: int| #[trigger] shelf_taken(a, b, q, w, h, problem.sheet) {
            let q = choose|q: int| #[trigger] shelf_taken(a, b, q, w, h, problem.sheet);
            assert(a.shelves[q].y + a.shelves[q].h <= a.filled[a.shelves[q].sheet_idx as int]);
            assert forall|j: int| 0 <= j < b.placements.len() implies ({
                let pl = #[trigger] b.placements[j];
                pl.sheet_idx < b.filled.len() && reach(problem, pl)
                    <= b.filled[pl.sheet_idx as int]
            }) by {
                if j < a.placements.len() {
                    assert(a.placements[j] == b.placements[j]);
                }
            }
            assert forall|s: int| 0 <= s < b.filled.len() && #[trigger] b.filled[s] > 0 implies exists|
                j: int,
            |
                0 <= j < b.placements.len() && (#[trigger] b.placements[j]).sheet_idx == s && reach(
                    problem,
                    b.placements[j],
                ) == b.filled[s] by {
                let j = choose|j: int|
                    0 <= j < a.placements.len() && (#[trigger] a.placements[j]).sheet_idx == s
                        && reach(problem, a.placements[j]) == a.filled[s];
                assert(b.placements[j] == a.placements[j]);
            }
            assert forall|t: int| 0 <= t < b.shelves.len() implies ({
                let s = #[trigger] b.shelves[t];
                s.sheet_idx < b.filled.len() && s.y + s.h <= b.filled[s.sheet_idx as int]
            }) by {
                assert(a.shelves[t].sheet_idx < a.filled.len());
            }
        } else {
            let s = choose|s: int| #[trigger] shelf_begun(a, b, s, w, h);
            assert(shelf_begun(a, b, s, w, h));
            let n = a.placements.len() as int;
            assert(b.placements[n] == last);
            assert forall|j: int| 0 <= j < b.placements.len() implies ({
                let pl = #[trigger] b.placements[j];
                pl.sheet_idx < b.filled.len() && reach(problem, pl)
                    <= b.filled[pl.sheet_idx as int]
            }) by {
                if j < n {
                    assert(a.placements[j] == b.placements[j]);
                    let t = b.placements[j].sheet_idx as int;
                    assert(t != s ==> b.filled[t] == a.filled[t]);
                }
            }
            assert forall|t: int| 0 <= t < b.filled.len() && #[trigger] b.filled[t] > 0 implies exists|
                j: int,
            |
                0 <= j < b.placements.len() && (#[trigger] b.placements[j]).sheet_idx == t && reach(
                    problem,
                    b.placements[j],
                ) == b.filled[t] by {
                if t == s {
                    assert(b.placements[n].sheet_idx == s);
                } else {
                    assert(b.filled[t] == a.filled[t]);
                    let j = choose|j: int|
                        0 <= j < a.placements.len() && (#[trigger] a.placements[j]).sheet_idx == t
                            && reach(problem, a.placements[j]) == a.filled[t];
                    assert(b.placements[j] == a.placements[j]);
                }
            }
            assert forall|t: int| 0 <= t < b.shelves.len() implies ({
                let c = #[trigger] b.shelves[t];
                c.sheet_idx < b.filled.len() && c.y + c.h <= b.filled[c.sheet_idx as int]
            }) by {
                if t < a.shelves.len() {
                    assert(b.shelves[t] == a.shelves[t]);
                    let c = a.shelves[t].sheet_idx as int;
                    assert(c != s ==> b.filled[c] == a.filled[c]);
                }
            }
        }
    }
}

/// Of the placements alone: where a piece is the first of its shelf, at the left edge, every
/// sheet in front of its own holds a piece that ends so low that this one does not go below it.
/// Pieces have both sides positive.
pub proof fn law_no_earlier_sheet_has_room(problem: Problem, m: int, j: int)
    requires
        problem.pieces@.len() < usize::MAX,
        all_stand(problem),
        solid_pieces(problem),
        0 <= m < problem.pieces@.len(),
        ({
            let list = bfdh_state(problem, by_height(problem), problem.pieces@.len()).placements;
            list[m].x == 0 && 0 <= j < list[m].sheet_idx
        }),
    ensures
        ({
            let list = bfdh_state(problem, by_height(problem), problem.pieces@.len()).placements;
            let h = reach(problem, list[m]) - list[m].y;
            exists|i: int|
                0 <= i < m && (#[trigger] list[i]).sheet_idx == j && reach(problem, list[i]) + h
                    > problem.sheet.height
        }),
{
    let n = problem.pieces@.len();
    let order = by_height(problem);
    super::shelf::law_higher_pieces_first(problem);
    lemma_bfdh_prefix(problem, order, m as nat, n);
    lemma_bfdh_prefix(problem, order, (m + 1) as nat, n);
    let a = bfdh_state(problem, order, m as nat);
    let b = bfdh_state(problem, order, (m + 1) as nat);
    let list = bfdh_state(problem, order, n).placements;
    lemma_bfdh_sizes(problem, order, n);
    assert(list.take(m + 1)[m] == list[m]);
    assert(b.placements.last() == list[m]);
    let p = problem.pieces@[order[m] as int];
    let w = upright_w(p);
    let h = upright_h(p);
    assert(problem.pieces[order[m] as int].solid());
    lemma_filled(problem, order, m as nat);
    lemma_cursors(problem, order, m as nat);
    law_best_shelf_else_earliest_sheet(problem, order, m as nat);
    assert(!exists|q: int| #[trigger] shelf_taken(a, b, q, w, h, problem.sheet));
    let s = choose|s: int|
        {
            &&& #[trigger] shelf_begun(a, b, s, w, h)
            &&& forall|t: int| 0 <= t < s ==> #[trigger] a.filled[t] + h > problem.sheet.height
        };
    assert(a.filled[j] + h > problem.sheet.height);
    assert(h <= problem.sheet.height) by {
        assert(stand_h(problem.pieces[order[m] as int]) <= problem.sheet.height);
    }
    assert(a.filled[j] > 0);
    let i = choose|i: int|
        0 <= i < a.placements.len() && (#[trigger] a.placements[i]).sheet_idx == j && reach(
            problem,
            a.placements[i],
        ) == a.filled[j];
    assert(list.take(m)[i] == list[i]);
    assert(a.placements[i] == list[i]);
    lemma_bfdh_sizes(problem, order, m as nat);
    assert(placed_indices(a.placements).len() == m);
}

/// A shelf is never empty.
proof fn lemma_cursors(problem: Problem, order: Seq<usize>, k: nat)
    requires
        k <= order.len() < usize::MAX,
        forall|i: int| 0 <= i < order.len() ==> #[trigger] order[i] < problem.pieces.len(),
        all_stand(problem),
        solid_pieces(problem),
    ensures
        forall|q: int|
            0 <= q < bfdh_state(problem, order, k).shelves.len() ==> (#[trigger] bfdh_state(
                problem,
                order,
                k,
            ).shelves[q]).x_cursor > 0,
    decreases k,
{
    if k > 0 {
        let m = (k - 1) as nat;
        let a = bfdh_state(problem, order, m);
        let b = bfdh_state(problem, order, k);
        lemma_cursors(problem, order, m);
        law_best_shelf_else_earliest_sheet(problem, order, m);
        assert(problem.pieces[order[k - 1] as int].solid());
        assert forall|q: int| 0 <= q < b.shelves.len() implies (#[trigger] b.shelves[q]).x_cursor
            > 0 by {
            if q < a.shelves.len() {
                assert(a.shelves[q].x_cursor > 0);
            }
        }
    }
}

proof fn lemma_bfdh_prefix(problem: Problem, order: Seq<usize>, m: nat, n: nat)
    requires
        m <= n <= order.len(),
    ensures
        bfdh_state(problem, order, m).placements == bfdh_state(
            problem,
            order,
            n,
        ).placements.take(m as int),
    decreases n,
{
    lemma_bfdh_sizes(problem, order, m);
    lemma_bfdh_sizes(problem, order, n);
    let list = bfdh_state(problem, order, n).placements;
    assert(placed_indices(list).len() == n);
    assert(placed_indices(bfdh_state(problem, order, m).placements).len() == m);
    if m < n {
        lemma_bfdh_prefix(problem, order, m, (n - 1) as nat);
        let prev = bfdh_state(problem, order, (n - 1) as nat).placements;
        lemma_bfdh_sizes(problem, order, (n - 1) as nat);
        assert(placed_indices(prev).len() == n - 1);
        assert(list.take(m as int) =~= prev.take(m as int));
    } else {
        assert(list.take(m as int) =~= list);
    }
}

} // verus!
