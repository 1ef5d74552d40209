//! Deterministic packers.

pub mod beam;
pub mod bfdh;
pub mod choices;
pub mod common;
pub mod gbaf;
pub mod groupsub;
pub mod jylanki;
pub mod narrow;
pub mod nfdh;
pub mod shelf;

use vstd::prelude::*;

use self::bfdh::{
    find_fullest, fullest, has_end_for, lemma_fullest, rest_of, stand_placement, tail, tails, Shelf,
};
use self::gbaf::lemma_order_complete;
use self::nfdh::{nfdh_result, nfdh_solve};
use self::shelf::{
    all_stand, by_height, stand_h, stand_w, standing, upright_h, upright_w, TallRanking,
};
use crate::model::{sheet_cell, FreeRect, Placement, Problem, Sheet, Solution};
use crate::packing::{
    bottom_rest, coherent, complete, few_sheets, fresh, lemma_cornered, lemma_fewer_free,
    lemma_fresh, lemma_opened, lemma_update_multiset, lemma_without_leftovers, opened, pack_of,
    placed_indices, right_rest, sliced, solid_pieces, Pack,
};
use crate::sorting::{ranked, Ranking};

pub use self::beam::beam_solve;
pub use self::gbaf::gbaf_solve;
pub use self::jylanki::jylanki_solve;

verus! {

/// Shelves of the current sheet, its number and filled height, and what is placed.
pub struct SheetShelves {
    pub shelves: Seq<Shelf>,
    pub sheet_idx: int,
    pub y_cursor: u32,
    pub placements: Seq<Placement>,
}

/// Piece `i` goes on the fullest shelf of the current sheet that has room, else on a new shelf
/// below, else on a new sheet.
pub open spec fn sheet_step(problem: Problem, st: SheetShelves, i: usize) -> SheetShelves {
    let pw = stand_w(problem.pieces[i as int]);
    let ph = stand_h(problem.pieces[i as int]);
    match fullest(st.shelves, pw, ph, problem.sheet.width, st.shelves.len()) {
        Some(b) => {
            let s = st.shelves[b];
            SheetShelves {
                shelves: st.shelves.update(b, Shelf { x_cursor: (s.x_cursor + pw) as u32, ..s }),
                placements: st.placements.push(
                    stand_placement(problem, i, st.sheet_idx, s.x_cursor, s.y),
                ),
                ..st
            }
        },
        None => if st.y_cursor + ph <= problem.sheet.height {
            shelf_below(problem, st, i)
        } else {
            shelf_below(
                problem,
                SheetShelves {
                    shelves: Seq::empty(),
                    sheet_idx: st.sheet_idx + 1,
                    y_cursor: 0,
                    ..st
                },
                i,
            )
        },
    }
}

/// Piece `i` begins a new shelf at the filled height.
pub open spec fn shelf_below(problem: Problem, st: SheetShelves, i: usize) -> SheetShelves {
    let pw = stand_w(problem.pieces[i as int]);
    let ph = stand_h(problem.pieces[i as int]);
    SheetShelves {
        shelves: st.shelves.push(
            Shelf { sheet_idx: st.sheet_idx as usize, y: st.y_cursor, h: ph, x_cursor: pw },
        ),
        sheet_idx: st.sheet_idx,
        y_cursor: (st.y_cursor + ph) as u32,
        placements: st.placements.push(
            stand_placement(problem, i, st.sheet_idx, 0, st.y_cursor),
        ),
    }
}

/// The first `k` pieces of the order are placed.
pub open spec fn sheet_state(problem: Problem, order: Seq<usize>, k: nat) -> SheetShelves
    decreases k,
{
    if k == 0 {
        SheetShelves {
            shelves: Seq::empty(),
            sheet_idx: 0,
            y_cursor: 0,
            placements: Seq::empty(),
        }
    } else {
        sheet_step(problem, sheet_state(problem, order, (k - 1) as nat), order[k - 1])
    }
}

/// No piece, as it stands, is wider than the sheet.
pub open spec fn all_narrow(problem: Problem) -> bool {
    forall|i: int|
        0 <= i < problem.pieces.len() ==> stand_w(#[trigger] problem.pieces[i])
            <= problem.sheet.width
}

/// The shelves of the current sheet seen as a cutting.
spec fn sheet_pack(sheet: Sheet, st: SheetShelves) -> Pack {
    pack_of(
        tails(sheet, st.shelves).push(rest_of(sheet, st.sheet_idx, st.y_cursor)),
        st.placements,
        st.sheet_idx + 1,
    )
}

spec fn sheet_ok(problem: Problem, st: SheetShelves) -> bool {
    &&& coherent(problem, sheet_pack(problem.sheet, st))
    &&& 0 <= st.sheet_idx <= usize::MAX
    &&& st.y_cursor <= problem.sheet.height
    &&& forall|k: int|
        0 <= k < st.shelves.len() ==> (#[trigger] st.shelves[k]).x_cursor <= problem.sheet.width
            && st.shelves[k].sheet_idx == st.sheet_idx
}

proof fn lemma_shelf_below(problem: Problem, st: SheetShelves, i: usize)
    requires
        sheet_ok(problem, st),
        i < problem.pieces.len(),
        all_stand(problem),
        st.y_cursor + stand_h(problem.pieces[i as int]) <= problem.sheet.height,
    ensures
        sheet_ok(problem, shelf_below(problem, st, i)),
{
    let sheet = problem.sheet;
    let st2 = shelf_below(problem, st, i);
    let a = sheet_pack(sheet, st);
    let b = sheet_pack(sheet, st2);
    let n = st.shelves.len() as int;
    let pl = stand_placement(problem, i, st.sheet_idx, 0, st.y_cursor);
    let c = pl.cell(problem.pieces@);
    let room = rest_of(sheet, st.sheet_idx, st.y_cursor);
    assert(a.free[n] == room);
    let r = right_rest(room, c.w, c.h, true);
    let d = bottom_rest(room, c.w, c.h, true);
    let t = a.free.remove(n);
    assert(t =~= tails(sheet, st.shelves));
    assert(tails(sheet, st2.shelves) =~= t.push(r));
    assert(b.free =~= t.push(r).push(d));
    t.to_multiset_ensures();
    t.push(r).to_multiset_ensures();
    lemma_cornered(problem, a, n, pl, true, true, b);
}

proof fn lemma_sheet_step(problem: Problem, st: SheetShelves, i: usize)
    requires
        sheet_ok(problem, st),
        i < problem.pieces.len(),
        all_stand(problem),
        st.sheet_idx < usize::MAX,
    ensures
        sheet_ok(problem, sheet_step(problem, st, i)),
{
    let sheet = problem.sheet;
    let pw = stand_w(problem.pieces[i as int]);
    let ph = stand_h(problem.pieces[i as int]);
    lemma_fullest(st.shelves, pw, ph, sheet.width, st.shelves.len());
    let a = sheet_pack(sheet, st);
    match fullest(st.shelves, pw, ph, sheet.width, st.shelves.len()) {
        Some(k) => {
            let s = st.shelves[k];
            let s2 = Shelf { x_cursor: (s.x_cursor + pw) as u32, ..s };
            let st2 = sheet_step(problem, st, i);
            let b = sheet_pack(sheet, st2);
            let pl = stand_placement(problem, i, st.sheet_idx, s.x_cursor, s.y);
            let c = pl.cell(problem.pieces@);
            assert(a.free[k] == tail(sheet, s));
            assert(b.free =~= a.free.update(k, tail(sheet, s2)));
            lemma_update_multiset(a.free, k, tail(sheet, s2));
            assert(right_rest(tail(sheet, s), c.w, c.h, false) == tail(sheet, s2));
            lemma_cornered(problem, a, k, pl, false, false, b);
        },
        None => {
            if st.y_cursor + ph <= sheet.height {
                lemma_shelf_below(problem, st, i);
            } else {
                let mid = SheetShelves {
                    shelves: Seq::empty(),
                    sheet_idx: st.sheet_idx + 1,
                    y_cursor: 0,
                    ..st
                };
                lemma_opened(problem, a);
                let o = opened(sheet, a);
                let m = sheet_pack(sheet, mid);
                let e = Seq::<FreeRect>::empty();
                e.to_multiset_ensures();
                a.free.to_multiset_ensures();
                assert(m.free =~= e.push(sheet_cell(sheet, a.sheets)));
                assert(m.free.to_multiset().subset_of(o.free.to_multiset()));
                lemma_fewer_free(problem, o, m);
                lemma_shelf_below(problem, mid, i);
            }
        },
    }
}

proof fn lemma_sheet_sizes(problem: Problem, order: Seq<usize>, k: nat)
    requires
        k <= order.len() <= usize::MAX,
    ensures
        forall|i: int|
            0 <= i < k ==> (#[trigger] sheet_state(problem, order, k).placements[i]).sheet_idx
                <= sheet_state(problem, order, k).sheet_idx,
        sheet_state(problem, order, k).placements.len() == k,
        0 <= sheet_state(problem, order, k).sheet_idx <= k,
        placed_indices(sheet_state(problem, order, k).placements) =~= order.take(k as int),
    decreases k,
{
    if k > 0 {
        lemma_sheet_sizes(problem, order, (k - 1) as nat);
        let st = sheet_state(problem, order, (k - 1) as nat);
        let now = sheet_state(problem, order, k);
        let p0 = placed_indices(st.placements);
        let p1 = placed_indices(now.placements);
        assert forall|i: int| 0 <= i < k implies (#[trigger] now.placements[i]).sheet_idx
            <= now.sheet_idx by {
            if i < k - 1 {
                assert(now.placements[i] == st.placements[i]);
            }
        }
        assert forall|j: int| 0 <= j < k implies p1[j] == order[j] by {
            if j < k - 1 {
                assert(now.placements[j] == st.placements[j]);
                assert(p0[j] == order.take(k - 1)[j]);
            }
        }
    }
}

proof fn lemma_sheet_state(problem: Problem, order: Seq<usize>, k: nat)
    requires
        k <= order.len() < usize::MAX,
        forall|i: int| 0 <= i < order.len() ==> #[trigger] order[i] < problem.pieces.len(),
        all_stand(problem),
    ensures
        sheet_ok(problem, sheet_state(problem, order, k)),
    decreases k,
{
    if k == 0 {
        let st = sheet_state(problem, order, 0);
        lemma_fresh(problem);
        assert(sheet_pack(problem.sheet, st).free =~= fresh(problem.sheet).free);
    } else {
        lemma_sheet_state(problem, order, (k - 1) as nat);
        lemma_sheet_sizes(problem, order, (k - 1) as nat);
        lemma_sheet_step(problem, sheet_state(problem, order, (k - 1) as nat), order[k - 1]);
    }
}

/// Best-fit decreasing height, one sheet after the other. Pieces stand upright and are taken
/// by decreasing height; each goes on the fullest shelf of the current sheet that has room for
/// it, else on a new shelf below, and a new sheet is opened when the current one overflows.
pub fn bfdh_solve(problem: &Problem) -> (r: Solution)
    requires
        problem.pieces@.len() < usize::MAX,
        all_narrow(*problem),
    ensures
        r.placements@ == sheet_state(
            *problem,
            by_height(*problem),
            problem.pieces@.len(),
        ).placements,
        r.leftovers@.len() == 0,
        complete(*problem, r.placements@),
        all_stand(*problem) ==> sliced(*problem, r.placements@, r.leftovers@),
        few_sheets(r.placements@, problem.pieces@.len() + 1),
{
    let sw: u32 = problem.sheet.width;
    let sh: u32 = problem.sheet.height;
    let n: usize = problem.pieces.len();
    let rank = TallRanking { problem };
    let order = ranked(&rank, n);
    let mut placements: Vec<Placement> = Vec::new();
    let mut shelves: Vec<Shelf> = Vec::new();
    let mut sheet_idx: usize = 0;
    let mut y_cursor: u32 = 0;
    let mut k: usize = 0;
    while k < n
        invariant
            k <= n,
            n == problem.pieces@.len(),
            n < usize::MAX,
            sw == problem.sheet.width,
            sh == problem.sheet.height,
            order@.len() == n,
            forall|i: int| 0 <= i < order.len() ==> #[trigger] order@[i] < n,
            shelves@ == sheet_state(*problem, order@, k as nat).shelves,
            sheet_idx == sheet_state(*problem, order@, k as nat).sheet_idx,
            y_cursor == sheet_state(*problem, order@, k as nat).y_cursor,
            placements@ == sheet_state(*problem, order@, k as nat).placements,
        decreases n - k,
    {
        let i: usize = order[k];
        let (pw, ph, rotated) = standing(&problem.pieces[i]);
        proof {
            lemma_sheet_sizes(*problem, order@, k as nat);
            lemma_fullest(shelves@, pw, ph, sw, shelves@.len());
        }
        match find_fullest(&shelves, pw, ph, sw) {
            Some(b) => {
                let mut s = shelves[b];
                placements.push(
                    Placement { sheet_idx, piece_idx: i, x: s.x_cursor, y: s.y, rotated },
                );
                s.x_cursor = s.x_cursor + pw;
                shelves.set(b, s);
            },
            None => {
                if y_cursor as u64 + ph as u64 > sh as u64 {
                    sheet_idx += 1;
                    shelves.clear();
                    y_cursor = 0;
                }
                placements.push(
                    Placement { sheet_idx, piece_idx: i, x: 0, y: y_cursor, rotated },
                );
                shelves.push(Shelf { sheet_idx, y: y_cursor, h: ph, x_cursor: pw });
                y_cursor = y_cursor + ph;
            },
        }
        k += 1;
    }
    let leftovers: Vec<FreeRect> = Vec::new();
    proof {
        lemma_sheet_sizes(*problem, order@, n as nat);
        assert(order@.take(n as int) =~= order@);
        lemma_order_complete(rank.order(), *problem, order@, placements@);
        if all_stand(*problem) {
            lemma_sheet_state(*problem, order@, n as nat);
            let st = sheet_state(*problem, order@, n as nat);
            lemma_without_leftovers(*problem, sheet_pack(problem.sheet, st), leftovers@);
        }
    }
    Solution { placements, leftovers }
}

/// Row packer with gap filling, another name of `nfdh_solve`.
pub fn simple_solve(problem: &Problem) -> (r: Solution)
    requires
        problem.pieces@.len() < usize::MAX,
        all_stand(*problem),
    ensures
        r.placements@ == nfdh_result(*problem).placements,
        r.leftovers@.len() == 0,
        complete(*problem, r.placements@),
        few_sheets(r.placements@, problem.pieces@.len() + 1),
        solid_pieces(*problem) ==> sliced(*problem, r.placements@, r.leftovers@),
{
    nfdh_solve(problem)
}

/// From `a` to `b` a piece of `w` x `h` goes to the end of shelf `q` of the current sheet.
pub open spec fn shelf_taken(a: SheetShelves, b: SheetShelves, q: int, w: int) -> bool {
    let at = b.placements.last();
    &&& 0 <= q < a.shelves.len()
    &&& at.sheet_idx == a.sheet_idx
    &&& at.x == a.shelves[q].x_cursor
    &&& at.y == a.shelves[q].y
    &&& b.sheet_idx == a.sheet_idx
    &&& b.y_cursor == a.y_cursor
    &&& b.shelves.len() == a.shelves.len()
    &&& forall|j: int|
        0 <= j < a.shelves.len() && j != q ==> #[trigger] b.shelves[j] == a.shelves[j]
    &&& b.shelves[q].y == a.shelves[q].y
    &&& b.shelves[q].h == a.shelves[q].h
    &&& b.shelves[q].x_cursor == a.shelves[q].x_cursor + w
}

/// From `a` to `b` a piece of `w` x `h` begins a shelf: below the others of the current sheet, or
/// on a new sheet, where the shelves of the sheets before are not looked at again.
pub open spec fn shelf_begun(a: SheetShelves, b: SheetShelves, w: int, h: int, new: bool) -> bool {
    let at = b.placements.last();
    let top = if new {
        0
    } else {
        a.y_cursor as int
    };
    let kept = if new {
        0
    } else {
        a.shelves.len() as int
    };
    &&& b.sheet_idx == if new {
        a.sheet_idx + 1
    } else {
        a.sheet_idx
    }
    &&& at.sheet_idx == b.sheet_idx
    &&& at.x == 0
    &&& at.y == top
    &&& b.y_cursor == top + h
    &&& b.shelves.len() == kept + 1
    &&& forall|j: int| 0 <= j < kept ==> #[trigger] b.shelves[j] == a.shelves[j]
    &&& b.shelves.last().y == top
    &&& b.shelves.last().h == h
    &&& b.shelves.last().x_cursor == w
}

/// Sheet by sheet: a piece goes on the fullest of the shelves of the current sheet that have room
/// for it, the first one of equally full ones. Where none has room it begins one below them, and
/// a new sheet only where the height that is left is too small for it.
pub proof fn law_best_shelf_of_the_current_sheet(problem: Problem, order: Seq<usize>, k: nat)
    requires
        k < order.len() < usize::MAX,
        forall|i: int| 0 <= i < order.len() ==> #[trigger] order[i] < problem.pieces.len(),
        all_stand(problem),
    ensures
        ({
            let p = problem.pieces@[order[k as int] as int];
            let w = upright_w(p);
            let h = upright_h(p);
            let a = sheet_state(problem, order, k);
            let b = sheet_state(problem, order, k + 1);
            let sheet = problem.sheet;
            &&& b.placements.len() == a.placements.len() + 1
            &&& b.placements.drop_last() == a.placements
            &&& b.placements.last().piece_idx == order[k as int]
            &&& b.placements.last().rotated == (p.can_rotate && p.width > p.height)
            &&& {
                ||| exists|q: int|
                    {
                        &&& #[trigger] shelf_taken(a, b, q, w)
                        &&& has_end_for(a.shelves[q], w, h, sheet)
                        &&& forall|j: int|
                            0 <= j < a.shelves.len() && has_end_for(
                                #[trigger] a.shelves[j],
                                w,
                                h,
                                sheet,
                            ) ==> {
                                ||| a.shelves[j].x_cursor < a.shelves[q].x_cursor
                                ||| a.shelves[j].x_cursor == a.shelves[q].x_cursor && q <= j
                            }
                    }
                ||| {
                    &&& forall|j: int|
                        0 <= j < a.shelves.len() ==> !has_end_for(
                            #[trigger] a.shelves[j],
                            w,
                            h,
                            sheet,
                        )
                    &&& shelf_begun(a, b, w, h, a.y_cursor + h > sheet.height)
                }
            }
        }),
{
    let i = order[k as int];
    let p = problem.pieces[i as int];
    let pw = stand_w(p);
    let ph = stand_h(p);
    let w = upright_w(p);
    let h = upright_h(p);
    assert(w == pw && h == ph);
    let a = sheet_state(problem, order, k);
    let b = sheet_state(problem, order, k + 1);
    let sheet = problem.sheet;
    assert(stand_h(problem.pieces[i as int]) <= sheet.height);
    lemma_sheet_sizes(problem, order, k);
    lemma_sheet_state(problem, order, k);
    lemma_fullest(a.shelves, pw, ph, sheet.width, a.shelves.len());
    assert(b.placements.drop_last() =~= a.placements);
    match fullest(a.shelves, pw, ph, sheet.width, a.shelves.len()) {
        Some(q) => {
            assert(shelf_taken(a, b, q, w));
            assert forall|j: int| 0 <= j < a.shelves.len() && has_end_for(
                #[trigger] a.shelves[j],
                w,
                h,
                sheet,
            ) implies {
                ||| a.shelves[j].x_cursor < a.shelves[q].x_cursor
                ||| a.shelves[j].x_cursor == a.shelves[q].x_cursor && q <= j
            } by {
                assert(self::bfdh::shelf_fits(a.shelves[j], pw, ph, sheet.width));
            }
        },
        None => {
            assert forall|j: int| 0 <= j < a.shelves.len() implies !has_end_for(
                #[trigger] a.shelves[j],
                w,
                h,
                sheet,
            ) by {
                assert(!self::bfdh::shelf_fits(a.shelves[j], pw, ph, sheet.width));
            }
        },
    }
}

} // verus!
