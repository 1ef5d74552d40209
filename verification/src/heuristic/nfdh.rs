use vstd::prelude::*;

use super::bfdh::{rest_of, stand_placement};
use super::shelf::{
    all_stand, by_height, stand_h, stand_w, standing, upright_h, upright_w, TallRanking,
};
use crate::model::{FreeRect, Placement, Problem, Sheet, Solution};
use crate::packing::{
    bottom_rest, coherent, complete, few_sheets, fresh, lemma_cornered, lemma_fewer_free,
    lemma_fresh, lemma_opened, lemma_update_multiset, lemma_without_leftovers, opened, pack_of,
    placed_indices, right_rest, sliced, solid_pieces, Pack,
};
use crate::sorting::{lemma_in_order_all, precedes, ranked, Ranking};

verus! {

/// State of the packer: which pieces of the order are placed, the corner at which the active
/// row goes on, the height of the row, and what is placed.
pub struct Row {
    pub done: Seq<bool>,
    pub sheet_idx: int,
    pub x: u32,
    pub y: u32,
    pub row_h: u32,
    pub placements: Seq<Placement>,
}

/// Piece `i` fits at the end of the active row.
pub open spec fn row_fits(problem: Problem, st: Row, i: usize) -> bool {
    let p = problem.pieces[i as int];
    st.x + stand_w(p) <= problem.sheet.width && st.y + stand_h(p) <= problem.sheet.height
}

/// Piece `i`, which is number `pos` of the order, goes to the end of the row.
pub open spec fn row_put(problem: Problem, st: Row, pos: int, i: usize) -> Row {
    let p = problem.pieces[i as int];
    Row {
        done: st.done.update(pos, true),
        x: (st.x + stand_w(p)) as u32,
        row_h: if stand_h(p) > st.row_h {
            stand_h(p)
        } else {
            st.row_h
        },
        placements: st.placements.push(stand_placement(problem, i, st.sheet_idx, st.x, st.y)),
        ..st
    }
}

/// Pieces of the order from `from` up to `to` that still fit go into the row.
pub open spec fn gap_fill(
    problem: Problem,
    order: Seq<usize>,
    st: Row,
    from: int,
    to: int,
) -> Row
    decreases to - from,
{
    if to <= from {
        st
    } else {
        let s = gap_fill(problem, order, st, from, to - 1);
        if !s.done[to - 1] && row_fits(problem, s, order[to - 1]) {
            row_put(problem, s, to - 1, order[to - 1])
        } else {
            s
        }
    }
}

/// A new row below the active one where a piece of height `ph` fits there, else a new sheet.
pub open spec fn next_row(problem: Problem, st: Row, ph: u32) -> Row {
    if st.row_h > 0 && st.y + st.row_h + ph <= problem.sheet.height {
        Row { x: 0, y: (st.y + st.row_h) as u32, row_h: 0, ..st }
    } else {
        Row { sheet_idx: st.sheet_idx + 1, x: 0, y: 0, row_h: 0, ..st }
    }
}

/// The state in which piece number `i` of the order can be placed, when it does not fit now.
pub open spec fn make_room(problem: Problem, order: Seq<usize>, st: Row, i: int) -> Row {
    next_row(
        problem,
        gap_fill(problem, order, st, i + 1, order.len() as int),
        stand_h(problem.pieces[order[i] as int]),
    )
}

/// Places the pieces from number `i` of the order on.
pub open spec fn nfdh_run(problem: Problem, order: Seq<usize>, st: Row, i: int) -> Row
    decreases
            order.len() - i,
            (if row_fits(problem, st, order[i]) {
                0int
            } else {
                1int
            }),
{
    if i >= order.len() {
        st
    } else if st.done[i] {
        nfdh_run(problem, order, st, i + 1)
    } else if row_fits(problem, st, order[i]) {
        nfdh_run(problem, order, row_put(problem, st, i, order[i]), i + 1)
    } else {
        let st2 = make_room(problem, order, st, i);
        if row_fits(problem, st2, order[i]) {
            nfdh_run(problem, order, st2, i)
        } else {
            st2
        }
    }
}

pub open spec fn first_row(n: nat) -> Row {
    Row {
        done: Seq::new(n, |i: int| false),
        sheet_idx: 0,
        x: 0,
        y: 0,
        row_h: 0,
        placements: Seq::empty(),
    }
}

/// All pieces, placed row by row.
pub open spec fn nfdh_result(problem: Problem) -> Row {
    nfdh_run(problem, by_height(problem), first_row(problem.pieces@.len()), 0)
}

/// The placed pieces are those that are marked, each of them once.
spec fn tracked_once(order: Seq<usize>, st: Row) -> bool {
    let s = placed_indices(st.placements);
    &&& st.done.len() == order.len()
    &&& s.no_duplicates()
    &&& forall|k: int| 0 <= k < order.len() ==> (#[trigger] st.done[k] <==> s.contains(order[k]))
    &&& forall|v: usize| s.contains(v) ==> order.contains(v)
}

proof fn lemma_put_once(problem: Problem, order: Seq<usize>, st: Row, pos: int)
    requires
        tracked_once(order, st),
        order.no_duplicates(),
        0 <= pos < order.len(),
        !st.done[pos],
    ensures
        tracked_once(order, row_put(problem, st, pos, order[pos])),
{
    let st2 = row_put(problem, st, pos, order[pos]);
    let s = placed_indices(st.placements);
    let t = placed_indices(st2.placements);
    assert(t =~= s.push(order[pos]));
    assert forall|v: usize| t.contains(v) <==> s.contains(v) || v == order[pos] by {
        if s.contains(v) {
            let k = choose|k: int| 0 <= k < s.len() && s[k] == v;
            assert(t[k] == v);
        }
        assert(t[t.len() - 1] == order[pos]);
    }
    assert forall|k: int| 0 <= k < order.len() implies (#[trigger] st2.done[k] <==> t.contains(
        order[k],
    )) by {
        if k != pos {
            assert(order[k] != order[pos]);
        }
    }
}

/// The pieces are sorted by height.
spec fn falling(problem: Problem, order: Seq<usize>) -> bool {
    forall|a: int, b: int|
        0 <= a < b < order.len() ==> stand_h(problem.pieces[#[trigger] order[a] as int]) >= stand_h(
            problem.pieces[#[trigger] order[b] as int],
        )
}

spec fn row_free(sheet: Sheet, st: Row) -> Seq<FreeRect> {
    if st.row_h == 0 {
        seq![rest_of(sheet, st.sheet_idx, st.y)]
    } else {
        seq![
            FreeRect {
                sheet_idx: st.sheet_idx as usize,
                x: st.x,
                y: st.y,
                w: (sheet.width - st.x) as u32,
                h: st.row_h,
            },
            rest_of(sheet, st.sheet_idx, (st.y + st.row_h) as u32),
        ]
    }
}

/// The rows seen as a cutting of the sheets.
spec fn row_pack(sheet: Sheet, st: Row) -> Pack {
    pack_of(row_free(sheet, st), st.placements, st.sheet_idx + 1)
}

/// The row is inside the sheet, and every piece that is not placed is no higher than it.
spec fn row_ok(problem: Problem, order: Seq<usize>, st: Row) -> bool {
    &&& st.done.len() == order.len()
    &&& 0 <= st.sheet_idx <= usize::MAX
    &&& st.x <= problem.sheet.width
    &&& st.y + st.row_h <= problem.sheet.height
    &&& st.row_h == 0 ==> st.x == 0
    &&& coherent(problem, row_pack(problem.sheet, st))
    &&& st.row_h > 0 ==> forall|k: int|
        0 <= k < order.len() && !#[trigger] st.done[k] ==> stand_h(
            problem.pieces[order[k] as int],
        ) <= st.row_h
}

proof fn lemma_row_put(problem: Problem, order: Seq<usize>, st: Row, pos: int)
    requires
        row_ok(problem, order, st),
        solid_pieces(problem),
        falling(problem, order),
        forall|i: int| 0 <= i < order.len() ==> #[trigger] order[i] < problem.pieces.len(),
        0 <= pos < order.len(),
        !st.done[pos],
        row_fits(problem, st, order[pos]),
        st.row_h == 0 ==> forall|k: int| 0 <= k < pos ==> #[trigger] st.done[k],
    ensures
        row_ok(problem, order, row_put(problem, st, pos, order[pos])),
        row_put(problem, st, pos, order[pos]).row_h > 0,
{
    let sheet = problem.sheet;
    let i = order[pos];
    let p = problem.pieces[i as int];
    assert(p.solid());
    let st2 = row_put(problem, st, pos, i);
    let pl = stand_placement(problem, i, st.sheet_idx, st.x, st.y);
    let c = pl.cell(problem.pieces@);
    let a = row_pack(sheet, st);
    let b = row_pack(sheet, st2);
    let e = Seq::<FreeRect>::empty();
    e.to_multiset_ensures();
    if st.row_h == 0 {
        let room = rest_of(sheet, st.sheet_idx, st.y);
        assert(a.free.remove(0) =~= e);
        let r = right_rest(room, c.w, c.h, true);
        let d = bottom_rest(room, c.w, c.h, true);
        e.push(r).to_multiset_ensures();
        assert(b.free =~= e.push(r).push(d));
        lemma_cornered(problem, a, 0, pl, true, true, b);
        assert forall|k: int| 0 <= k < order.len() && !#[trigger] st2.done[k] implies stand_h(
            problem.pieces[order[k] as int],
        ) <= st2.row_h by {
            if k < pos {
                assert(st.done[k]);
            } else if k > pos {
                assert(stand_h(problem.pieces[order[pos] as int]) >= stand_h(
                    problem.pieces[order[k] as int],
                ));
            }
        }
    } else {
        assert(stand_h(p) <= st.row_h);
        let r = right_rest(a.free[0], c.w, c.h, false);
        assert(b.free =~= a.free.update(0, r));
        lemma_update_multiset(a.free, 0, r);
        lemma_cornered(problem, a, 0, pl, false, false, b);
        assert forall|k: int| 0 <= k < order.len() && !#[trigger] st2.done[k] implies stand_h(
            problem.pieces[order[k] as int],
        ) <= st2.row_h by {
            assert(!st.done[k]);
        }
    }
}

proof fn lemma_gap_fill(problem: Problem, order: Seq<usize>, st: Row, from: int, to: int)
    requires
        row_ok(problem, order, st),
        st.row_h > 0,
        solid_pieces(problem),
        falling(problem, order),
        forall|i: int| 0 <= i < order.len() ==> #[trigger] order[i] < problem.pieces.len(),
        0 <= from <= to <= order.len(),
    ensures
        row_ok(problem, order, gap_fill(problem, order, st, from, to)),
        gap_fill(problem, order, st, from, to).row_h > 0,
    decreases to - from,
{
    if from < to {
        lemma_gap_fill(problem, order, st, from, to - 1);
        let s = gap_fill(problem, order, st, from, to - 1);
        if !s.done[to - 1] && row_fits(problem, s, order[to - 1]) {
            lemma_row_put(problem, order, s, to - 1);
        }
    }
}

proof fn lemma_gap_fill_keeps(problem: Problem, order: Seq<usize>, st: Row, from: int, to: int)
    requires
        tracked_once(order, st),
        order.no_duplicates(),
        0 <= from <= to <= order.len(),
    ensures
        tracked_once(order, gap_fill(problem, order, st, from, to)),
        gap_fill(problem, order, st, from, to).sheet_idx == st.sheet_idx,
        forall|k: int|
            0 <= k < order.len() && (st.done[k] || k < from) ==> #[trigger] gap_fill(
                problem,
                order,
                st,
                from,
                to,
            ).done[k] == st.done[k],
    decreases to - from,
{
    if from < to {
        lemma_gap_fill_keeps(problem, order, st, from, to - 1);
        let s = gap_fill(problem, order, st, from, to - 1);
        if !s.done[to - 1] && row_fits(problem, s, order[to - 1]) {
            lemma_put_once(problem, order, s, to - 1);
        }
    }
}

proof fn lemma_next_row(problem: Problem, order: Seq<usize>, st: Row, i: int)
    requires
        row_ok(problem, order, st),
        st.row_h > 0,
        st.sheet_idx < usize::MAX,
        0 <= i < order.len(),
        all_stand(problem),
        order[i] < problem.pieces.len(),
    ensures
        row_ok(problem, order, next_row(problem, st, stand_h(problem.pieces[order[i] as int]))),
{
    let sheet = problem.sheet;
    let ph = stand_h(problem.pieces[order[i] as int]);
    let st2 = next_row(problem, st, ph);
    let a = row_pack(sheet, st);
    let b = row_pack(sheet, st2);
    let e = Seq::<FreeRect>::empty();
    e.to_multiset_ensures();
    if st.y + st.row_h + ph <= sheet.height {
        assert(a.free =~= e.push(a.free[0]).push(a.free[1]));
        e.push(a.free[0]).to_multiset_ensures();
        assert(b.free =~= e.push(a.free[1]));
        assert(b.free.to_multiset().subset_of(a.free.to_multiset()));
        lemma_fewer_free(problem, a, b);
    } else {
        lemma_opened(problem, a);
        let o = opened(sheet, a);
        a.free.to_multiset_ensures();
        let whole = crate::model::sheet_cell(sheet, a.sheets);
        assert(b.free =~= e.push(whole));
        assert(b.free.to_multiset().subset_of(o.free.to_multiset()));
        lemma_fewer_free(problem, o, b);
    }
}

proof fn lemma_nfdh_run(problem: Problem, order: Seq<usize>, st: Row, i: int)
    requires
        row_ok(problem, order, st),
        solid_pieces(problem),
        falling(problem, order),
        all_stand(problem),
        order.no_duplicates(),
        order.len() < usize::MAX,
        tracked_once(order, st),
        forall|k: int| 0 <= k < order.len() ==> #[trigger] order[k] < problem.pieces.len(),
        0 <= i <= order.len(),
        forall|k: int| 0 <= k < i ==> #[trigger] st.done[k],
        st.row_h == 0 && i < order.len() ==> !st.done[i] && row_fits(problem, st, order[i]),
        st.sheet_idx <= i || (st.sheet_idx == i + 1 && i < order.len() && !st.done[i] && row_fits(
            problem,
            st,
            order[i],
        )),
    ensures
        sliced(problem, nfdh_run(problem, order, st, i).placements, Seq::empty()),
    decreases
            order.len() - i,
            (if row_fits(problem, st, order[i]) {
                0int
            } else {
                1int
            }),
{
    if i >= order.len() {
        lemma_without_leftovers(problem, row_pack(problem.sheet, st), Seq::empty());
    } else if st.done[i] {
        lemma_nfdh_run(problem, order, st, i + 1);
    } else if row_fits(problem, st, order[i]) {
        lemma_row_put(problem, order, st, i);
        lemma_put_once(problem, order, st, i);
        lemma_nfdh_run(problem, order, row_put(problem, st, i, order[i]), i + 1);
    } else {
        let n = order.len() as int;
        lemma_gap_fill(problem, order, st, i + 1, n);
        lemma_gap_fill_keeps(problem, order, st, i + 1, n);
        let mid = gap_fill(problem, order, st, i + 1, n);
        lemma_next_row(problem, order, mid, i);
        let st2 = make_room(problem, order, st, i);
        assert(problem.pieces[order[i] as int].solid());
        assert(row_fits(problem, st2, order[i]));
        assert(placed_indices(st2.placements) =~= placed_indices(mid.placements));
        assert forall|k: int| 0 <= k < i implies #[trigger] st2.done[k] by {
            assert(st.done[k]);
            assert(mid.done[k] == st.done[k]);
        }
        assert(mid.done[i] == st.done[i]);
        lemma_nfdh_run(problem, order, st2, i);
    }
}

/// Two lists without repetition that hold the same items are equally long.
proof fn lemma_same_items_same_length(s: Seq<usize>, t: Seq<usize>)
    requires
        s.no_duplicates(),
        t.no_duplicates(),
        forall|v: usize| s.contains(v) <==> t.contains(v),
    ensures
        s.len() == t.len(),
{
    s.unique_seq_to_set();
    t.unique_seq_to_set();
    assert(s.to_set() =~= t.to_set());
}

/// Next-fit decreasing height with gap filling. Pieces stand upright and are taken by
/// decreasing height, left to right in one active row; when the next piece does not fit, the
/// rest of the row is filled with any later pieces that do, and a new row begins below it, or
/// on a new sheet where the piece would exceed the sheet height.
pub fn nfdh_solve(problem: &Problem) -> (r: Solution)
    requires
        problem.pieces@.len() < usize::MAX,
        all_stand(*problem),
    ensures
        r.placements@ == nfdh_result(*problem).placements,
        r.leftovers@.len() == 0,
        complete(*problem, r.placements@),
        few_sheets(r.placements@, problem.pieces@.len() + 1),
        solid_pieces(*problem) ==> sliced(*problem, r.placements@, r.leftovers@),
{
    let sw: u64 = problem.sheet.width as u64;
    let sh: u64 = problem.sheet.height as u64;
    let n: usize = problem.pieces.len();
    let rank = TallRanking { problem };
    let order = ranked(&rank, n);
    let mut placements: Vec<Placement> = Vec::new();
    let mut done: Vec<bool> = vec![false; n];
    let mut sheet_idx: usize = 0;
    let mut x: u32 = 0;
    let mut y: u32 = 0;
    let mut row_h: u32 = 0;
    let mut i: usize = 0;
    let ghost mut st = first_row(n as nat);
    proof {
        assert(done@ =~= st.done);
        if n > 0 {
            lemma_in_order_all(rank.order(), n as nat, order@, 0);
        }
        assert(order@.no_duplicates());
        assert(placed_indices(st.placements) =~= Seq::empty());
        assert(placements@ =~= st.placements);
    }
    while i < n
        invariant
            i <= n,
            n == problem.pieces@.len(),
            n < usize::MAX,
            sw == problem.sheet.width,
            sh == problem.sheet.height,
            all_stand(*problem),
            order@.len() == n,
            order@ == by_height(*problem),
            order@.no_duplicates(),
            forall|k: int| 0 <= k < order.len() ==> #[trigger] order@[k] < n,
            done@ == st.done,
            sheet_idx == st.sheet_idx,
            x == st.x,
            y == st.y,
            row_h == st.row_h,
            x <= sw,
            y + row_h <= sh,
            placements@ == st.placements,
            few_sheets(placements@, (n + 1) as nat),
            tracked_once(order@, st),
            forall|k: int| 0 <= k < i ==> #[trigger] st.done[k],
            sheet_idx <= i || (sheet_idx == i + 1 && i < n && !st.done[i as int] && row_fits(
                *problem,
                st,
                order@[i as int],
            )),
            nfdh_result(*problem) == nfdh_run(*problem, order@, st, i as int),
        decreases
                n - i,
                (if row_fits(*problem, st, order@[i as int]) {
                    0int
                } else {
                    1int
                }),
    {
        if done[i] {
            i += 1;
            continue;
        }
        let (pw, ph, rotated) = standing(&problem.pieces[order[i]]);
        if x as u64 + pw as u64 <= sw && y as u64 + ph as u64 <= sh {
            placements.push(Placement { sheet_idx, piece_idx: order[i], x, y, rotated });
            done.set(i, true);
            proof {
                lemma_put_once(*problem, order@, st, i as int);
                st = row_put(*problem, st, i as int, order@[i as int]);
            }
            x = x + pw;
            if ph > row_h {
                row_h = ph;
            }
            i += 1;
        } else {
            let mut j: usize = i + 1;
            let ghost from = st;
            while j < n
                invariant
                    i < j <= n,
                    n == problem.pieces@.len(),
                    sw == problem.sheet.width,
                    sh == problem.sheet.height,
                    order@.len() == n,
                    order@.no_duplicates(),
                    forall|k: int| 0 <= k < order.len() ==> #[trigger] order@[k] < n,
                    done@ == st.done,
                    sheet_idx == st.sheet_idx,
                    x == st.x,
                    y == st.y,
                    row_h == st.row_h,
                    x <= sw,
                    y + row_h <= sh,
                    placements@ == st.placements,
                    sheet_idx <= n,
                    few_sheets(placements@, (n + 1) as nat),
                    tracked_once(order@, from),
                    tracked_once(order@, st),
                    st == gap_fill(*problem, order@, from, i + 1, j as int),
                decreases n - j,
            {
                if !done[j] {
                    let (pw_j, ph_j, rotated_j) = standing(&problem.pieces[order[j]]);
                    if x as u64 + pw_j as u64 <= sw && y as u64 + ph_j as u64 <= sh {
                        placements.push(
                            Placement {
                                sheet_idx,
                                piece_idx: order[j],
                                x,
                                y,
                                rotated: rotated_j,
                            },
                        );
                        done.set(j, true);
                        proof {
                            lemma_put_once(*problem, order@, st, j as int);
                            st = row_put(*problem, st, j as int, order@[j as int]);
                        }
                        x = x + pw_j;
                        if ph_j > row_h {
                            row_h = ph_j;
                        }
                    }
                }
                j += 1;
            }
            proof {
                lemma_gap_fill_keeps(*problem, order@, from, i + 1, n as int);
                assert(st.done[i as int] == from.done[i as int]);
            }
            if row_h > 0 && y as u64 + row_h as u64 + ph as u64 <= sh {
                y = y + row_h;
            } else {
                sheet_idx += 1;
                y = 0;
            }
            x = 0;
            row_h = 0;
            proof {
                let mid = st;
                st = next_row(*problem, mid, ph);
                assert(st == make_room(*problem, order@, from, i as int));
                assert(row_fits(*problem, st, order@[i as int]));
                assert(placed_indices(st.placements) =~= placed_indices(mid.placements));
                assert forall|k: int| 0 <= k < i implies #[trigger] st.done[k] by {
                    assert(from.done[k]);
                    assert(mid.done[k] == from.done[k]);
                }
            }
        }
    }
    let leftovers: Vec<FreeRect> = Vec::new();
    proof {
        let s = placed_indices(placements@);
        assert forall|v: usize| s.contains(v) <==> order@.contains(v) by {
            if order@.contains(v) {
                let k = choose|k: int| 0 <= k < order@.len() && order@[k] == v;
                assert(st.done[k]);
            }
        }
        lemma_same_items_same_length(s, order@);
        assert forall|k: int| 0 <= k < placements@.len() implies (
        #[trigger] placements@[k]).piece_idx < problem.pieces.len() by {
            assert(s[k] == placements@[k].piece_idx);
            assert(s.contains(s[k]));
            assert(order@.contains(s[k]));
        }
        if solid_pieces(*problem) {
            let f = first_row(n as nat);
            lemma_fresh(*problem);
            assert(row_pack(problem.sheet, f).free =~= fresh(problem.sheet).free);
            assert(placed_indices(f.placements) =~= Seq::empty());
            assert forall|a: int, b: int| 0 <= a < b < order@.len() implies stand_h(
                problem.pieces[#[trigger] order@[a] as int],
            ) >= stand_h(problem.pieces[#[trigger] order@[b] as int]) by {
                assert(precedes(rank.order(), order@[a] as int, order@[b] as int));
            }
            lemma_nfdh_run(*problem, order@, f, 0);
            assert(leftovers@ =~= Seq::empty());
        }
    }
    Solution { placements, leftovers }
}

/// Number `k` of the order is not laid yet.
pub open spec fn unlaid(order: Seq<usize>, before: Seq<Placement>, k: int) -> bool {
    0 <= k < order.len() && forall|q: int|
        0 <= q < before.len() ==> (#[trigger] before[q]).piece_idx != order[k]
}

/// Where a placed piece ends to the right.
pub open spec fn end_of(problem: Problem, pl: Placement) -> int {
    let p = problem.pieces@[pl.piece_idx as int];
    pl.x + if pl.rotated {
        p.height as int
    } else {
        p.width as int
    }
}

/// The row that ends with `last` has room for piece `v` behind it.
pub open spec fn row_takes(problem: Problem, last: Placement, v: usize) -> bool {
    let p = problem.pieces@[v as int];
    end_of(problem, last) + upright_w(p) <= problem.sheet.width && last.y + upright_h(p)
        <= problem.sheet.height
}

/// The row takes some piece that is not laid yet.
pub open spec fn takes_more(
    problem: Problem,
    order: Seq<usize>,
    before: Seq<Placement>,
    last: Placement,
) -> bool {
    exists|j: int| #[trigger] unlaid(order, before, j) && row_takes(problem, last, order[j])
}

/// `pl` begins the row that `last` is in, which is as high as its piece: `h`.
pub open spec fn begins_row(problem: Problem, pl: Placement, last: Placement, h: int) -> bool {
    &&& pl.x == 0
    &&& pl.sheet_idx == last.sheet_idx
    &&& pl.y == last.y
    &&& h == upright_h(problem.pieces@[pl.piece_idx as int])
}

/// Number `k` of the order is the first that is not laid yet.
pub open spec fn first_unlaid(order: Seq<usize>, before: Seq<Placement>, k: int) -> bool {
    unlaid(order, before, k) && forall|j: int| #[trigger] unlaid(order, before, j) ==> k <= j
}

/// Number `k` of the order is the first, of those not laid yet, that the row takes.
pub open spec fn first_taken(
    problem: Problem,
    order: Seq<usize>,
    before: Seq<Placement>,
    k: int,
) -> bool {
    &&& unlaid(order, before, k)
    &&& row_takes(problem, before.last(), order[k])
    &&& forall|j: int|
        #[trigger] unlaid(order, before, j) && row_takes(problem, before.last(), order[j]) ==> k
            <= j
}

/// A new row for piece `v` begins at the left edge at height `y` of a sheet: below the row that is
/// active, where the piece goes there, else on top of the next sheet.
pub open spec fn row_below(
    problem: Problem,
    before: Seq<Placement>,
    v: usize,
    sheet_idx: int,
    y: int,
) -> bool {
    let last = before.last();
    exists|r: int, h: int|
        {
            &&& 0 <= r < before.len()
            &&& #[trigger] begins_row(problem, before[r], last, h)
            &&& if last.y + h + upright_h(problem.pieces@[v as int]) <= problem.sheet.height {
                sheet_idx == last.sheet_idx && y == last.y + h
            } else {
                sheet_idx == last.sheet_idx + 1 && y == 0
            }
        }
}

/// What is laid behind `before`, number `k` of the order: the first in order, of those not laid
/// yet, that the active row takes, at its end. Where it takes none, the first of all, in a new
/// row below, and on a new sheet only where it does not go below.
pub open spec fn laid_in_rows(
    problem: Problem,
    order: Seq<usize>,
    before: Seq<Placement>,
    pl: Placement,
    k: int,
) -> bool {
    let p = problem.pieces@[order[k] as int];
    let last = before.last();
    &&& pl.piece_idx == order[k]
    &&& pl.rotated == (p.can_rotate && p.width > p.height)
    &&& if before.len() == 0 {
        &&& first_unlaid(order, before, k)
        &&& pl.sheet_idx == 0
        &&& pl.x == 0
        &&& pl.y == 0
    } else if takes_more(problem, order, before, last) {
        &&& first_taken(problem, order, before, k)
        &&& pl.sheet_idx == last.sheet_idx
        &&& pl.x == end_of(problem, last)
        &&& pl.y == last.y
    } else {
        &&& first_unlaid(order, before, k)
        &&& pl.x == 0
        &&& row_below(problem, before, order[k], pl.sheet_idx as int, pl.y as int)
    }
}

/// Placement number `m` follows the rule.
pub open spec fn follows(
    problem: Problem,
    order: Seq<usize>,
    before: Seq<Placement>,
    pl: Placement,
) -> bool {
    exists|k: int| #[trigger] laid_in_rows(problem, order, before, pl, k)
}

/// All placements follow the rule.
pub open spec fn all_in_rows(problem: Problem, order: Seq<usize>, list: Seq<Placement>) -> bool {
    forall|m: int|
        0 <= m < list.len() ==> follows(problem, order, list.take(m), #[trigger] list[m])
}

/// The corner of the active row.
spec fn corner_follows(problem: Problem, order: Seq<usize>, st: Row) -> bool {
    let list = st.placements;
    let last = list.last();
    if st.row_h > 0 {
        &&& list.len() > 0
        &&& st.sheet_idx == last.sheet_idx
        &&& st.x == end_of(problem, last)
        &&& st.y == last.y
        &&& exists|r: int|
            0 <= r < list.len() && #[trigger] begins_row(problem, list[r], last, st.row_h as int)
    } else {
        &&& st.x == 0
        &&& list.len() == 0 ==> st.sheet_idx == 0 && st.y == 0
        &&& list.len() > 0 ==> {
            &&& !takes_more(problem, order, list, last)
            &&& exists|k: int|
                #[trigger] first_unlaid(order, list, k) && row_below(
                    problem,
                    list,
                    order[k],
                    st.sheet_idx,
                    st.y as int,
                )
        }
    }
}

/// The rule holds so far, and the corner of the active row is where it leads.
#[verifier::opaque]
spec fn rows_so_far(problem: Problem, order: Seq<usize>, st: Row) -> bool {
    corner_follows(problem, order, st) && all_in_rows(problem, order, st.placements)
}

proof fn lemma_unlaid(order: Seq<usize>, st: Row, k: int)
    requires
        tracked_once(order, st),
        0 <= k < order.len(),
    ensures
        unlaid(order, st.placements, k) == !st.done[k],
{
    let s = placed_indices(st.placements);
    assert(st.done[k] <==> s.contains(order[k]));
    if s.contains(order[k]) {
        let q = choose|q: int| 0 <= q < s.len() && s[q] == order[k];
        assert(st.placements[q].piece_idx == order[k]);
    } else {
        assert forall|q: int| 0 <= q < st.placements.len() implies (
        #[trigger] st.placements[q]).piece_idx != order[k] by {
            assert(s[q] == st.placements[q].piece_idx);
        }
    }
}

/// What is put at the end of the row follows the rule.
proof fn lemma_put_laid(problem: Problem, order: Seq<usize>, st: Row, pos: int)
    requires
        corner_follows(problem, order, st),
        tracked_once(order, st),
        0 <= st.sheet_idx <= usize::MAX,
        0 <= pos < order.len(),
        !st.done[pos],
        row_fits(problem, st, order[pos]),
        forall|j: int|
            0 <= j < pos && !#[trigger] st.done[j] ==> st.row_h > 0 && !row_fits(
                problem,
                st,
                order[j],
            ),
    ensures
        laid_in_rows(
            problem,
            order,
            st.placements,
            stand_placement(problem, order[pos], st.sheet_idx, st.x, st.y),
            pos,
        ),
{
    let list = st.placements;
    lemma_unlaid(order, st, pos);
    assert forall|j: int| #[trigger] unlaid(order, list, j) implies !st.done[j] by {
        lemma_unlaid(order, st, j);
    }
    let last = list.last();
    if st.row_h > 0 {
        assert(row_takes(problem, last, order[pos]));
        assert(takes_more(problem, order, list, last));
        assert forall|j: int|
            #[trigger] unlaid(order, list, j) && row_takes(problem, last, order[j]) implies pos
            <= j by {
            assert(row_fits(problem, st, order[j]));
        }
        assert(first_taken(problem, order, list, pos));
    } else {
        assert forall|j: int| #[trigger] unlaid(order, list, j) implies pos <= j by {}
        assert(first_unlaid(order, list, pos));
        if list.len() > 0 {
            let k = choose|k: int|
                #[trigger] first_unlaid(order, list, k) && row_below(
                    problem,
                    list,
                    order[k],
                    st.sheet_idx,
                    st.y as int,
                );
            assert(k == pos);
        }
    }
}

/// One placement more that follows the rule.
proof fn lemma_all_follow(
    problem: Problem,
    order: Seq<usize>,
    list: Seq<Placement>,
    pl: Placement,
    k: int,
)
    requires
        all_in_rows(problem, order, list),
        laid_in_rows(problem, order, list, pl, k),
    ensures
        all_in_rows(problem, order, list.push(pl)),
{
    let all = list.push(pl);
    assert forall|m: int| 0 <= m < all.len() implies follows(
        problem,
        order,
        all.take(m),
        #[trigger] all[m],
    ) by {
        if m < list.len() {
            assert(all.take(m) =~= list.take(m));
            assert(all[m] == list[m]);
        } else {
            assert(all.take(m) =~= list);
        }
    }
}

/// The first piece that the row takes is put at its end.
proof fn lemma_put_follows(problem: Problem, order: Seq<usize>, st: Row, pos: int)
    requires
        rows_so_far(problem, order, st),
        row_ok(problem, order, st),
        tracked_once(order, st),
        solid_pieces(problem),
        0 <= pos < order.len(),
        order[pos] < problem.pieces.len(),
        !st.done[pos],
        row_fits(problem, st, order[pos]),
        forall|j: int|
            0 <= j < pos && !#[trigger] st.done[j] ==> st.row_h > 0 && !row_fits(
                problem,
                st,
                order[j],
            ),
    ensures
        rows_so_far(problem, order, row_put(problem, st, pos, order[pos])),
        row_put(problem, st, pos, order[pos]).row_h > 0,
{
    reveal(rows_so_far);
    let list = st.placements;
    let st2 = row_put(problem, st, pos, order[pos]);
    let all = st2.placements;
    let pl = stand_placement(problem, order[pos], st.sheet_idx, st.x, st.y);
    let p = problem.pieces[order[pos] as int];
    assert(p.solid());
    lemma_put_laid(problem, order, st, pos);
    lemma_all_follow(problem, order, list, pl, pos);
    let last = list.last();
    assert(all.last() == pl);
    if st.row_h > 0 {
        let r = choose|r: int|
            0 <= r < list.len() && #[trigger] begins_row(
                problem,
                list[r],
                last,
                st.row_h as int,
            );
        assert(stand_h(problem.pieces[order[pos] as int]) <= st.row_h);
        assert(all[r] == list[r]);
        assert(begins_row(problem, all[r], pl, st2.row_h as int));
    } else {
        assert(all[all.len() - 1] == pl);
        assert(begins_row(problem, all[all.len() - 1], pl, st2.row_h as int));
    }
}

/// Filling the gap of a row: what is skipped does not fit any more later on.
proof fn lemma_gap_follows(problem: Problem, order: Seq<usize>, st: Row, i: int, to: int)
    requires
        rows_so_far(problem, order, st),
        row_ok(problem, order, st),
        tracked_once(order, st),
        st.row_h > 0,
        solid_pieces(problem),
        falling(problem, order),
        order.no_duplicates(),
        forall|k: int| 0 <= k < order.len() ==> #[trigger] order[k] < problem.pieces.len(),
        0 <= i < to <= order.len(),
        forall|k: int| 0 <= k < i ==> #[trigger] st.done[k],
        !row_fits(problem, st, order[i]),
    ensures
        ({
            let z = gap_fill(problem, order, st, i + 1, to);
            &&& rows_so_far(problem, order, z)
            &&& row_ok(problem, order, z)
            &&& tracked_once(order, z)
            &&& z.row_h > 0
            &&& forall|k: int| 0 <= k < i ==> #[trigger] z.done[k]
            &&& forall|j: int|
                0 <= j < to && !#[trigger] z.done[j] ==> !row_fits(problem, z, order[j])
        }),
    decreases to - i,
{
    lemma_gap_fill(problem, order, st, i + 1, to);
    lemma_gap_fill_keeps(problem, order, st, i + 1, to);
    let z = gap_fill(problem, order, st, i + 1, to);
    assert forall|k: int| 0 <= k < i implies #[trigger] z.done[k] by {
        assert(st.done[k]);
    }
    if to > i + 1 {
        lemma_gap_follows(problem, order, st, i, to - 1);
        let s = gap_fill(problem, order, st, i + 1, to - 1);
        if !s.done[to - 1] && row_fits(problem, s, order[to - 1]) {
            lemma_put_follows(problem, order, s, to - 1);
            assert forall|j: int| 0 <= j < to && !#[trigger] z.done[j] implies !row_fits(
                problem,
                z,
                order[j],
            ) by {
                assert(!s.done[j]);
                assert(!row_fits(problem, s, order[j]));
            }
        }
    }
}

/// A new row begins where the active one takes nothing more.
proof fn lemma_row_turns(problem: Problem, order: Seq<usize>, mid: Row, i: int)
    requires
        rows_so_far(problem, order, mid),
        tracked_once(order, mid),
        mid.row_h > 0,
        mid.y + mid.row_h <= problem.sheet.height,
        0 <= i < order.len(),
        !mid.done[i],
        forall|k: int| 0 <= k < i ==> #[trigger] mid.done[k],
        forall|j: int|
            0 <= j < order.len() && !#[trigger] mid.done[j] ==> !row_fits(problem, mid, order[j]),
    ensures
        rows_so_far(
            problem,
            order,
            next_row(problem, mid, stand_h(problem.pieces[order[i] as int])),
        ),
{
    reveal(rows_so_far);
    let st2 = next_row(problem, mid, stand_h(problem.pieces[order[i] as int]));
    let list = mid.placements;
    let last = list.last();
    assert forall|j: int| #[trigger] unlaid(order, list, j) implies !row_takes(
        problem,
        last,
        order[j],
    ) && i <= j by {
        lemma_unlaid(order, mid, j);
        assert(!row_fits(problem, mid, order[j]));
    }
    lemma_unlaid(order, mid, i);
    assert(first_unlaid(order, list, i));
    let r = choose|r: int|
        0 <= r < list.len() && #[trigger] begins_row(problem, list[r], last, mid.row_h as int);
    assert(begins_row(problem, list[r], last, mid.row_h as int));
    assert(row_below(problem, list, order[i], st2.sheet_idx, st2.y as int));
}

#[verifier::rlimit(30)]
proof fn lemma_rows_follow(problem: Problem, order: Seq<usize>, st: Row, i: int)
    requires
        rows_so_far(problem, order, st),
        row_ok(problem, order, st),
        solid_pieces(problem),
        falling(problem, order),
        all_stand(problem),
        order.no_duplicates(),
        order.len() < usize::MAX,
        tracked_once(order, st),
        forall|k: int| 0 <= k < order.len() ==> #[trigger] order[k] < problem.pieces.len(),
        0 <= i <= order.len(),
        forall|k: int| 0 <= k < i ==> #[trigger] st.done[k],
        st.row_h == 0 && i < order.len() ==> !st.done[i] && row_fits(problem, st, order[i]),
        st.sheet_idx <= i || (st.sheet_idx == i + 1 && i < order.len() && !st.done[i] && row_fits(
            problem,
            st,
            order[i],
        )),
    ensures
        all_in_rows(problem, order, nfdh_run(problem, order, st, i).placements),
    decreases
            order.len() - i,
            (if row_fits(problem, st, order[i]) {
                0int
            } else {
                1int
            }),
{
    if i >= order.len() {
        assert(all_in_rows(problem, order, st.placements)) by {
            reveal(rows_so_far);
        }
    } else if st.done[i] {
        lemma_rows_follow(problem, order, st, i + 1);
    } else if row_fits(problem, st, order[i]) {
        lemma_row_put(problem, order, st, i);
        lemma_put_once(problem, order, st, i);
        lemma_put_follows(problem, order, st, i);
        lemma_rows_follow(problem, order, row_put(problem, st, i, order[i]), i + 1);
    } else {
        let n = order.len() as int;
        lemma_gap_fill_keeps(problem, order, st, i + 1, n);
        lemma_gap_follows(problem, order, st, i, n);
        let mid = gap_fill(problem, order, st, i + 1, n);
        lemma_next_row(problem, order, mid, i);
        let st2 = make_room(problem, order, st, i);
        let p = problem.pieces[order[i] as int];
        assert(p.solid());
        assert(row_fits(problem, st2, order[i]));
        assert(placed_indices(st2.placements) =~= placed_indices(mid.placements));
        assert forall|k: int| 0 <= k < i implies #[trigger] st2.done[k] by {
            assert(st.done[k]);
            assert(mid.done[k] == st.done[k]);
        }
        assert(mid.done[i] == st.done[i]);
        lemma_row_turns(problem, order, mid, i);
        lemma_rows_follow(problem, order, st2, i);
    }
}

/// Row by row: each piece that is laid is the first in order of height, of those not laid yet,
/// that the active row takes, and stands at its end. Where the row takes none of them, the first
/// of all begins a new row below it, and a new sheet only where it does not go below. Pieces have
/// both sides positive.
pub proof fn law_rows_take_what_they_can(problem: Problem)
    requires
        problem.pieces@.len() < usize::MAX,
        all_stand(problem),
        solid_pieces(problem),
    ensures
        all_in_rows(problem, by_height(problem), nfdh_result(problem).placements),
{
    let n = problem.pieces@.len();
    let order = by_height(problem);
    super::shelf::law_higher_pieces_first(problem);
    let st = first_row(n);
    lemma_fresh(problem);
    assert(row_pack(problem.sheet, st).free =~= fresh(problem.sheet).free);
    assert(row_pack(problem.sheet, st) == fresh(problem.sheet));
    assert(placed_indices(st.placements) =~= Seq::empty());
    assert(falling(problem, order)) by {
        assert forall|a: int, b: int| 0 <= a < b < order.len() implies stand_h(
            problem.pieces[#[trigger] order[a] as int],
        ) >= stand_h(problem.pieces[#[trigger] order[b] as int]) by {}
    }
    if n > 0 {
        let p = problem.pieces[order[0] as int];
        assert(stand_w(p) <= problem.sheet.width && stand_h(p) <= problem.sheet.height);
    }
    assert(rows_so_far(problem, order, st)) by {
        reveal(rows_so_far);
    }
    lemma_rows_follow(problem, order, st, 0);
}

} // verus!
