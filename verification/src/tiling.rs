//! Packings that lose nothing: the placed pieces and the free rectangles of a sheet have its area.

use vstd::prelude::*;

use crate::layout::apart;
use crate::model::{cells, sheet_cell, well_placed, FreeRect, Placement, Problem};
use crate::packing::{
    fresh, law_leftovers_are_free, law_sliced_is_well_placed, opened, pack_of, placed, sliced,
    sliced_sheets, solid_pieces, split_parts, Pack,
};

verus! {

/// The area of the rectangles of a list on sheet `s`.
pub open spec fn area_on(list: Seq<FreeRect>, s: int) -> int
    decreases list.len(),
{
    if list.len() == 0 {
        0
    } else {
        area_on(list.drop_last(), s) + if list.last().sheet_idx == s {
            list.last().area()
        } else {
            0
        }
    }
}

/// The area of what is placed and what is free on sheet `s`.
pub open spec fn area_of_sheet(problem: Problem, st: Pack, s: int) -> int {
    area_on(cells(problem.pieces@, st.placements), s) + area_on(st.free, s)
}

/// What is placed and what is free has the area of the sheet, on every open sheet.
pub open spec fn tiles(problem: Problem, st: Pack) -> bool {
    forall|s: int| #[trigger]
        area_of_sheet(problem, st, s) == if 0 <= s < st.sheets {
            problem.sheet.width * problem.sheet.height
        } else {
            0
        }
}

/// The placed pieces and the leftovers of a solution have the areas of some number of sheets.
pub open spec fn tiled(
    problem: Problem,
    placements: Seq<Placement>,
    leftovers: Seq<FreeRect>,
) -> bool {
    exists|n: int| #[trigger] tiles(problem, pack_of(leftovers, placements, n))
}

pub proof fn lemma_area_push(list: Seq<FreeRect>, c: FreeRect, s: int)
    ensures
        area_on(list.push(c), s) == area_on(list, s) + if c.sheet_idx == s {
            c.area()
        } else {
            0
        },
{
    assert(list.push(c).drop_last() =~= list);
}

pub proof fn lemma_area_concat(a: Seq<FreeRect>, b: Seq<FreeRect>, s: int)
    ensures
        area_on(a + b, s) == area_on(a, s) + area_on(b, s),
    decreases b.len(),
{
    if b.len() == 0 {
        assert(a + b =~= a);
    } else {
        lemma_area_concat(a, b.drop_last(), s);
        assert((a + b).drop_last() =~= a + b.drop_last());
    }
}

proof fn lemma_area_remove(list: Seq<FreeRect>, i: int, s: int)
    requires
        0 <= i < list.len(),
    ensures
        area_on(list, s) == area_on(list.remove(i), s) + if list[i].sheet_idx == s {
            list[i].area()
        } else {
            0
        },
{
    let (a, b) = (list.take(i), list.skip(i + 1));
    assert(list.remove(i) =~= a + b);
    assert(list =~= a.push(list[i]) + b);
    lemma_area_concat(a, b, s);
    lemma_area_concat(a.push(list[i]), b, s);
    lemma_area_push(a, list[i], s);
}

proof fn lemma_area_elsewhere(list: Seq<FreeRect>, t: usize, s: int)
    requires
        forall|i: int| 0 <= i < list.len() ==> (#[trigger] list[i]).sheet_idx == t,
        s != t,
    ensures
        area_on(list, s) == 0,
    decreases list.len(),
{
    if list.len() > 0 {
        let d = list.drop_last();
        assert forall|i: int| 0 <= i < d.len() implies (#[trigger] d[i]).sheet_idx == t by {
            assert(d[i] == list[i]);
        }
        lemma_area_elsewhere(d, t, s);
        assert(list[list.len() - 1].sheet_idx == t);
    }
}

proof fn lemma_area_member(list: Seq<FreeRect>, i: int)
    requires
        0 <= i < list.len(),
    ensures
        area_on(list, list[i].sheet_idx as int) >= list[i].area(),
{
    lemma_area_remove(list, i, list[i].sheet_idx as int);
    lemma_area_positive(list.remove(i), list[i].sheet_idx as int);
}

proof fn lemma_area_positive(list: Seq<FreeRect>, s: int)
    ensures
        area_on(list, s) >= 0,
    decreases list.len(),
{
    if list.len() > 0 {
        lemma_area_positive(list.drop_last(), s);
        let c = list.last();
        assert(c.w * c.h >= 0) by (nonlinear_arith)
            requires
                c.w >= 0,
                c.h >= 0,
        ;
    }
}

/// On every sheet with a piece, the placed pieces and the leftovers share no inner point and
/// have the area of the sheet together: nothing of it is lost.
pub proof fn law_nothing_is_lost(
    problem: Problem,
    placements: Seq<Placement>,
    leftovers: Seq<FreeRect>,
)
    requires
        sliced(problem, placements, leftovers),
        tiled(problem, placements, leftovers),
        solid_pieces(problem),
    ensures
        well_placed(problem, placements),
        forall|i: int, j: int|
            0 <= i < j < leftovers.len() ==> apart(#[trigger] leftovers[i], #[trigger] leftovers[j]),
        forall|i: int, j: int|
            0 <= i < leftovers.len() && 0 <= j < placements.len() ==> apart(
                #[trigger] leftovers[i],
                (#[trigger] placements[j]).cell(problem.pieces@),
            ),
        forall|i: int|
            0 <= i < placements.len() ==> area_on(
                cells(problem.pieces@, placements),
                (#[trigger] placements[i]).sheet_idx as int,
            ) + area_on(leftovers, placements[i].sheet_idx as int) == problem.sheet.width
                * problem.sheet.height,
{
    law_sliced_is_well_placed(problem, placements, leftovers);
    law_leftovers_are_free(problem, placements, leftovers);
    let n = choose|n: int| #[trigger] tiles(problem, pack_of(leftovers, placements, n));
    let st = pack_of(leftovers, placements, n);
    let c = cells(problem.pieces@, placements);
    let m = choose|m: nat| #[trigger] sliced_sheets(problem, placements, leftovers, m);
    assert forall|i: int| 0 <= i < placements.len() implies area_on(
        c,
        (#[trigger] placements[i]).sheet_idx as int,
    ) + area_on(leftovers, placements[i].sheet_idx as int) == problem.sheet.width
        * problem.sheet.height by {
        let s = placements[i].sheet_idx as int;
        assert(c[i].sheet_idx == s);
        lemma_area_member(c, i);
        lemma_area_positive(leftovers, s);
        assert(placements[i].piece_idx < problem.pieces.len());
        let p = problem.pieces[placements[i].piece_idx as int];
        assert(p.solid());
        assert(c[i].w * c[i].h > 0) by (nonlinear_arith)
            requires
                c[i].w > 0,
                c[i].h > 0,
        ;
        assert(area_of_sheet(problem, st, s) > 0);
    }
}

pub proof fn lemma_tiles_fresh(problem: Problem)
    ensures
        tiles(problem, fresh(problem.sheet)),
{
    let st = fresh(problem.sheet);
    let c = sheet_cell(problem.sheet, 0);
    assert(cells(problem.pieces@, st.placements) =~= Seq::empty());
    assert(st.free =~= Seq::empty().push(c));
    assert forall|s: int| #[trigger] area_of_sheet(problem, st, s) == if 0 <= s < st.sheets {
        problem.sheet.width * problem.sheet.height
    } else {
        0
    } by {
        lemma_area_push(Seq::empty(), c, s);
    }
}

pub proof fn lemma_tiles_opened(problem: Problem, st: Pack)
    requires
        tiles(problem, st),
        0 <= st.sheets <= usize::MAX,
    ensures
        tiles(problem, opened(problem.sheet, st)),
{
    let st2 = opened(problem.sheet, st);
    assert forall|s: int| #[trigger] area_of_sheet(problem, st2, s) == if 0 <= s < st2.sheets {
        problem.sheet.width * problem.sheet.height
    } else {
        0
    } by {
        assert(area_of_sheet(problem, st, s) == if 0 <= s < st.sheets {
            problem.sheet.width * problem.sheet.height
        } else {
            0
        });
        lemma_area_push(st.free, sheet_cell(problem.sheet, st.sheets), s);
    }
}

/// A free rectangle is exchanged for pieces and free rectangles of the same area in its sheet.
pub proof fn lemma_tiles_exchange(
    problem: Problem,
    st: Pack,
    idx: int,
    more: Seq<Placement>,
    rest: Seq<FreeRect>,
    st2: Pack,
)
    requires
        tiles(problem, st),
        0 <= idx < st.free.len(),
        st2.sheets == st.sheets,
        st2.placements == st.placements + more,
        st2.free == st.free.remove(idx) + rest,
        forall|i: int|
            0 <= i < more.len() ==> (#[trigger] more[i]).sheet_idx == st.free[idx].sheet_idx,
        forall|i: int|
            0 <= i < rest.len() ==> (#[trigger] rest[i]).sheet_idx == st.free[idx].sheet_idx,
        area_on(cells(problem.pieces@, more), st.free[idx].sheet_idx as int) + area_on(
            rest,
            st.free[idx].sheet_idx as int,
        ) == st.free[idx].area(),
    ensures
        tiles(problem, st2),
{
    let t = st.free[idx].sheet_idx;
    let (c0, c1) = (cells(problem.pieces@, st.placements), cells(problem.pieces@, more));
    assert(cells(problem.pieces@, st2.placements) =~= c0 + c1);
    assert forall|s: int| #[trigger] area_of_sheet(problem, st2, s) == if 0 <= s < st2.sheets {
        problem.sheet.width * problem.sheet.height
    } else {
        0
    } by {
        assert(area_of_sheet(problem, st, s) == if 0 <= s < st.sheets {
            problem.sheet.width * problem.sheet.height
        } else {
            0
        });
        lemma_area_concat(c0, c1, s);
        lemma_area_concat(st.free.remove(idx), rest, s);
        lemma_area_remove(st.free, idx, s);
        if s != t {
            assert forall|i: int| 0 <= i < c1.len() implies (#[trigger] c1[i]).sheet_idx == t by {
                assert(more[i].sheet_idx == t);
            }
            lemma_area_elsewhere(c1, t, s);
            lemma_area_elsewhere(rest, t, s);
        }
    }
}

/// Placing a piece loses nothing.
pub proof fn lemma_tiles_placed(
    problem: Problem,
    st: Pack,
    idx: int,
    piece_idx: usize,
    pw: u32,
    ph: u32,
    rotated: bool,
    horizontal: bool,
)
    requires
        tiles(problem, st),
        0 <= idx < st.free.len(),
        piece_idx < problem.pieces.len(),
        pw == problem.pieces[piece_idx as int].placed_w(rotated),
        ph == problem.pieces[piece_idx as int].placed_h(rotated),
        pw <= st.free[idx].w,
        ph <= st.free[idx].h,
    ensures
        tiles(problem, placed(st, idx, piece_idx, pw, ph, rotated, horizontal)),
{
    let fr = st.free[idx];
    let s = fr.sheet_idx as int;
    let pl = Placement { sheet_idx: fr.sheet_idx, piece_idx, x: fr.x, y: fr.y, rotated };
    let st2 = placed(st, idx, piece_idx, pw, ph, rotated, horizontal);
    let rest = split_parts(fr, pw, ph, horizontal);
    let c = pl.cell(problem.pieces@);
    let none = Seq::<FreeRect>::empty();
    assert(st2.placements =~= st.placements + seq![pl]);
    assert(cells(problem.pieces@, seq![pl]) =~= none.push(c));
    lemma_area_push(none, c, s);
    let right = crate::packing::right_rest(fr, pw, ph, horizontal);
    let bottom = crate::packing::bottom_rest(fr, pw, ph, horizontal);
    let first = if fr.w > pw {
        none.push(right)
    } else {
        none
    };
    assert(rest =~= if fr.h > ph {
        first.push(bottom)
    } else {
        first
    });
    lemma_area_push(none, right, s);
    lemma_area_push(first, bottom, s);
    let (w, h, a, b) = (fr.w as int, fr.h as int, pw as int, ph as int);
    if horizontal {
        assert(a * b + (w - a) * b + w * (h - b) == w * h) by (nonlinear_arith);
        assert(w == a ==> (w - a) * b == 0) by (nonlinear_arith);
        assert(h == b ==> w * (h - b) == 0) by (nonlinear_arith);
    } else {
        assert(a * b + (w - a) * h + a * (h - b) == w * h) by (nonlinear_arith);
        assert(w == a ==> (w - a) * h == 0) by (nonlinear_arith);
        assert(h == b ==> a * (h - b) == 0) by (nonlinear_arith);
    }
    lemma_tiles_exchange(problem, st, idx, seq![pl], rest, st2);
}

} // verus!
