//! What decoding a gene does: which free rectangle every batch goes into, how its pieces lie
//! there, and what remains free.

use vstd::prelude::*;

use super::decoder::{
    batch_fit, batch_leaf, batch_step, copies_of, decoded, decoding_ok, free_leaf, gene_step,
    genes_ok, grid_of, grid_placement, grid_placements, leaf_spots, lemma_batch_leaf,
    lemma_batch_step, lemma_grid, lemma_of_type_unique, lemma_placed_more, lemma_some_missing,
    of_type, picked, placed_exactly, run_ok, type_run, Decoding, GeneView, TypeRun,
};
use crate::expand::copies;
use crate::heuristic::gbaf::all_fit;
use crate::laying::{
    ahead, goes, goes_nowhere, lemma_ahead, lying_h, lying_w, room, strips_left, turned_as_wished,
};
use crate::model::{FreeRect, Piece, PieceType, Placement, Problem};
use crate::packing::{lemma_free_within, opened, placed_indices, solid_pieces, split_parts, Pack};
use crate::slas::decoder::{
    fit, fits_sheet, lemma_first_fit_nearest, nearest, selected_fit,
};

verus! {

/// The piece goes into the rectangle; `two`: so that a second one goes beside or below it;
/// with a sheet given: on that sheet.
pub open spec fn suits(
    fr: FreeRect,
    piece: Piece,
    wish: bool,
    two: bool,
    sheet: Option<usize>,
) -> bool {
    exists|turned: bool|
        {
            &&& #[trigger] goes(fr, piece, turned)
            &&& turned_as_wished(fr, piece, wish, turned)
            &&& sheet matches Some(s) ==> fr.sheet_idx == s
            &&& two ==> 2 * lying_w(piece, turned) <= fr.w || 2 * lying_h(piece, turned) <= fr.h
        }
}

/// `list` holds the numbers of the rectangles that suit, in order.
pub open spec fn listed(
    free: Seq<FreeRect>,
    piece: Piece,
    wish: bool,
    two: bool,
    sheet: Option<usize>,
    list: Seq<int>,
) -> bool {
    &&& forall|i: int|
        0 <= i < list.len() ==> 0 <= #[trigger] list[i] < free.len() && suits(
            free[list[i]],
            piece,
            wish,
            two,
            sheet,
        )
    &&& forall|i: int, j: int| 0 <= i < j < list.len() ==> #[trigger] list[i] < #[trigger] list[j]
    &&& forall|k: int|
        0 <= k < free.len() && suits(#[trigger] free[k], piece, wish, two, sheet) ==> list.contains(
            k,
        )
}

/// Of the rectangles that suit, `slot` is the one that the selector points at.
pub open spec fn pointed_at(
    free: Seq<FreeRect>,
    piece: Piece,
    wish: bool,
    two: bool,
    sheet: Option<usize>,
    selector: u32,
    slot: int,
) -> bool {
    exists|list: Seq<int>|
        {
            &&& #[trigger] listed(free, piece, wish, two, sheet, list)
            &&& list.len() > 0
            &&& slot == list[selector as int % list.len() as int]
        }
}

/// Some rectangle suits.
pub open spec fn some_suit(
    free: Seq<FreeRect>,
    piece: Piece,
    wish: bool,
    two: bool,
    sheet: Option<usize>,
) -> bool {
    exists|k: int| 0 <= k < free.len() && suits(#[trigger] free[k], piece, wish, two, sheet)
}

/// The room of the next batch. With more than one copy to go, rectangles with room for two come
/// first; those on the sheet of the batch before come before others. Else it is the first one
/// ahead of the selector that the piece goes into, and a new sheet only where it goes into none.
pub open spec fn chosen(
    free: Seq<FreeRect>,
    piece: Piece,
    wish: bool,
    selector: u32,
    remaining: int,
    last: Option<usize>,
    slot: int,
) -> bool {
    if last is Some && some_suit(free, piece, wish, remaining > 1, last) {
        pointed_at(free, piece, wish, remaining > 1, last, selector, slot)
    } else if remaining > 1 && some_suit(free, piece, wish, true, None) {
        pointed_at(free, piece, wish, true, None, selector, slot)
    } else if !goes_nowhere(free, piece) {
        0 <= slot < free.len() && nearest(
            free,
            piece,
            selector as int % free.len() as int,
            slot,
        )
    } else {
        slot == free.len()
    }
}

/// How many places the last of several lines of `per` leaves open when `n` pieces fill them.
pub open spec fn gap(n: int, per: int) -> int {
    if n > per && n % per != 0 {
        per - n % per
    } else {
        0
    }
}

/// The number of lines of `per` that `n` pieces begin.
pub open spec fn lines_begun(n: int, per: int) -> int {
    if n % per == 0 {
        n / per
    } else {
        n / per + 1
    }
}

pub open spec fn smaller(a: int, b: int) -> int {
    if a < b {
        a
    } else {
        b
    }
}

/// The batch is laid by rows, not by columns: by rows it leaves no larger gap.
pub open spec fn by_rows(fr: FreeRect, w: int, h: int, n: int) -> bool {
    gap(n, fr.w as int / w) <= gap(n, fr.h as int / h)
}

/// `more` are pieces of `w` x `h` from number `from` on, side by side in the corner of `fr`: as
/// many as fit, or `remaining`; line by line, by rows or by columns.
pub open spec fn laid_as_grid(
    fr: FreeRect,
    w: int,
    h: int,
    from: int,
    remaining: int,
    turned: bool,
    more: Seq<Placement>,
) -> bool {
    let cols = fr.w as int / w;
    let rows = fr.h as int / h;
    let n = more.len() as int;
    &&& n == smaller(rows * cols, remaining)
    &&& n >= 1
    &&& forall|i: int|
        0 <= i < n ==> {
            let pl = #[trigger] more[i];
            &&& pl.sheet_idx == fr.sheet_idx
            &&& pl.piece_idx == from + i
            &&& pl.rotated == turned
            &&& pl.x == fr.x + w * if by_rows(fr, w, h, n) {
                i % cols
            } else {
                i / rows
            }
            &&& pl.y == fr.y + h * if by_rows(fr, w, h, n) {
                i / cols
            } else {
                i % rows
            }
        }
}

/// `parts` is what `n` pieces of `w` x `h` leave of `fr`: the strips beside and below their
/// lines, then the gap in the last line.
pub open spec fn left_around(
    fr: FreeRect,
    w: int,
    h: int,
    n: int,
    across: bool,
    parts: Seq<FreeRect>,
) -> bool {
    let cols = fr.w as int / w;
    let rows = fr.h as int / h;
    let in_rows = by_rows(fr, w, h, n);
    let open = if in_rows {
        gap(n, cols)
    } else {
        gap(n, rows)
    };
    let bw = if in_rows {
        smaller(n, cols) * w
    } else {
        lines_begun(n, rows) * w
    };
    let bh = if in_rows {
        lines_begun(n, cols) * h
    } else {
        smaller(n, rows) * h
    };
    &&& open > 0 ==> parts.len() > 0
    &&& strips_left(
        fr,
        bw,
        bh,
        across,
        if open > 0 {
            parts.drop_last()
        } else {
            parts
        },
    )
    &&& open > 0 ==> {
        let c = parts.last();
        &&& c.sheet_idx == fr.sheet_idx
        &&& c.x == fr.x + if in_rows {
            (n % cols) * w
        } else {
            (n / rows) * w
        }
        &&& c.y == fr.y + if in_rows {
            (n / cols) * h
        } else {
            (n % rows) * h
        }
        &&& c.w == if in_rows {
            open * w
        } else {
            w
        }
        &&& c.h == if in_rows {
            h
        } else {
            open * h
        }
    }
}

/// From `a` to `b` one batch of a gene is laid, from copy `from` up to copy `to`; `start` and
/// `end` are the first copy of the type and the one behind its last. The batch lies in the corner
/// of one room, all copies the same way round: as the gene wishes where that goes. As many are
/// laid as fit, or as there are, by rows or by columns, whichever leaves the smaller gap. The
/// last free rectangle takes the place of the one that was used; behind it comes what is left
/// around the batch.
pub open spec fn batched(
    problem: Problem,
    gene: GeneView,
    a: Pack,
    b: Pack,
    from: int,
    to: int,
    start: int,
    end: int,
    last: Option<usize>,
    slot: int,
    turned: bool,
) -> bool {
    let piece = problem.pieces@[from];
    let fr = room(problem.sheet, a, slot);
    let w = lying_w(piece, turned);
    let h = lying_h(piece, turned);
    let kept = if slot < a.free.len() {
        a.free.len() - 1
    } else {
        a.free.len() as int
    };
    let done = a.placements.len() as int;
    &&& 0 <= slot <= a.free.len()
    &&& goes(fr, piece, turned)
    &&& turned_as_wished(fr, piece, gene.rotate, turned)
    &&& slot == a.free.len() ==> goes_nowhere(a.free, piece)
    &&& chosen(
        a.free,
        piece,
        gene.rotate,
        gene.selectors[from - start],
        end - from,
        last,
        slot,
    )
    &&& b.sheets == if slot < a.free.len() {
        a.sheets
    } else {
        a.sheets + 1
    }
    &&& b.placements.len() == done + (to - from)
    &&& b.placements.take(done) == a.placements
    &&& laid_as_grid(fr, w, h, from, end - from, turned, b.placements.skip(done))
    &&& kept <= b.free.len()
    &&& forall|j: int|
        0 <= j < kept ==> #[trigger] b.free[j] == if j == slot {
            a.free.last()
        } else {
            a.free[j]
        }
    &&& left_around(fr, w, h, to - from, !gene.inverses[from - start], b.free.skip(kept))
}

/// So many copies have to fit in a line.
spec fn least_of(two: bool) -> int {
    if two {
        2
    } else {
        0
    }
}

/// The rectangles that the executable choice lists are those that suit.
proof fn lemma_listed(
    free: Seq<FreeRect>,
    piece: Piece,
    wish: bool,
    two: bool,
    sheet: Option<usize>,
    n: nat,
)
    requires
        n <= free.len(),
        piece.solid(),
    ensures
        ({
            let least = least_of(two);
            let spots = leaf_spots(free, piece, wish, least, sheet, n);
            let list = Seq::new(spots.len(), |i: int| spots[i].0);
            &&& listed(free.take(n as int), piece, wish, two, sheet, list)
            &&& forall|i: int|
                0 <= i < spots.len() ==> fit(free[(#[trigger] spots[i]).0], piece, wish) == Some(
                    (spots[i].1, spots[i].2, spots[i].3),
                )
        }),
    decreases n,
{
    let least = least_of(two);
    if n > 0 {
        let m = (n - 1) as nat;
        lemma_listed(free, piece, wish, two, sheet, m);
        let rest = leaf_spots(free, piece, wish, least, sheet, m);
        let spots = leaf_spots(free, piece, wish, least, sheet, n);
        let before = Seq::new(rest.len(), |i: int| rest[i].0);
        let list = Seq::new(spots.len(), |i: int| spots[i].0);
        let fr = free[n - 1];
        let all = free.take(n as int);
        let some = free.take(m as int);
        assert(suits(fr, piece, wish, two, sheet) == (spots.len() > rest.len())) by {
            lemma_suits(fr, piece, wish, two, sheet);
        }
        assert forall|i: int| 0 <= i < list.len() implies 0 <= #[trigger] list[i] < all.len()
            && suits(all[list[i]], piece, wish, two, sheet) by {
            if i < rest.len() {
                assert(list[i] == before[i]);
                assert(all[list[i]] == some[before[i]]);
            }
        }
        assert forall|i: int, j: int| 0 <= i < j < list.len() implies #[trigger] list[i]
            < #[trigger] list[j] by {
            assert(list[i] == before[i]);
            if j < rest.len() {
                assert(list[j] == before[j]);
            }
        }
        assert forall|k: int|
            0 <= k < all.len() && suits(#[trigger] all[k], piece, wish, two, sheet) implies list.contains(
            k,
        ) by {
            if k < m {
                assert(some[k] == all[k]);
                assert(before.contains(k));
                let i = choose|i: int| 0 <= i < before.len() && before[i] == k;
                assert(list[i] == k);
            } else {
                assert(list[list.len() - 1] == k);
            }
        }
        assert forall|i: int| 0 <= i < spots.len() implies fit(
            free[(#[trigger] spots[i]).0],
            piece,
            wish,
        ) == Some((spots[i].1, spots[i].2, spots[i].3)) by {
            if i < rest.len() {
                assert(spots[i] == rest[i]);
            } else {
                assert(fit(fr, piece, wish) is Some);
                assert(spots[i].0 == n - 1);
            }
        }
    }
}

/// A rectangle suits where the executable test says so.
proof fn lemma_suits(fr: FreeRect, piece: Piece, wish: bool, two: bool, sheet: Option<usize>)
    requires
        piece.solid(),
    ensures
        suits(fr, piece, wish, two, sheet) == match fit(fr, piece, wish) {
            None => false,
            Some(f) => (sheet matches Some(s) ==> fr.sheet_idx == s) && (two ==> batch_fit(
                fr,
                f.0,
                f.1,
            ) >= 2),
        },
{
    match fit(fr, piece, wish) {
        None => {},
        Some(f) => {
            assert(goes(fr, piece, f.2));
            lemma_twice(fr.w as int, f.0 as int);
            lemma_twice(fr.h as int, f.1 as int);
        },
    }
}

proof fn lemma_twice(a: int, b: int)
    requires
        a >= 0,
        b >= 1,
    ensures
        (a / b >= 2) == (2 * b <= a),
{
    vstd::arithmetic::div_mod::lemma_fundamental_div_mod(a, b);
    vstd::arithmetic::div_mod::lemma_mod_bound(a, b);
    let q = a / b;
    if q >= 2 {
        assert(2 * b <= b * q) by (nonlinear_arith)
            requires
                q >= 2,
                b >= 1,
        ;
    } else {
        assert(b * q <= b) by (nonlinear_arith)
            requires
                q <= 1,
                b >= 1,
        ;
    }
}

/// What the executable choice picks is what the selector points at.
proof fn lemma_pointed_at(
    free: Seq<FreeRect>,
    piece: Piece,
    wish: bool,
    two: bool,
    sheet: Option<usize>,
    selector: u32,
)
    requires
        piece.solid(),
    ensures
        ({
            let least = least_of(two);
            let p = picked(leaf_spots(free, piece, wish, least, sheet, free.len()), selector);
            &&& (p is Some) == some_suit(free, piece, wish, two, sheet)
            &&& p matches Some(s) ==> {
                &&& pointed_at(free, piece, wish, two, sheet, selector, s.0)
                &&& 0 <= s.0 < free.len()
                &&& fit(free[s.0], piece, wish) == Some((s.1, s.2, s.3))
            }
        }),
{
    let least = least_of(two);
    let spots = leaf_spots(free, piece, wish, least, sheet, free.len());
    let list = Seq::new(spots.len(), |i: int| spots[i].0);
    lemma_listed(free, piece, wish, two, sheet, free.len());
    assert(free.take(free.len() as int) =~= free);
    assert(listed(free, piece, wish, two, sheet, list));
    if spots.len() > 0 {
        let at = selector as int % spots.len() as int;
        vstd::arithmetic::div_mod::lemma_mod_bound(selector as int, spots.len() as int);
        assert(list[at] == spots[at].0);
        assert(suits(free[list[at]], piece, wish, two, sheet));
        assert(some_suit(free, piece, wish, two, sheet));
        assert(pointed_at(free, piece, wish, two, sheet, selector, list[at]));
        assert(fit(free[spots[at].0], piece, wish) == Some((spots[at].1, spots[at].2, spots[at].3)));
    } else if some_suit(free, piece, wish, two, sheet) {
        let k = choose|k: int|
            0 <= k < free.len() && suits(#[trigger] free[k], piece, wish, two, sheet);
        assert(list.contains(k));
    }
}

/// The leaf of the next batch is the chosen room.
proof fn lemma_chosen(
    problem: Problem,
    st: Pack,
    i: int,
    wish: bool,
    selector: u32,
    remaining: int,
    last: Option<usize>,
)
    requires
        0 <= i < problem.pieces@.len(),
        problem.pieces@[i].solid(),
        fits_sheet(problem, i),
    ensures
        ({
            let piece = problem.pieces@[i];
            let (st2, spot) = batch_leaf(problem, st, piece, wish, selector, remaining, last);
            let fr = room(problem.sheet, st, spot.0);
            &&& 0 <= spot.0 <= st.free.len()
            &&& chosen(st.free, piece, wish, selector, remaining, last, spot.0)
            &&& spot.0 == st.free.len() ==> goes_nowhere(st.free, piece)
            &&& st2 == if spot.0 < st.free.len() {
                st
            } else {
                opened(problem.sheet, st)
            }
            &&& st2.free[spot.0] == fr
            &&& goes(fr, piece, spot.3)
            &&& turned_as_wished(fr, piece, wish, spot.3)
            &&& spot.1 == lying_w(piece, spot.3)
            &&& spot.2 == lying_h(piece, spot.3)
        }),
{
    let piece = problem.pieces@[i];
    let n = st.free.len() as int;
    lemma_pointed_at(st.free, piece, wish, remaining > 1, last, selector);
    lemma_pointed_at(st.free, piece, wish, true, None, selector);
    lemma_nearest(st.free, piece, wish, selector);
    if free_leaf(st.free, piece, wish, selector, remaining, last) is None {
        let st2 = opened(problem.sheet, st);
        let whole = st2.free[n];
        assert(whole == room(problem.sheet, st, n));
        assert(goes(whole, piece, false) || goes(whole, piece, true));
        lemma_nearest(st2.free, piece, wish, selector);
        assert(!goes_nowhere(st2.free, piece));
        let spot = selected_fit(st2.free, piece, wish, selector)->0;
        assert(spot.0 == n) by {
            if spot.0 < n {
                assert(st2.free[spot.0] == st.free[spot.0]);
            }
        }
        if last is Some && some_suit(st.free, piece, wish, remaining > 1, last) {
            assert(false);
        }
    }
}

/// The search from a selector finds the nearest rectangle ahead.
pub(crate) proof fn lemma_nearest(free: Seq<FreeRect>, piece: Piece, wish: bool, selector: u32)
    ensures
        match selected_fit(free, piece, wish, selector) {
            Some(s) => {
                &&& 0 <= s.0 < free.len()
                &&& goes(free[s.0], piece, s.3)
                &&& turned_as_wished(free[s.0], piece, wish, s.3)
                &&& s.1 == lying_w(piece, s.3)
                &&& s.2 == lying_h(piece, s.3)
                &&& nearest(free, piece, selector as int % free.len() as int, s.0)
                &&& !goes_nowhere(free, piece)
            },
            None => goes_nowhere(free, piece),
        },
{
    let n = free.len() as int;
    if n > 0 {
        let start = selector as int % n;
        vstd::arithmetic::div_mod::lemma_mod_bound(selector as int, n);
        assert forall|j: int| 0 <= j < n && ahead(j, start, n) < 0 implies !goes(
            #[trigger] free[j],
            piece,
            false,
        ) && !goes(free[j], piece, true) by {
            lemma_ahead(j, start, n);
        }
        lemma_first_fit_nearest(free, piece, wish, start, 0);
        if let Some(s) = selected_fit(free, piece, wish, selector) {
            assert(goes(free[s.0], piece, s.3));
            if goes_nowhere(free, piece) {
                assert(!goes(free[s.0], piece, false) && !goes(free[s.0], piece, true));
            }
        }
    }
}

/// Lines of a grid: `n` pieces in lines of `per`, of which at most `most` fit.
proof fn lemma_lines_of(n: int, per: int, most: int, len: int, across: int, i: int)
    requires
        1 <= n <= per * most,
        per >= 1,
        most >= 1,
        len >= 1,
        across >= 1,
        0 <= i < n,
    ensures
        0 <= i % per < per,
        0 <= i / per < most,
        0 <= (i % per) * len,
        (i % per) * len + len <= per * len,
        0 <= (i / per) * across,
        (i / per) * across + across <= most * across,
        0 <= n % per < per,
        0 <= n / per <= most,
        n == per * (n / per) + n % per,
        n / per >= 1 <==> n >= per,
        n < per ==> n % per == n,
        0 <= (n % per) * len <= per * len,
        0 <= (n / per) * across <= most * across,
        n % per > 0 ==> (n / per) * across + across <= most * across,
        smaller(n, per) * len <= per * len,
        lines_begun(n, per) * across <= most * across,
        smaller(n, per) * len >= 1,
        lines_begun(n, per) * across >= 1,
        (n % per) * len + (per - n % per) * len == per * len,
{
    vstd::arithmetic::div_mod::lemma_fundamental_div_mod(i, per);
    vstd::arithmetic::div_mod::lemma_mod_bound(i, per);
    vstd::arithmetic::div_mod::lemma_div_pos_is_pos(i, per);
    vstd::arithmetic::div_mod::lemma_fundamental_div_mod(n, per);
    vstd::arithmetic::div_mod::lemma_mod_bound(n, per);
    vstd::arithmetic::div_mod::lemma_div_pos_is_pos(n, per);
    let (q, r) = (i / per, i % per);
    assert(q < most) by (nonlinear_arith)
        requires
            i == per * q + r,
            0 <= r,
            i < per * most,
            per >= 1,
    ;
    let (f, e) = (n / per, n % per);
    assert(f <= most && (e > 0 ==> f + 1 <= most)) by (nonlinear_arith)
        requires
            n == per * f + e,
            0 <= e < per,
            n <= per * most,
            per >= 1,
    ;
    assert(f >= 1 <==> n >= per) by (nonlinear_arith)
        requires
            n == per * f + e,
            0 <= e < per,
            f >= 0,
            per >= 1,
    ;
    assert(f == 0 ==> e == n) by (nonlinear_arith)
        requires
            n == per * f + e,
    ;
    lemma_times(r, r + 1, per, len);
    lemma_times(q, q + 1, most, across);
    lemma_times(e, e, per, len);
    lemma_times(f, f, most, across);
    let k = lines_begun(n, per);
    assert(k >= 1);
    lemma_times(1, k, most, across);
    lemma_times(1, smaller(n, per), per, len);
    if e > 0 {
        lemma_times(f, f + 1, most, across);
        assert((f + 1) * across == f * across + across) by (nonlinear_arith);
    }
    assert((r + 1) * len == r * len + len) by (nonlinear_arith);
    assert((q + 1) * across == q * across + across) by (nonlinear_arith);
    assert(e * len + (per - e) * len == per * len) by (nonlinear_arith);
}

proof fn lemma_times(a: int, b: int, c: int, x: int)
    requires
        0 <= a <= b <= c,
        x >= 1,
    ensures
        0 <= a * x <= b * x <= c * x,
        a <= a * x,
{
    assert(0 <= a * x <= b * x <= c * x && a <= a * x) by (nonlinear_arith)
        requires
            0 <= a <= b <= c,
            x >= 1,
    ;
}

/// The hole of a grid and its gap: the one is smaller where the other is.
proof fn lemma_gaps(n: int, cols: int, rows: int, w: int, h: int)
    requires
        n >= 1,
        cols >= 1,
        rows >= 1,
        w >= 1,
        h >= 1,
    ensures
        (super::decoder::hole_area(cols, n / cols, n % cols, w, h) <= super::decoder::hole_area(
            rows,
            n / rows,
            n % rows,
            h,
            w,
        )) == (gap(n, cols) <= gap(n, rows)),
{
    lemma_hole(n, cols, w, h);
    lemma_hole(n, rows, h, w);
    assert(w * h == h * w) by (nonlinear_arith);
    let (a, b, x) = (gap(n, cols), gap(n, rows), w * h);
    assert(x >= 1) by (nonlinear_arith)
        requires
            w >= 1,
            h >= 1,
            x == w * h,
    ;
    assert((a * x <= b * x) == (a <= b)) by (nonlinear_arith)
        requires
            x >= 1,
    ;
}

proof fn lemma_hole(n: int, per: int, len: int, across: int)
    requires
        n >= 1,
        per >= 1,
        len >= 1,
        across >= 1,
    ensures
        super::decoder::hole_area(per, n / per, n % per, len, across) == gap(n, per) * (len
            * across),
        (n % per > 0 && n / per >= 1) == (gap(n, per) > 0),
{
    vstd::arithmetic::div_mod::lemma_fundamental_div_mod(n, per);
    vstd::arithmetic::div_mod::lemma_mod_bound(n, per);
    vstd::arithmetic::div_mod::lemma_div_pos_is_pos(n, per);
    let (f, e) = (n / per, n % per);
    assert(f >= 1 <==> n >= per) by (nonlinear_arith)
        requires
            n == per * f + e,
            0 <= e < per,
            f >= 0,
            per >= 1,
    ;
    assert(n == per ==> e == 0) by {
        if n == per {
            vstd::arithmetic::div_mod::lemma_mod_self_0(per);
        }
    }
    assert((per * len - e * len) * across == (per - e) * (len * across)) by (nonlinear_arith);
    assert(0 * (len * across) == 0);
}

/// The grid in numbers.
proof fn lemma_grid_numbers(fr: FreeRect, pw: u32, ph: u32, remaining: int)
    requires
        1 <= pw <= fr.w,
        1 <= ph <= fr.h,
        remaining >= 1,
    ensures
        ({
            let (w, h) = (pw as int, ph as int);
            let cols = fr.w as int / w;
            let rows = fr.h as int / h;
            let g = grid_of(fr.w, fr.h, pw, ph, remaining);
            let n = smaller(rows * cols, remaining);
            let in_rows = by_rows(fr, w, h, n);
            let per = if in_rows {
                cols
            } else {
                rows
            };
            &&& cols >= 1
            &&& rows >= 1
            &&& 1 <= n <= rows * cols
            &&& rows * cols == cols * rows
            &&& cols * w <= fr.w
            &&& rows * h <= fr.h
            &&& g.n == n
            &&& g.row_major == in_rows
            &&& g.per_line == per
            &&& g.full == n / per
            &&& g.extra == n % per
            &&& (g.extra > 0 && g.full >= 1) == (gap(n, per) > 0)
            &&& g.cw == if in_rows {
                smaller(n, cols) * w
            } else {
                lines_begun(n, rows) * w
            }
            &&& g.ch == if in_rows {
                lines_begun(n, cols) * h
            } else {
                smaller(n, rows) * h
            }
            &&& 1 <= g.cw <= fr.w
            &&& 1 <= g.ch <= fr.h
        }),
{
    let (w, h) = (pw as int, ph as int);
    let cols = fr.w as int / w;
    let rows = fr.h as int / h;
    lemma_grid(fr.w, fr.h, pw, ph, remaining);
    vstd::arithmetic::div_mod::lemma_fundamental_div_mod(fr.w as int, w);
    vstd::arithmetic::div_mod::lemma_fundamental_div_mod(fr.h as int, h);
    vstd::arithmetic::div_mod::lemma_mod_bound(fr.w as int, w);
    vstd::arithmetic::div_mod::lemma_mod_bound(fr.h as int, h);
    vstd::arithmetic::div_mod::lemma_div_non_zero(fr.w as int, w);
    vstd::arithmetic::div_mod::lemma_div_non_zero(fr.h as int, h);
    assert(cols * w == w * cols && rows * h == h * rows) by (nonlinear_arith);
    assert(rows * cols == cols * rows) by (nonlinear_arith);
    assert(rows * cols >= 1) by (nonlinear_arith)
        requires
            rows >= 1,
            cols >= 1,
    ;
    let n = smaller(rows * cols, remaining);
    lemma_gaps(n, cols, rows, w, h);
    lemma_lines_of(n, cols, rows, w, h, 0);
    lemma_lines_of(n, rows, cols, h, w, 0);
    lemma_hole(n, cols, w, h);
    lemma_hole(n, rows, h, w);
}

proof fn lemma_laid_as_grid(
    fr: FreeRect,
    pw: u32,
    ph: u32,
    from: int,
    remaining: int,
    turned: bool,
)
    requires
        1 <= pw <= fr.w,
        1 <= ph <= fr.h,
        remaining >= 1,
        fr.right() <= u32::MAX,
        fr.bottom() <= u32::MAX,
        0 <= from,
        from + remaining <= usize::MAX,
    ensures
        ({
            let g = grid_of(fr.w, fr.h, pw, ph, remaining);
            laid_as_grid(
                fr,
                pw as int,
                ph as int,
                from,
                remaining,
                turned,
                grid_placements(fr, g, pw, ph, from, turned, g.n as nat),
            )
        }),
{
    let (w, h) = (pw as int, ph as int);
    let cols = fr.w as int / w;
    let rows = fr.h as int / h;
    let n = smaller(rows * cols, remaining);
    lemma_grid_numbers(fr, pw, ph, remaining);
    let g = grid_of(fr.w, fr.h, pw, ph, remaining);
    let more = grid_placements(fr, g, pw, ph, from, turned, g.n as nat);
    assert forall|i: int| 0 <= i < n implies ({
        let pl = #[trigger] more[i];
        &&& pl.sheet_idx == fr.sheet_idx
        &&& pl.piece_idx == from + i
        &&& pl.rotated == turned
        &&& pl.x == fr.x + w * if by_rows(fr, w, h, n) {
            i % cols
        } else {
            i / rows
        }
        &&& pl.y == fr.y + h * if by_rows(fr, w, h, n) {
            i / cols
        } else {
            i % rows
        }
    }) by {
        assert(more[i] == grid_placement(fr, g, pw, ph, from, turned, i));
        if by_rows(fr, w, h, n) {
            lemma_lines_of(n, cols, rows, w, h, i);
            let (p, l) = (i % cols, i / cols);
            assert(p * w == w * p && l * h == h * l) by (nonlinear_arith);
        } else {
            lemma_lines_of(n, rows, cols, h, w, i);
            let (p, l) = (i % rows, i / rows);
            assert(p * h == h * p && l * w == w * l) by (nonlinear_arith);
        }
    }
}

proof fn lemma_left_around(fr: FreeRect, pw: u32, ph: u32, remaining: int, across: bool)
    requires
        1 <= pw <= fr.w,
        1 <= ph <= fr.h,
        remaining >= 1,
        fr.right() <= u32::MAX,
        fr.bottom() <= u32::MAX,
    ensures
        ({
            let g = grid_of(fr.w, fr.h, pw, ph, remaining);
            let parts = split_parts(fr, g.cw as u32, g.ch as u32, across);
            left_around(
                fr,
                pw as int,
                ph as int,
                g.n,
                across,
                if g.extra > 0 && g.full >= 1 {
                    parts.push(super::decoder::grid_hole(fr, g, pw, ph))
                } else {
                    parts
                },
            )
        }),
{
    let (w, h) = (pw as int, ph as int);
    let cols = fr.w as int / w;
    let rows = fr.h as int / h;
    let n = smaller(rows * cols, remaining);
    lemma_grid_numbers(fr, pw, ph, remaining);
    let g = grid_of(fr.w, fr.h, pw, ph, remaining);
    let parts = split_parts(fr, g.cw as u32, g.ch as u32, across);
    assert(strips_left(fr, g.cw, g.ch, across, parts));
    if g.extra > 0 && g.full >= 1 {
        let hole = super::decoder::grid_hole(fr, g, pw, ph);
        assert(parts.push(hole).drop_last() =~= parts);
        if by_rows(fr, w, h, n) {
            lemma_lines_of(n, cols, rows, w, h, 0);
            assert(smaller(n, cols) == cols);
        } else {
            lemma_lines_of(n, rows, cols, h, w, 0);
            assert(smaller(n, rows) == rows);
        }
    }
}

proof fn lemma_batch_shape(
    st: Pack,
    slot: int,
    pw: u32,
    ph: u32,
    turned: bool,
    inverse: bool,
    first: int,
    remaining: int,
)
    requires
        0 <= slot < st.free.len(),
        grid_of(st.free[slot].w, st.free[slot].h, pw, ph, remaining).n >= 0,
    ensures
        ({
            let fr = st.free[slot];
            let g = grid_of(fr.w, fr.h, pw, ph, remaining);
            let b = super::decoder::batch_laid(
                st,
                slot,
                pw,
                ph,
                turned,
                inverse,
                first,
                remaining,
            );
            let parts = split_parts(fr, g.cw as u32, g.ch as u32, !inverse);
            let kept = st.free.len() - 1;
            let done = st.placements.len() as int;
            &&& b.sheets == st.sheets
            &&& b.free.len() >= kept
            &&& b.free.skip(kept) == if g.extra > 0 && g.full >= 1 {
                parts.push(super::decoder::grid_hole(fr, g, pw, ph))
            } else {
                parts
            }
            &&& forall|j: int|
                0 <= j < kept ==> #[trigger] b.free[j] == if j == slot {
                    st.free.last()
                } else {
                    st.free[j]
                }
            &&& b.placements.len() == done + g.n
            &&& b.placements.take(done) == st.placements
            &&& b.placements.skip(done) == grid_placements(
                fr,
                g,
                pw,
                ph,
                first,
                turned,
                g.n as nat,
            )
        }),
{
    let fr = st.free[slot];
    let g = grid_of(fr.w, fr.h, pw, ph, remaining);
    let b = super::decoder::batch_laid(st, slot, pw, ph, turned, inverse, first, remaining);
    let parts = split_parts(fr, g.cw as u32, g.ch as u32, !inverse);
    let rest = if g.extra > 0 && g.full >= 1 {
        parts.push(super::decoder::grid_hole(fr, g, pw, ph))
    } else {
        parts
    };
    let front = super::decoder::swap_removed(st.free, slot);
    let kept = st.free.len() - 1;
    assert(b.free =~= front + rest);
    assert(b.free.skip(kept) =~= rest);
    let done = st.placements.len() as int;
    let more = grid_placements(fr, g, pw, ph, first, turned, g.n as nat);
    assert(b.placements == st.placements + more);
    assert(b.placements.take(done) =~= st.placements);
    assert(b.placements.skip(done) =~= more);
}

/// One step of the executable decoder lays one batch.
#[verifier::rlimit(40)]
proof fn lemma_batched(
    problem: Problem,
    types: Seq<PieceType>,
    r: TypeRun,
    gene: GeneView,
    t: int,
)
    requires
        copies_of(problem, types),
        solid_pieces(problem),
        0 <= t < types.len(),
        run_ok(problem, r, copies(types, t as nat) as int, copies(types, (t + 1) as nat) as int),
        r.next < copies(types, (t + 1) as nat),
        fits_sheet(problem, r.next),
        problem.pieces@.len() < usize::MAX,
        r.pack.sheets <= usize::MAX,
    ensures
        ({
            let start = copies(types, t as nat) as int;
            let end = copies(types, (t + 1) as nat) as int;
            let r2 = batch_step(problem, r, gene, start, end);
            &&& exists|slot: int, turned: bool|
                #[trigger] batched(
                    problem,
                    gene,
                    r.pack,
                    r2.pack,
                    r.next,
                    r2.next,
                    start,
                    end,
                    r.last,
                    slot,
                    turned,
                )
            &&& r2.pack.placements.len() > 0
            &&& r2.last == Some(r2.pack.placements.last().sheet_idx)
        }),
{
    let start = copies(types, t as nat) as int;
    let end = copies(types, (t + 1) as nat) as int;
    crate::expand::lemma_copies_grow(types, (t + 1) as nat, types.len());
    let a = r.pack;
    let piece = problem.pieces@[r.next];
    assert(problem.pieces[r.next].solid());
    let selector = gene.selectors[r.next - start];
    let inverse = gene.inverses[r.next - start];
    let remaining = end - r.next;
    let (st, spot) = batch_leaf(problem, a, piece, gene.rotate, selector, remaining, r.last);
    lemma_chosen(problem, a, r.next, gene.rotate, selector, remaining, r.last);
    lemma_batch_leaf(problem, a, r.next, gene.rotate, selector, remaining, r.last);
    let slot = spot.0;
    let turned = spot.3;
    let fr = room(problem.sheet, a, slot);
    lemma_free_within(problem, st, slot);
    lemma_laid_as_grid(fr, spot.1, spot.2, r.next, remaining, turned);
    lemma_left_around(fr, spot.1, spot.2, remaining, !inverse);
    let r2 = batch_step(problem, r, gene, start, end);
    let b = r2.pack;
    lemma_batch_shape(st, slot, spot.1, spot.2, turned, inverse, r.next, remaining);
    let kept = st.free.len() - 1;
    assert forall|j: int| 0 <= j < kept implies #[trigger] b.free[j] == if j == slot {
        a.free.last()
    } else {
        a.free[j]
    } by {
        assert(st.free.last() == if slot < a.free.len() {
            a.free.last()
        } else {
            fr
        });
    }
    assert(b.placements.skip(a.placements.len() as int).len() >= 1);
    assert(batched(
        problem,
        gene,
        a,
        b,
        r.next,
        r2.next,
        start,
        end,
        r.last,
        slot,
        turned,
    ));
    let more = b.placements.skip(a.placements.len() as int);
    assert(b.placements.last() == more[more.len() - 1]);
}

/// One batch of a gene is laid, in some room and some way round.
pub open spec fn one_batch(
    problem: Problem,
    gene: GeneView,
    a: Pack,
    b: Pack,
    from: int,
    to: int,
    start: int,
    end: int,
    last: Option<usize>,
) -> bool {
    exists|slot: int, turned: bool|
        #[trigger] batched(problem, gene, a, b, from, to, start, end, last, slot, turned)
}

/// The sheet of the batch before number `m`.
pub open spec fn sheet_before(packs: Seq<Pack>, m: int, at_first: Option<usize>) -> Option<usize> {
    if m == 0 {
        at_first
    } else {
        Some(packs[m].placements.last().sheet_idx)
    }
}

/// A gene lays its copies batch by batch: number `m` leads from `packs[m]` to `packs[m + 1]` and
/// lays the copies from `cuts[m]` up to `cuts[m + 1]`.
pub open spec fn in_batches(
    problem: Problem,
    gene: GeneView,
    start: int,
    end: int,
    at_first: Option<usize>,
    packs: Seq<Pack>,
    cuts: Seq<int>,
) -> bool {
    &&& packs.len() >= 1
    &&& packs.len() == cuts.len()
    &&& cuts.last() == end
    &&& forall|m: int|
        0 <= m < packs.len() - 1 ==> one_batch(
            problem,
            gene,
            #[trigger] packs[m],
            packs[m + 1],
            cuts[m],
            cuts[m + 1],
            start,
            end,
            sheet_before(packs, m, at_first),
        )
}

proof fn lemma_run_in_batches(
    problem: Problem,
    types: Seq<PieceType>,
    next: Seq<int>,
    r: TypeRun,
    gene: GeneView,
    t: int,
) -> (c: (Seq<Pack>, Seq<int>))
    requires
        copies_of(problem, types),
        solid_pieces(problem),
        all_fit(problem),
        problem.pieces@.len() < usize::MAX,
        0 <= t < types.len(),
        next.len() == types.len(),
        run_ok(problem, r, copies(types, t as nat) as int, copies(types, (t + 1) as nat) as int),
        placed_exactly(types, next.update(t, r.next), placed_indices(r.pack.placements)),
    ensures
        ({
            let start = copies(types, t as nat) as int;
            let end = copies(types, (t + 1) as nat) as int;
            let z = type_run(problem, r, gene, start, end);
            &&& in_batches(problem, gene, start, end, r.last, c.0, c.1)
            &&& c.0[0] == r.pack
            &&& c.1[0] == r.next
            &&& c.0.last() == z.pack
            &&& z.next == end
            &&& run_ok(problem, z, start, end)
            &&& placed_exactly(types, next.update(t, end), placed_indices(z.pack.placements))
        }),
    decreases copies(types, (t + 1) as nat) - r.next,
{
    let start = copies(types, t as nat) as int;
    let end = copies(types, (t + 1) as nat) as int;
    if r.next >= end {
        (seq![r.pack], seq![r.next])
    } else {
        crate::expand::lemma_copies_grow(types, (t + 1) as nat, types.len());
        let now = next.update(t, r.next);
        let s = placed_indices(r.pack.placements);
        let v = r.next as usize;
        assert(of_type(types, t, r.next));
        if s.contains(v) {
            let q = choose|q: int| #[trigger] of_type(types, q, v as int) && v < now[q];
            lemma_of_type_unique(types, t, q, r.next);
        }
        lemma_some_missing(problem, types, now, s, v);
        assert(fits_sheet(problem, r.next));
        lemma_batch_step(problem, types, r, gene, t);
        lemma_batched(problem, types, r, gene, t);
        let r2 = batch_step(problem, r, gene, start, end);
        lemma_placed_more(types, now, s, t, r.next, r2.next);
        assert(now.update(t, r2.next) =~= next.update(t, r2.next));
        let (packs, cuts) = lemma_run_in_batches(problem, types, next, r2, gene, t);
        let ps = seq![r.pack] + packs;
        let cs = seq![r.next] + cuts;
        assert(one_batch(
            problem,
            gene,
            r.pack,
            r2.pack,
            r.next,
            r2.next,
            start,
            end,
            r.last,
        ));
        assert forall|m: int| 0 <= m < ps.len() - 1 implies one_batch(
            problem,
            gene,
            #[trigger] ps[m],
            ps[m + 1],
            cs[m],
            cs[m + 1],
            start,
            end,
            sheet_before(ps, m, r.last),
        ) by {
            assert(ps[m + 1] == packs[m] && cs[m + 1] == cuts[m]);
            if m > 0 {
                assert(ps[m] == packs[m - 1] && cs[m] == cuts[m - 1]);
                assert(packs[m] == packs[(m - 1) + 1] && cuts[m] == cuts[(m - 1) + 1]);
                assert(sheet_before(ps, m, r.last) == sheet_before(packs, m - 1, r2.last));
            }
        }
        assert(ps.last() == packs.last());
        assert(cs.last() == cuts.last());
        (ps, cs)
    }
}

proof fn lemma_gene_in_batches(
    problem: Problem,
    types: Seq<PieceType>,
    d: Decoding,
    gene: GeneView,
) -> (c: (Seq<Pack>, Seq<int>))
    requires
        copies_of(problem, types),
        solid_pieces(problem),
        all_fit(problem),
        problem.pieces@.len() < usize::MAX,
        gene.type_idx < types.len(),
        decoding_ok(problem, types, d),
    ensures
        ({
            let t = gene.type_idx as int;
            let start = copies(types, t as nat) as int;
            let end = copies(types, (t + 1) as nat) as int;
            let z = gene_step(problem, types, d, gene);
            &&& in_batches(problem, gene, start, end, None, c.0, c.1)
            &&& c.0[0] == d.pack
            &&& c.1[0] == d.next[t]
            &&& c.0.last() == z.pack
            &&& z.next == d.next.update(t, end)
            &&& decoding_ok(problem, types, z)
        }),
{
    let t = gene.type_idx as int;
    let start = copies(types, t as nat) as int;
    let end = copies(types, (t + 1) as nat) as int;
    let r = TypeRun { pack: d.pack, next: d.next[t], last: None };
    assert(copies(types, t as nat) <= d.next[t] <= copies(types, (t + 1) as nat));
    assert(d.next.update(t, r.next) =~= d.next);
    let c = lemma_run_in_batches(problem, types, d.next, r, gene, t);
    let z = gene_step(problem, types, d, gene);
    assert forall|u: int| 0 <= u < types.len() implies copies(types, u as nat)
        <= #[trigger] z.next[u] <= copies(types, (u + 1) as nat) by {
        if u != t {
            assert(z.next[u] == d.next[u]);
        }
    }
    c
}

/// What the genes in front leave is a decoding state.
pub proof fn lemma_decoding(problem: Problem, types: Seq<PieceType>, genes: Seq<GeneView>, k: nat)
    requires
        copies_of(problem, types),
        solid_pieces(problem),
        all_fit(problem),
        problem.pieces@.len() < usize::MAX,
        genes_ok(types, genes),
        k <= genes.len(),
    ensures
        decoding_ok(problem, types, decoded(problem, types, genes, k)),
    decreases k,
{
    if k == 0 {
        let d = decoded(problem, types, genes, 0);
        crate::packing::lemma_fresh(problem);
        assert(placed_indices(d.pack.placements) =~= Seq::empty());
        assert forall|t: int| 0 <= t < types.len() implies copies(types, t as nat)
            <= #[trigger] d.next[t] <= copies(types, (t + 1) as nat) by {}
    } else {
        let m = (k - 1) as nat;
        lemma_decoding(problem, types, genes, m);
        let gene = genes[k - 1];
        let _ = lemma_gene_in_batches(problem, types, decoded(problem, types, genes, m), gene);
    }
}

/// Gene `k` lays all copies of its type that are not laid yet, batch by batch, and each batch as
/// its selector, its flag and its wish say.
pub proof fn law_gene_lays_batches(
    problem: Problem,
    types: Seq<PieceType>,
    genes: Seq<GeneView>,
    k: nat,
)
    requires
        copies_of(problem, types),
        solid_pieces(problem),
        all_fit(problem),
        problem.pieces@.len() < usize::MAX,
        genes_ok(types, genes),
        k < genes.len(),
    ensures
        ({
            let gene = genes[k as int];
            let t = gene.type_idx as int;
            let start = copies(types, t as nat) as int;
            let end = copies(types, (t + 1) as nat) as int;
            let a = decoded(problem, types, genes, k);
            let b = decoded(problem, types, genes, k + 1);
            &&& b.next == a.next.update(t, end)
            &&& exists|packs: Seq<Pack>, cuts: Seq<int>|
                {
                    &&& #[trigger] in_batches(problem, gene, start, end, None, packs, cuts)
                    &&& packs[0] == a.pack
                    &&& packs.last() == b.pack
                    &&& cuts[0] == a.next[t]
                }
        }),
{
    lemma_decoding(problem, types, genes, k);
    let a = decoded(problem, types, genes, k);
    let (packs, cuts) = lemma_gene_in_batches(problem, types, a, genes[k as int]);
    let t = genes[k as int].type_idx as int;
    assert(in_batches(
        problem,
        genes[k as int],
        copies(types, t as nat) as int,
        copies(types, (t + 1) as nat) as int,
        None,
        packs,
        cuts,
    ));
}

/// Decoding begins with one whole sheet, nothing placed, and every type at its first copy.
pub proof fn law_decoding_begins_empty(
    problem: Problem,
    types: Seq<PieceType>,
    genes: Seq<GeneView>,
)
    ensures
        ({
            let d = decoded(problem, types, genes, 0);
            &&& d.pack.placements.len() == 0
            &&& d.pack.sheets == 1
            &&& d.pack.free.len() == 1
            &&& d.pack.free[0].sheet_idx == 0
            &&& d.pack.free[0].x == 0
            &&& d.pack.free[0].y == 0
            &&& d.pack.free[0].w == problem.sheet.width
            &&& d.pack.free[0].h == problem.sheet.height
            &&& d.next.len() == types.len()
            &&& forall|t: int|
                0 <= t < types.len() ==> #[trigger] d.next[t] == copies(types, t as nat)
        }),
{
}

/// The copies of a batch lie as the gene wishes: turned, where it wishes so, the type may turn
/// and a turned copy goes into the rectangle that the batch lies in; upright, where it does not
/// wish them turned and an upright copy goes into it.
pub proof fn law_batch_lies_as_wished(
    problem: Problem,
    gene: GeneView,
    a: Pack,
    b: Pack,
    from: int,
    to: int,
    start: int,
    end: int,
    last: Option<usize>,
    slot: int,
    turned: bool,
    i: int,
)
    requires
        batched(problem, gene, a, b, from, to, start, end, last, slot, turned),
        a.placements.len() <= i < b.placements.len(),
    ensures
        ({
            let p = problem.pieces@[from];
            let fr = room(problem.sheet, a, slot);
            let pl = b.placements[i];
            &&& gene.rotate && p.can_rotate && p.height <= fr.w && p.width <= fr.h ==> pl.rotated
            &&& !gene.rotate && p.width <= fr.w && p.height <= fr.h ==> !pl.rotated
            &&& pl.rotated ==> p.can_rotate
            &&& pl.sheet_idx == fr.sheet_idx
        }),
{
    let done = a.placements.len() as int;
    assert(b.placements[i] == b.placements.skip(done)[i - done]);
}

} // verus!
