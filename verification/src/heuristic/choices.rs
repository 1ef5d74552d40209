//! Which free rectangle the packers choose for a piece, and how they cut it.

use vstd::prelude::*;

use super::common::{PieceOrder, SelectionRule, SortDir, SortKey, SplitRule};
use super::gbaf::{
    all_fit, best_place, by_area, gbaf_state, largest, least_waste, lemma_gbaf_state,
    roomy_direction,
};
use super::jylanki::{
    best_scored, jylanki_state, keyed_order, lemma_jylanki_state, rule_direction,
    scored_place, turns, Strategy,
};
use crate::laying::{
    goes, goes_nowhere, lays, lemma_lays, lying_h, lying_w, room, turned_as_wished,
};
use crate::model::{FreeRect, Piece, Problem};
use crate::packing::{lemma_free_within, split_parts, Pack};
use crate::slas::decoder::{fit, fits_sheet};
use crate::sorting::{in_order, lemma_order_exists, precedes};

verus! {

/// No rectangle that the piece goes into is smaller than number `slot`, and none in front of it
/// is as small.
pub open spec fn smallest_room(free: Seq<FreeRect>, piece: Piece, slot: int) -> bool {
    forall|j: int|
        0 <= j < free.len() && (goes(#[trigger] free[j], piece, false) || goes(
            free[j],
            piece,
            true,
        )) ==> {
            let (a, b) = (free[slot].w * free[slot].h, free[j].w * free[j].h);
            a < b || (a == b && slot <= j)
        }
}

/// The larger of the two strips that remain around a `w` x `h` corner.
pub open spec fn larger_strip(fr: FreeRect, w: int, h: int, across: bool) -> int {
    let beside = (fr.w - w) * if across {
        h
    } else {
        fr.h as int
    };
    let below = (fr.h - h) * if across {
        fr.w as int
    } else {
        w
    };
    if beside >= below {
        beside
    } else {
        below
    }
}

/// Of the two cuts, the one whose larger strip is the larger; where they are equal, the one that
/// leaves the strip along the longer leftover whole.
pub open spec fn roomier_cut(fr: FreeRect, w: int, h: int, across: bool) -> bool {
    let (this, other) = (larger_strip(fr, w, h, across), larger_strip(fr, w, h, !across));
    this > other || (this == other && across == (fr.w - w <= fr.h - h))
}

proof fn lemma_smallest(free: Seq<FreeRect>, piece: Piece, n: nat)
    requires
        n <= free.len(),
    ensures
        match least_waste(free, piece, n) {
            Some(b) => {
                &&& 0 <= b.1 < n
                &&& goes(free[b.1], piece, b.4)
                &&& turned_as_wished(free[b.1], piece, false, b.4)
                &&& b.2 == lying_w(piece, b.4)
                &&& b.3 == lying_h(piece, b.4)
                &&& b.0 == free[b.1].w * free[b.1].h - piece.width * piece.height
                &&& forall|j: int|
                    0 <= j < n && (goes(#[trigger] free[j], piece, false) || goes(
                        free[j],
                        piece,
                        true,
                    )) ==> {
                        let (x, y) = (free[b.1].w * free[b.1].h, free[j].w * free[j].h);
                        x < y || (x == y && b.1 <= j)
                    }
            },
            None => goes_nowhere(free.take(n as int), piece),
        },
    decreases n,
{
    if n > 0 {
        lemma_smallest(free, piece, (n - 1) as nat);
        let fr = free[n - 1];
        assert(piece.height * piece.width == piece.width * piece.height) by (nonlinear_arith);
        let t = free.take(n as int);
        let s = free.take(n - 1);
        if least_waste(free, piece, n) is None {
            assert forall|j: int| 0 <= j < n implies !goes(#[trigger] t[j], piece, false) && !goes(
                t[j],
                piece,
                true,
            ) by {
                if j < n - 1 {
                    assert(s[j] == t[j]);
                }
            }
        } else if least_waste(free, piece, (n - 1) as nat) is None {
            assert forall|j: int| 0 <= j < n - 1 implies !goes(#[trigger] free[j], piece, false)
                && !goes(free[j], piece, true) by {
                assert(s[j] == free[j]);
            }
        }
    }
}

proof fn lemma_roomier(fr: FreeRect, pw: u32, ph: u32)
    requires
        pw <= fr.w,
        ph <= fr.h,
    ensures
        roomier_cut(fr, pw as int, ph as int, roomy_direction(fr, pw, ph)),
{
    lemma_larger_strip(fr, pw, ph, true);
    lemma_larger_strip(fr, pw, ph, false);
}

proof fn lemma_larger_strip(fr: FreeRect, pw: u32, ph: u32, across: bool)
    requires
        pw <= fr.w,
        ph <= fr.h,
    ensures
        largest(split_parts(fr, pw, ph, across)) == larger_strip(
            fr,
            pw as int,
            ph as int,
            across,
        ),
{
    let parts = split_parts(fr, pw, ph, across);
    let (w, h) = (pw as int, ph as int);
    let (bh, bw) = if across {
        (h, fr.w as int)
    } else {
        (fr.h as int, w)
    };
    assert((fr.w - w) * bh >= 0 && (fr.h - h) * bw >= 0) by (nonlinear_arith)
        requires
            fr.w >= w,
            fr.h >= h,
            bh >= 0,
            bw >= 0,
    ;
    assert(bw * (fr.h - h) == (fr.h - h) * bw) by (nonlinear_arith);
    if fr.w == pw {
        assert((fr.w - w) * bh == 0) by (nonlinear_arith)
            requires
                fr.w == w,
        ;
    }
    if fr.h == ph {
        assert((fr.h - h) * bw == 0) by (nonlinear_arith)
            requires
                fr.h == h,
        ;
    }
    if fr.w > pw {
        assert(parts[0].w == fr.w - w && parts[0].h == bh);
    }
    if fr.h > ph {
        assert(parts.last().h == fr.h - h && parts.last().w == bw);
    }
}

/// The place of the best-area-fit packers lays a piece in the smallest room, upright where that
/// goes.
pub(crate) proof fn lemma_best_place_lays(problem: Problem, st: Pack, i: usize, across: bool)
    requires
        crate::packing::coherent(problem, st),
        i < problem.pieces@.len(),
        fits_sheet(problem, i as int),
        st.sheets <= usize::MAX,
    ensures
        ({
            let piece = problem.pieces@[i as int];
            let (st2, spot) = best_place(problem, st, i as int);
            let b = crate::packing::placed(st2, spot.0, i, spot.1, spot.2, spot.3, across);
            let fr = room(problem.sheet, st, spot.0);
            &&& lays(problem.sheet, st, b, piece, i, spot.0, spot.3, across)
            &&& turned_as_wished(fr, piece, false, spot.3)
            &&& spot.0 < st.free.len() ==> smallest_room(st.free, piece, spot.0)
            &&& spot.1 == lying_w(piece, spot.3)
            &&& spot.2 == lying_h(piece, spot.3)
            &&& st2.free[spot.0] == fr
            &&& spot.1 <= fr.w
            &&& spot.2 <= fr.h
        }),
{
    let piece = problem.pieces@[i as int];
    let n = st.free.len();
    lemma_smallest(st.free, piece, n);
    assert(st.free.take(n as int) =~= st.free);
    let (st2, spot) = best_place(problem, st, i as int);
    let whole = room(problem.sheet, st, n as int);
    assert(fit(whole, piece, false) is Some);
    if spot.0 < n {
        lemma_free_within(problem, st, spot.0);
    }
    lemma_lays(problem.sheet, st, piece, i, spot.0, spot.3, across);
}

/// Best-area-fit packing lays each piece in the smallest of the free rectangles that it goes
/// into, the first one of equal ones, and in a new sheet where it goes into none; upright where
/// that goes; and cuts so that the larger strip that remains is as large as can be.
pub proof fn law_smallest_room_roomiest_cut(problem: Problem, order: Seq<usize>, k: nat)
    requires
        all_fit(problem),
        k < order.len() <= usize::MAX,
        forall|i: int| 0 <= i < order.len() ==> #[trigger] order[i] < problem.pieces.len(),
    ensures
        ({
            let piece = problem.pieces@[order[k as int] as int];
            let a = gbaf_state(problem, order, k);
            let b = gbaf_state(problem, order, k + 1);
            exists|slot: int, turned: bool, across: bool|
                {
                    let fr = room(problem.sheet, a, slot);
                    &&& #[trigger] lays(
                        problem.sheet,
                        a,
                        b,
                        piece,
                        order[k as int],
                        slot,
                        turned,
                        across,
                    )
                    &&& turned_as_wished(fr, piece, false, turned)
                    &&& slot < a.free.len() ==> smallest_room(a.free, piece, slot)
                    &&& roomier_cut(fr, lying_w(piece, turned), lying_h(piece, turned), across)
                }
        }),
{
    let i = order[k as int];
    let a = gbaf_state(problem, order, k);
    lemma_gbaf_state(problem, order, k);
    assert(fits_sheet(problem, i as int));
    let (st2, spot) = best_place(problem, a, i as int);
    let across = roomy_direction(st2.free[spot.0], spot.1, spot.2);
    lemma_best_place_lays(problem, a, i, across);
    lemma_roomier(st2.free[spot.0], spot.1, spot.2);
    let b = gbaf_state(problem, order, k + 1);
    assert(b == crate::packing::placed(st2, spot.0, i, spot.1, spot.2, spot.3, across));
    assert(lays(problem.sheet, a, b, problem.pieces@[i as int], i, spot.0, spot.3, across));
}

/// The best-area-fit packers take every piece once, larger ones first, equally large ones in the
/// order of the problem.
pub proof fn law_larger_pieces_first(problem: Problem)
    requires
        problem.pieces@.len() <= usize::MAX,
    ensures
        by_area(problem).len() == problem.pieces@.len(),
        by_area(problem).no_duplicates(),
        forall|i: int|
            0 <= i < by_area(problem).len() ==> #[trigger] by_area(problem)[i]
                < problem.pieces@.len(),
        forall|i: int, j: int|
            0 <= i < j < by_area(problem).len() ==> {
                let a = #[trigger] by_area(problem)[i];
                let b = #[trigger] by_area(problem)[j];
                let (p, q) = (problem.pieces@[a as int], problem.pieces@[b as int]);
                let (x, y) = (p.width * p.height, q.width * q.height);
                x > y || (x == y && a < b)
            },
{
    let n = problem.pieces@.len();
    let rank = PieceOrder { pieces: problem.pieces@, key: SortKey::Area, dir: SortDir::Desc };
    lemma_order_exists(rank, n);
    let s = by_area(problem);
    assert(in_order(rank, n, s));
    assert forall|i: int, j: int| 0 <= i < s.len() && 0 <= j < s.len() && i != j implies s[i]
        != s[j] by {
        if i < j {
            assert(precedes(rank, s[i] as int, s[j] as int));
        } else {
            assert(precedes(rank, s[j] as int, s[i] as int));
        }
    }
    assert forall|i: int, j: int| 0 <= i < j < s.len() implies ({
        let a = #[trigger] s[i];
        let b = #[trigger] s[j];
        let (p, q) = (problem.pieces@[a as int], problem.pieces@[b as int]);
        let (x, y) = (p.width * p.height, q.width * q.height);
        x > y || (x == y && a < b)
    }) by {
        assert(precedes(rank, s[i] as int, s[j] as int));
    }
}

/// The size of a piece that a sort key speaks of, and what decides between equal ones.
pub open spec fn key_size(p: Piece, key: SortKey) -> (int, int) {
    let (w, h) = (p.width as int, p.height as int);
    let (short, long) = if w <= h {
        (w, h)
    } else {
        (h, w)
    };
    match key {
        SortKey::Area => (w * h, 0),
        SortKey::ShortSide => (short, long),
        SortKey::LongSide => (long, short),
        SortKey::Perimeter => (w + h, 0),
        SortKey::Diff => (long - short, 0),
        SortKey::Ratio => (0, 0),
    }
}

/// `p` comes before `q` by a key, or neither does: by its size, or by width over height.
pub open spec fn not_behind(p: Piece, q: Piece, key: SortKey) -> bool {
    let (a, b) = (key_size(p, key), key_size(q, key));
    &&& a.0 < b.0 || (a.0 == b.0 && a.1 <= b.1)
    &&& key == SortKey::Ratio ==> p.width * q.height <= q.width * p.height
}

/// A pass takes every piece once: by its key, smaller ones first or larger ones first, and equal
/// ones in the order of the problem. Pieces have both sides positive.
pub proof fn law_pieces_by_key(problem: Problem, key: SortKey, dir: SortDir)
    requires
        problem.pieces@.len() <= usize::MAX,
        forall|i: int|
            0 <= i < problem.pieces@.len() ==> (#[trigger] problem.pieces@[i]).width > 0
                && problem.pieces@[i].height > 0,
    ensures
        keyed_order(problem, key, dir).len() == problem.pieces@.len(),
        keyed_order(problem, key, dir).no_duplicates(),
        forall|i: int|
            0 <= i < keyed_order(problem, key, dir).len() ==> #[trigger] keyed_order(
                problem,
                key,
                dir,
            )[i] < problem.pieces@.len(),
        forall|i: int, j: int|
            0 <= i < j < keyed_order(problem, key, dir).len() ==> {
                let a = #[trigger] keyed_order(problem, key, dir)[i];
                let b = #[trigger] keyed_order(problem, key, dir)[j];
                let (p, q) = (problem.pieces@[a as int], problem.pieces@[b as int]);
                let (first, second) = if dir == SortDir::Asc {
                    (p, q)
                } else {
                    (q, p)
                };
                &&& not_behind(first, second, key)
                &&& not_behind(second, first, key) ==> a < b
            },
{
    let n = problem.pieces@.len();
    let rank = PieceOrder { pieces: problem.pieces@, key, dir };
    assert forall|i: int| 0 <= i < n implies #[trigger] crate::sorting::Order::ranks(rank, i) by {
        assert(problem.pieces@[i].width > 0);
    }
    lemma_order_exists(rank, n);
    let s = keyed_order(problem, key, dir);
    assert(in_order(rank, n, s));
    assert forall|i: int, j: int| 0 <= i < s.len() && 0 <= j < s.len() && i != j implies s[i]
        != s[j] by {
        if i < j {
            assert(precedes(rank, s[i] as int, s[j] as int));
        } else {
            assert(precedes(rank, s[j] as int, s[i] as int));
        }
    }
    assert forall|i: int, j: int| 0 <= i < j < s.len() implies ({
        let a = #[trigger] s[i];
        let b = #[trigger] s[j];
        let (p, q) = (problem.pieces@[a as int], problem.pieces@[b as int]);
        let (first, second) = if dir == SortDir::Asc {
            (p, q)
        } else {
            (q, p)
        };
        &&& not_behind(first, second, key)
        &&& not_behind(second, first, key) ==> a < b
    }) by {
        assert(precedes(rank, s[i] as int, s[j] as int));
    }
}

/// How tightly a piece of `w` x `h` lies in a rectangle by a rule; the least is best.
pub open spec fn tightness(sel: SelectionRule, fr: FreeRect, w: int, h: int) -> int {
    let (a, b) = (fr.w - w, fr.h - h);
    match sel {
        SelectionRule::Area => fr.w * fr.h,
        SelectionRule::ShortSide => if a < b {
            a
        } else {
            b
        },
        SelectionRule::LongSide => if a < b {
            b
        } else {
            a
        },
    }
}

/// How tightly the piece lies in the rectangle, turned or not.
pub open spec fn tight(sel: SelectionRule, fr: FreeRect, piece: Piece, turned: bool) -> int {
    tightness(sel, fr, lying_w(piece, turned), lying_h(piece, turned))
}

/// No rectangle takes the piece more tightly, in any orientation that it may have, than number
/// `slot` in the chosen one; the first one of equal rectangles is taken, and upright before
/// turned.
pub open spec fn tightest(
    free: Seq<FreeRect>,
    piece: Piece,
    sel: SelectionRule,
    slot: int,
    turned: bool,
) -> bool {
    forall|j: int, t: bool|
        0 <= j < free.len() && #[trigger] goes(free[j], piece, t) ==> {
            let (a, b) = (tight(sel, free[slot], piece, turned), tight(sel, free[j], piece, t));
            a < b || (a == b && (slot < j || (slot == j && (turned ==> t))))
        }
}

/// How a rule cuts: below the piece along the whole width, or beside it along the whole height.
pub open spec fn cut_by(rule: SplitRule, fr: FreeRect, w: int, h: int) -> bool {
    let (beside, below) = (fr.w - w, fr.h - h);
    match rule {
        SplitRule::ShorterLeftover => beside <= below,
        SplitRule::LongerLeftover => !(beside <= below),
        SplitRule::ShortAxis => fr.w < fr.h,
        SplitRule::LongAxis => fr.h < fr.w,
    }
}

proof fn lemma_tightest(
    free: Seq<FreeRect>,
    piece: Piece,
    sel: SelectionRule,
    skip: int,
    n: int,
)
    requires
        0 <= skip <= n <= free.len(),
    ensures
        match best_scored(free, piece, sel, skip, n) {
            Some(b) => {
                &&& skip <= b.1 < n
                &&& goes(free[b.1], piece, b.4)
                &&& b.2 == lying_w(piece, b.4)
                &&& b.3 == lying_h(piece, b.4)
                &&& b.0 == tight(sel, free[b.1], piece, b.4)
                &&& forall|j: int, t: bool|
                    skip <= j < n && #[trigger] goes(free[j], piece, t) ==> {
                        let c = tight(sel, free[j], piece, t);
                        b.0 < c || (b.0 == c && (b.1 < j || (b.1 == j && (b.4 ==> t))))
                    }
            },
            None => forall|j: int, t: bool|
                skip <= j < n ==> !#[trigger] goes(free[j], piece, t),
        },
    decreases n - skip,
{
    if skip < n {
        lemma_tightest(free, piece, sel, skip, n - 1);
        let fr = free[n - 1];
        if !turns(piece) {
            assert(goes(fr, piece, true) ==> goes(fr, piece, false) && tight(sel, fr, piece, true)
                == tight(sel, fr, piece, false));
        }
    }
}

/// A pass of the portfolio lays each piece where it lies most tightly by the selection rule, the
/// first one of equal rectangles and upright before turned, and in a new sheet where it goes into
/// no free rectangle; and cuts by the split rule.
pub proof fn law_tightest_room_cut_by_rule(
    problem: Problem,
    order: Seq<usize>,
    how: Strategy,
    k: nat,
)
    requires
        all_fit(problem),
        k < order.len() <= usize::MAX,
        forall|i: int| 0 <= i < order.len() ==> #[trigger] order[i] < problem.pieces.len(),
    ensures
        ({
            let piece = problem.pieces@[order[k as int] as int];
            let a = jylanki_state(problem, order, how, k);
            let b = jylanki_state(problem, order, how, k + 1);
            exists|slot: int, turned: bool, across: bool|
                {
                    let fr = room(problem.sheet, a, slot);
                    &&& #[trigger] lays(
                        problem.sheet,
                        a,
                        b,
                        piece,
                        order[k as int],
                        slot,
                        turned,
                        across,
                    )
                    &&& slot < a.free.len() ==> tightest(a.free, piece, how.sel, slot, turned)
                    &&& slot == a.free.len() ==> tightest(seq![fr], piece, how.sel, 0, turned)
                    &&& across == cut_by(
                        how.rule,
                        fr,
                        lying_w(piece, turned),
                        lying_h(piece, turned),
                    )
                }
        }),
{
    let i = order[k as int];
    let piece = problem.pieces@[i as int];
    let a = jylanki_state(problem, order, how, k);
    let b = jylanki_state(problem, order, how, k + 1);
    lemma_jylanki_state(problem, order, how, k);
    assert(fits_sheet(problem, i as int));
    let n = a.free.len() as int;
    let (st2, spot) = scored_place(problem, a, i as int, how.sel);
    lemma_tightest(a.free, piece, how.sel, 0, n);
    let whole = room(problem.sheet, a, n);
    assert(goes(whole, piece, false) || goes(whole, piece, true));
    if best_scored(a.free, piece, how.sel, 0, n) is None {
        assert forall|j: int| 0 <= j < n implies !goes(#[trigger] a.free[j], piece, false) && !goes(
            a.free[j],
            piece,
            true,
        ) by {}
        assert(goes_nowhere(a.free, piece));
        lemma_tightest(st2.free, piece, how.sel, n, n + 1);
        assert(st2.free[n] == whole);
        assert(spot.0 == n);
        let one = seq![whole];
        assert forall|j: int, t: bool| 0 <= j < one.len() && #[trigger] goes(
            one[j],
            piece,
            t,
        ) implies ({
            let (x, y) = (
                tight(how.sel, one[0], piece, spot.3),
                tight(how.sel, one[j], piece, t),
            );
            x < y || (x == y && (0 < j || (0 == j && (spot.3 ==> t))))
        }) by {
            assert(goes(st2.free[n], piece, t));
        }
    } else {
        lemma_free_within(problem, a, spot.0);
    }
    let fr = room(problem.sheet, a, spot.0);
    let across = rule_direction(how.rule, fr, spot.1, spot.2);
    lemma_lays(problem.sheet, a, piece, i, spot.0, spot.3, across);
    assert(b == crate::packing::placed(st2, spot.0, i, spot.1, spot.2, spot.3, across));
    assert(lays(problem.sheet, a, b, piece, i, spot.0, spot.3, across));
}

} // verus!
