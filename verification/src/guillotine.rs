//! Pieces that are slices of a sheet can be cut out of it.

use vstd::multiset::Multiset;
use vstd::prelude::*;

use crate::cut_tree::{
    clean_cut, cuttable, early, fills, good_cut, is_edge, late, on_sheet, parts, sheet_bounds,
    sheet_cuttable, Bounds, PlacedPiece,
};
use crate::layout::{
    bottom_part, bounded, forest_ok, forest_slices, left_part, lemma_forest_slice,
    lemma_packed_apart, lemma_packed_fewer, lemma_packed_within, lemma_slices_within, packed,
    right_part, slices, slicing_ok, top_part, Slicing,
};
use crate::layout::apart;
use crate::model::{
    cells, in_sheet, lemma_sheet_count, sheet_cell, sheet_count, well_placed, FreeRect, Piece,
    Placement, Problem,
};

verus! {

/// Every piece has positive sides and lies in the region.
spec fn all_in(b: Bounds, ps: Seq<PlacedPiece>) -> bool {
    forall|i: int| 0 <= i < ps.len() ==> (#[trigger] ps[i]).solid() && b.holds(ps[i])
}

spec fn box_of(p: PlacedPiece) -> Bounds {
    Bounds { x0: p.x as int, y0: p.y as int, x1: p.x + p.pw, y1: p.y + p.ph }
}

spec fn smaller(a: int, b: int) -> int {
    if a <= b {
        a
    } else {
        b
    }
}

spec fn greater(a: int, b: int) -> int {
    if a >= b {
        a
    } else {
        b
    }
}

/// The smallest region that holds all pieces.
spec fn hull(ps: Seq<PlacedPiece>) -> Bounds
    decreases ps.len(),
{
    if ps.len() <= 1 {
        box_of(ps[0])
    } else {
        let a = hull(ps.drop_last());
        let b = box_of(ps.last());
        Bounds {
            x0: smaller(a.x0, b.x0),
            y0: smaller(a.y0, b.y0),
            x1: greater(a.x1, b.x1),
            y1: greater(a.y1, b.y1),
        }
    }
}

proof fn lemma_hull(ps: Seq<PlacedPiece>, horizontal: bool)
    requires
        ps.len() > 0,
    ensures
        forall|i: int| 0 <= i < ps.len() ==> hull(ps).holds(#[trigger] ps[i]),
        exists|i: int|
            0 <= i < ps.len() && (#[trigger] ps[i]).near(horizontal) == hull(ps).lo(horizontal),
        exists|i: int|
            0 <= i < ps.len() && (#[trigger] ps[i]).far(horizontal) == hull(ps).hi(horizontal),
    decreases ps.len(),
{
    if ps.len() == 1 {
        assert(ps[0].near(horizontal) == hull(ps).lo(horizontal));
        assert(ps[0].far(horizontal) == hull(ps).hi(horizontal));
    } else {
        let q = ps.drop_last();
        lemma_hull(q, horizontal);
        assert forall|i: int| 0 <= i < ps.len() implies hull(ps).holds(#[trigger] ps[i]) by {
            if i < q.len() {
                assert(q[i] == ps[i]);
            }
        }
        let n = ps.len() - 1;
        let i = choose|i: int|
            0 <= i < q.len() && (#[trigger] q[i]).near(horizontal) == hull(q).lo(horizontal);
        assert(ps[i] == q[i]);
        assert(ps[n] == ps.last());
        let j = choose|j: int|
            0 <= j < q.len() && (#[trigger] q[j]).far(horizontal) == hull(q).hi(horizontal);
        assert(ps[j] == q[j]);
        assert(ps[i].near(horizontal) == hull(ps).lo(horizontal) || ps[n].near(horizontal) == hull(
            ps,
        ).lo(horizontal));
        assert(ps[j].far(horizontal) == hull(ps).hi(horizontal) || ps[n].far(horizontal) == hull(
            ps,
        ).hi(horizontal));
    }
}

/// A region that holds all pieces holds their hull.
proof fn lemma_hull_least(b: Bounds, ps: Seq<PlacedPiece>)
    requires
        ps.len() > 0,
        all_in(b, ps),
    ensures
        b.contains(hull(ps)),
        hull(ps).x0 < hull(ps).x1,
        hull(ps).y0 < hull(ps).y1,
{
    lemma_hull(ps, true);
    lemma_hull(ps, false);
    assert(ps[0].solid() && hull(ps).holds(ps[0]));
}

/// The pieces in front of a cut are pieces, each of them in front.
proof fn lemma_early(ps: Seq<PlacedPiece>, horizontal: bool, at: int)
    ensures
        early(ps, horizontal, at).len() <= ps.len(),
        forall|i: int|
            0 <= i < early(ps, horizontal, at).len() ==> {
                &&& (#[trigger] early(ps, horizontal, at)[i]).far(horizontal) <= at
                &&& ps.contains(early(ps, horizontal, at)[i])
            },
        forall|p: PlacedPiece|
            ps.contains(p) && p.far(horizontal) <= at ==> early(ps, horizontal, at).contains(p),
    decreases ps.len(),
{
    if ps.len() > 0 {
        let q = ps.drop_last();
        lemma_early(q, horizontal, at);
        let e = early(ps, horizontal, at);
        let f = early(q, horizontal, at);
        assert forall|p: PlacedPiece| #[trigger] q.contains(p) implies ps.contains(p) by {
            let i = choose|i: int| 0 <= i < q.len() && q[i] == p;
            assert(ps[i] == p);
        }
        assert(ps[ps.len() - 1] == ps.last());
        assert forall|i: int| 0 <= i < e.len() implies {
            &&& (#[trigger] e[i]).far(horizontal) <= at
            &&& ps.contains(e[i])
        } by {
            if i < f.len() {
                assert(e[i] == f[i]);
                assert(q.contains(f[i]));
            }
        }
        assert forall|p: PlacedPiece| ps.contains(p) && p.far(horizontal) <= at implies e.contains(
            p,
        ) by {
            let i = choose|i: int| 0 <= i < ps.len() && ps[i] == p;
            if i < q.len() {
                assert(q[i] == p);
                assert(q.contains(p));
                assert(f.contains(p));
                let j = choose|j: int| 0 <= j < f.len() && f[j] == p;
                assert(e[j] == p);
            } else {
                assert(e[e.len() - 1] == p);
            }
        }
    }
}

/// The pieces behind a cut are pieces, each of them behind.
proof fn lemma_late(ps: Seq<PlacedPiece>, horizontal: bool, at: int)
    ensures
        late(ps, horizontal, at).len() <= ps.len(),
        forall|i: int|
            0 <= i < late(ps, horizontal, at).len() ==> {
                &&& (#[trigger] late(ps, horizontal, at)[i]).near(horizontal) >= at
                &&& ps.contains(late(ps, horizontal, at)[i])
            },
        forall|p: PlacedPiece|
            ps.contains(p) && p.near(horizontal) >= at ==> late(ps, horizontal, at).contains(p),
    decreases ps.len(),
{
    if ps.len() > 0 {
        let q = ps.drop_last();
        lemma_late(q, horizontal, at);
        let e = late(ps, horizontal, at);
        let f = late(q, horizontal, at);
        assert forall|p: PlacedPiece| #[trigger] q.contains(p) implies ps.contains(p) by {
            let i = choose|i: int| 0 <= i < q.len() && q[i] == p;
            assert(ps[i] == p);
        }
        assert(ps[ps.len() - 1] == ps.last());
        assert forall|i: int| 0 <= i < e.len() implies {
            &&& (#[trigger] e[i]).near(horizontal) >= at
            &&& ps.contains(e[i])
        } by {
            if i < f.len() {
                assert(e[i] == f[i]);
                assert(q.contains(f[i]));
            }
        }
        assert forall|p: PlacedPiece| ps.contains(p) && p.near(horizontal) >= at implies e.contains(
            p,
        ) by {
            let i = choose|i: int| 0 <= i < ps.len() && ps[i] == p;
            if i < q.len() {
                assert(q[i] == p);
                assert(q.contains(p));
                assert(f.contains(p));
                let j = choose|j: int| 0 <= j < f.len() && f[j] == p;
                assert(e[j] == p);
            } else {
                assert(e[e.len() - 1] == p);
            }
        }
    }
}

/// Two lines that part the pieces alike give the same sides.
proof fn lemma_same_sides(ps: Seq<PlacedPiece>, horizontal: bool, a: int, b: int)
    requires
        forall|i: int|
            0 <= i < ps.len() ==> ((#[trigger] ps[i]).far(horizontal) <= a) == (ps[i].far(
                horizontal,
            ) <= b) && (ps[i].near(horizontal) >= a) == (ps[i].near(horizontal) >= b),
    ensures
        early(ps, horizontal, a) == early(ps, horizontal, b),
        late(ps, horizontal, a) == late(ps, horizontal, b),
    decreases ps.len(),
{
    if ps.len() > 0 {
        let q = ps.drop_last();
        assert forall|i: int| 0 <= i < q.len() implies ((#[trigger] q[i]).far(horizontal) <= a)
            == (q[i].far(horizontal) <= b) && (q[i].near(horizontal) >= a) == (q[i].near(horizontal)
            >= b) by {
            assert(q[i] == ps[i]);
        }
        lemma_same_sides(q, horizontal, a, b);
        assert(ps[ps.len() - 1] == ps.last());
    }
}

/// A line in front of all pieces.
proof fn lemma_all_late(ps: Seq<PlacedPiece>, horizontal: bool, at: int)
    requires
        forall|i: int|
            0 <= i < ps.len() ==> (#[trigger] ps[i]).near(horizontal) >= at && ps[i].far(horizontal)
                > at,
    ensures
        early(ps, horizontal, at) == Seq::<PlacedPiece>::empty(),
        late(ps, horizontal, at) == ps,
    decreases ps.len(),
{
    if ps.len() > 0 {
        let q = ps.drop_last();
        assert forall|i: int| 0 <= i < q.len() implies (#[trigger] q[i]).near(horizontal) >= at
            && q[i].far(horizontal) > at by {
            assert(q[i] == ps[i]);
        }
        lemma_all_late(q, horizontal, at);
        assert(ps[ps.len() - 1] == ps.last());
        assert(q.push(ps.last()) =~= ps);
    } else {
        assert(ps =~= Seq::<PlacedPiece>::empty());
    }
}

/// A line behind all pieces.
proof fn lemma_all_early(ps: Seq<PlacedPiece>, horizontal: bool, at: int)
    requires
        forall|i: int|
            0 <= i < ps.len() ==> (#[trigger] ps[i]).far(horizontal) <= at && ps[i].near(horizontal)
                < at,
    ensures
        early(ps, horizontal, at) == ps,
        late(ps, horizontal, at) == Seq::<PlacedPiece>::empty(),
    decreases ps.len(),
{
    if ps.len() > 0 {
        let q = ps.drop_last();
        assert forall|i: int| 0 <= i < q.len() implies (#[trigger] q[i]).far(horizontal) <= at
            && q[i].near(horizontal) < at by {
            assert(q[i] == ps[i]);
        }
        lemma_all_early(q, horizontal, at);
        assert(ps[ps.len() - 1] == ps.last());
        assert(q.push(ps.last()) =~= ps);
    } else {
        assert(ps =~= Seq::<PlacedPiece>::empty());
    }
}

proof fn lemma_cut_gives(b: Bounds, ps: Seq<PlacedPiece>, horizontal: bool, at: int)
    requires
        good_cut(b, ps, horizontal, at),
    ensures
        cuttable(b, ps),
{
    assert(clean_cut(b, ps, horizontal, at));
}

/// Pieces that can be cut out of their hull can be cut out of any region that holds it.
proof fn lemma_grow(b: Bounds, ps: Seq<PlacedPiece>)
    requires
        ps.len() > 0,
        all_in(b, ps),
        cuttable(hull(ps), ps),
    ensures
        cuttable(b, ps),
    decreases b.measure(),
{
    let k = hull(ps);
    lemma_hull(ps, true);
    lemma_hull(ps, false);
    lemma_hull_least(b, ps);
    if b.lo(true) < k.lo(true) {
        lemma_grow_lo(b, ps, true);
    } else if b.lo(false) < k.lo(false) {
        lemma_grow_lo(b, ps, false);
    } else if k.hi(true) < b.hi(true) {
        lemma_grow_hi(b, ps, true);
    } else if k.hi(false) < b.hi(false) {
        lemma_grow_hi(b, ps, false);
    } else {
        assert(b == k);
    }
}

proof fn lemma_grow_lo(b: Bounds, ps: Seq<PlacedPiece>, horizontal: bool)
    requires
        ps.len() > 0,
        all_in(b, ps),
        cuttable(hull(ps), ps),
        b.lo(horizontal) < hull(ps).lo(horizontal),
    ensures
        cuttable(b, ps),
    decreases b.measure(), 0int,
{
    let k = hull(ps);
    let at = k.lo(horizontal);
    lemma_hull(ps, horizontal);
    lemma_hull_least(b, ps);
    assert forall|i: int| 0 <= i < ps.len() implies (#[trigger] ps[i]).near(horizontal) >= at
        && ps[i].far(horizontal) > at by {
        assert(ps[i].solid() && k.holds(ps[i]));
    }
    lemma_all_late(ps, horizontal, at);
    let i = choose|i: int| 0 <= i < ps.len() && (#[trigger] ps[i]).near(horizontal) == at;
    assert(ps[i].touches(horizontal, at));
    assert(is_edge(ps, horizontal, at));
    assert(parts(ps, horizontal, at));
    let b2 = b.after(horizontal, at);
    assert forall|i: int| 0 <= i < ps.len() implies (#[trigger] ps[i]).solid() && b2.holds(
        ps[i],
    ) by {
        assert(b.holds(ps[i]) && k.holds(ps[i]));
    }
    lemma_grow(b2, ps);
    assert(good_cut(b, ps, horizontal, at));
    lemma_cut_gives(b, ps, horizontal, at);
}

proof fn lemma_grow_hi(b: Bounds, ps: Seq<PlacedPiece>, horizontal: bool)
    requires
        ps.len() > 0,
        all_in(b, ps),
        cuttable(hull(ps), ps),
        hull(ps).hi(horizontal) < b.hi(horizontal),
    ensures
        cuttable(b, ps),
    decreases b.measure(), 0int,
{
    let k = hull(ps);
    let at = k.hi(horizontal);
    lemma_hull(ps, horizontal);
    lemma_hull_least(b, ps);
    assert forall|i: int| 0 <= i < ps.len() implies (#[trigger] ps[i]).far(horizontal) <= at
        && ps[i].near(horizontal) < at by {
        assert(ps[i].solid() && k.holds(ps[i]));
    }
    lemma_all_early(ps, horizontal, at);
    let i = choose|i: int| 0 <= i < ps.len() && (#[trigger] ps[i]).far(horizontal) == at;
    assert(ps[i].touches(horizontal, at));
    assert(is_edge(ps, horizontal, at));
    assert(parts(ps, horizontal, at));
    let b2 = b.before(horizontal, at);
    assert forall|i: int| 0 <= i < ps.len() implies (#[trigger] ps[i]).solid() && b2.holds(
        ps[i],
    ) by {
        assert(b.holds(ps[i]) && k.holds(ps[i]));
    }
    lemma_grow(b2, ps);
    assert(good_cut(b, ps, horizontal, at));
    lemma_cut_gives(b, ps, horizontal, at);
}

/// The two sides of a cut hold their pieces.
proof fn lemma_sides_in(b: Bounds, ps: Seq<PlacedPiece>, horizontal: bool, at: int)
    requires
        all_in(b, ps),
    ensures
        all_in(b.before(horizontal, at), early(ps, horizontal, at)),
        all_in(b.after(horizontal, at), late(ps, horizontal, at)),
{
    lemma_early(ps, horizontal, at);
    lemma_late(ps, horizontal, at);
    let e = early(ps, horizontal, at);
    let l = late(ps, horizontal, at);
    assert forall|i: int| 0 <= i < e.len() implies (#[trigger] e[i]).solid() && b.before(
        horizontal,
        at,
    ).holds(e[i]) by {
        assert(ps.contains(e[i]));
        let j = choose|j: int| 0 <= j < ps.len() && ps[j] == e[i];
        assert(ps[j].solid());
    }
    assert forall|i: int| 0 <= i < l.len() implies (#[trigger] l[i]).solid() && b.after(
        horizontal,
        at,
    ).holds(l[i]) by {
        assert(ps.contains(l[i]));
        let j = choose|j: int| 0 <= j < ps.len() && ps[j] == l[i];
        assert(ps[j].solid());
    }
}

/// Where one side of a parting line is empty, the other side is everything.
proof fn lemma_one_sided(ps: Seq<PlacedPiece>, horizontal: bool, at: int)
    requires
        parts(ps, horizontal, at),
    ensures
        early(ps, horizontal, at).len() == 0 ==> late(ps, horizontal, at) == ps,
        late(ps, horizontal, at).len() == 0 ==> early(ps, horizontal, at) == ps,
{
    lemma_early(ps, horizontal, at);
    lemma_late(ps, horizontal, at);
    if early(ps, horizontal, at).len() == 0 {
        assert forall|i: int| 0 <= i < ps.len() implies (#[trigger] ps[i]).near(horizontal) >= at
            && ps[i].far(horizontal) > at by {
            assert(ps.contains(ps[i]));
            if ps[i].far(horizontal) <= at {
                assert(early(ps, horizontal, at).contains(ps[i]));
            }
        }
        lemma_all_late(ps, horizontal, at);
    }
    if late(ps, horizontal, at).len() == 0 {
        assert forall|i: int| 0 <= i < ps.len() implies (#[trigger] ps[i]).far(horizontal) <= at
            && ps[i].near(horizontal) < at by {
            assert(ps.contains(ps[i]));
            if ps[i].near(horizontal) >= at {
                assert(late(ps, horizontal, at).contains(ps[i]));
            }
        }
        lemma_all_early(ps, horizontal, at);
    }
}

/// Pieces that can be cut out of a region can be cut out of their hull.
proof fn lemma_shrink(b: Bounds, ps: Seq<PlacedPiece>)
    requires
        ps.len() > 0,
        all_in(b, ps),
        cuttable(b, ps),
    ensures
        cuttable(hull(ps), ps),
    decreases b.measure(),
{
    if ps.len() == 1 && fills(ps[0], b) {
        assert(hull(ps) == b);
    } else {
        let (horizontal, at) = choose|horizontal: bool, at: int|
            {
                &&& #[trigger] clean_cut(b, ps, horizontal, at)
                &&& cuttable(b.before(horizontal, at), early(ps, horizontal, at))
                &&& cuttable(b.after(horizontal, at), late(ps, horizontal, at))
            };
        let e = early(ps, horizontal, at);
        let l = late(ps, horizontal, at);
        lemma_sides_in(b, ps, horizontal, at);
        lemma_one_sided(ps, horizontal, at);
        if e.len() == 0 {
            lemma_shrink(b.after(horizontal, at), ps);
        } else if l.len() == 0 {
            lemma_shrink(b.before(horizontal, at), ps);
        } else {
            lemma_shrink(b.before(horizontal, at), e);
            lemma_shrink(b.after(horizontal, at), l);
            let k = hull(ps);
            lemma_hull(ps, horizontal);
            assert(all_in(k, ps));
            lemma_sides_in(k, ps, horizontal, at);
            lemma_grow(k.before(horizontal, at), e);
            lemma_grow(k.after(horizontal, at), l);
            assert(e[0].solid() && k.before(horizontal, at).holds(e[0]));
            assert(l[0].solid() && k.after(horizontal, at).holds(l[0]));
            assert(clean_cut(k, ps, horizontal, at));
            assert(good_cut(k, ps, horizontal, at));
            lemma_cut_gives(k, ps, horizontal, at);
        }
    }
}

/// A cut that parts the pieces joins two cuttable regions to one, wherever it lies.
proof fn lemma_join(b: Bounds, ps: Seq<PlacedPiece>, horizontal: bool, at: int)
    requires
        all_in(b, ps),
        parts(ps, horizontal, at),
        cuttable(b.before(horizontal, at), early(ps, horizontal, at)),
        cuttable(b.after(horizontal, at), late(ps, horizontal, at)),
    ensures
        cuttable(b, ps),
{
    let e = early(ps, horizontal, at);
    let l = late(ps, horizontal, at);
    if ps.len() > 0 {
        lemma_sides_in(b, ps, horizontal, at);
        lemma_one_sided(ps, horizontal, at);
        if e.len() == 0 {
            lemma_shrink(b.after(horizontal, at), ps);
            lemma_grow(b, ps);
        } else if l.len() == 0 {
            lemma_shrink(b.before(horizontal, at), ps);
            lemma_grow(b, ps);
        } else {
            lemma_shrink(b.before(horizontal, at), e);
            lemma_shrink(b.after(horizontal, at), l);
            lemma_hull(e, horizontal);
            let v = hull(e).hi(horizontal);
            let i = choose|i: int|
                0 <= i < e.len() && (#[trigger] e[i]).far(horizontal) == v;
            lemma_early(ps, horizontal, at);
            lemma_late(ps, horizontal, at);
            assert(v <= at);
            assert(ps.contains(e[i]));
            let j = choose|j: int| 0 <= j < ps.len() && ps[j] == e[i];
            assert(ps[j].touches(horizontal, v));
            assert(is_edge(ps, horizontal, v));
            assert(e[i].solid() && b.before(horizontal, at).holds(e[i]));
            assert(l[0].solid() && b.after(horizontal, at).holds(l[0]));
            assert(b.lo(horizontal) < v < b.hi(horizontal));
            assert forall|i: int| 0 <= i < ps.len() implies ((#[trigger] ps[i]).far(horizontal)
                <= at) == (ps[i].far(horizontal) <= v) && (ps[i].near(horizontal) >= at) == (
            ps[i].near(horizontal) >= v) by {
                assert(ps[i].solid());
                assert(ps.contains(ps[i]));
                if ps[i].far(horizontal) <= at {
                    assert(e.contains(ps[i]));
                    let m = choose|m: int| 0 <= m < e.len() && e[m] == ps[i];
                    assert(hull(e).holds(e[m]));
                }
            }
            lemma_same_sides(ps, horizontal, at, v);
            assert(parts(ps, horizontal, v));
            lemma_sides_in(b, ps, horizontal, v);
            lemma_grow(b.before(horizontal, v), e);
            lemma_grow(b.after(horizontal, v), l);
            assert(good_cut(b, ps, horizontal, v));
            lemma_cut_gives(b, ps, horizontal, v);
        }
    }
}

/// How many of the pieces cover exactly the rectangle `r`.
pub open spec fn tally(ps: Seq<PlacedPiece>, r: FreeRect) -> nat
    decreases ps.len(),
{
    if ps.len() == 0 {
        0
    } else {
        tally(ps.drop_last(), r) + if ps.last().cell(r.sheet_idx) == r {
            1nat
        } else {
            0nat
        }
    }
}

proof fn lemma_tally_member(ps: Seq<PlacedPiece>, i: int, s: usize)
    requires
        0 <= i < ps.len(),
    ensures
        tally(ps, ps[i].cell(s)) > 0,
    decreases ps.len(),
{
    if i < ps.len() - 1 {
        lemma_tally_member(ps.drop_last(), i, s);
        assert(ps.drop_last()[i] == ps[i]);
    }
}

proof fn lemma_tally_sides(ps: Seq<PlacedPiece>, horizontal: bool, at: int, r: FreeRect)
    ensures
        tally(early(ps, horizontal, at), r) <= tally(ps, r),
        tally(late(ps, horizontal, at), r) <= tally(ps, r),
        (if horizontal { r.bottom() } else { r.right() }) > at ==> tally(
            early(ps, horizontal, at),
            r,
        ) == 0,
        (if horizontal { r.y } else { r.x }) < at ==> tally(late(ps, horizontal, at), r) == 0,
    decreases ps.len(),
{
    if ps.len() > 0 {
        let q = ps.drop_last();
        lemma_tally_sides(q, horizontal, at, r);
        let e = early(q, horizontal, at);
        let l = late(q, horizontal, at);
        assert(e.push(ps.last()).drop_last() =~= e);
        assert(l.push(ps.last()).drop_last() =~= l);
    }
}

spec fn bounds_of(c: FreeRect) -> Bounds {
    Bounds { x0: c.x as int, y0: c.y as int, x1: c.right(), y1: c.bottom() }
}

/// Pieces that are slices of a rectangle can be cut out of it.
proof fn lemma_sliced_cuttable(t: Slicing, c: FreeRect, ps: Seq<PlacedPiece>)
    requires
        slicing_ok(t, c),
        bounded(c),
        forall|i: int| 0 <= i < ps.len() ==> (#[trigger] ps[i]).solid(),
        forall|r: FreeRect|
            r.sheet_idx == c.sheet_idx ==> #[trigger] tally(ps, r) <= slices(t, c).count(r),
    ensures
        cuttable(bounds_of(c), ps),
    decreases t, 1int,
{
    let b = bounds_of(c);
    let s = c.sheet_idx;
    assert forall|i: int| 0 <= i < ps.len() implies (#[trigger] ps[i]).solid() && b.holds(
        ps[i],
    ) by {
        lemma_tally_member(ps, i, s);
        assert(slices(t, c).count(ps[i].cell(s)) > 0);
        lemma_slices_within(t, c, ps[i].cell(s));
    }
    match t {
        Slicing::Whole => {
            if ps.len() >= 1 {
                lemma_tally_member(ps, 0, s);
                assert(slices(t, c).count(ps[0].cell(s)) > 0);
                assert(ps[0].cell(s) == c);
                assert(fills(ps[0], b));
                if ps.len() >= 2 {
                    let q = ps.drop_last();
                    lemma_tally_member(q, 0, s);
                    assert(q[0] == ps[0]);
                    let z = ps.len() - 1;
                    lemma_tally_member(ps, z, s);
                    assert(slices(t, c).count(ps[z].cell(s)) > 0);
                    assert(ps[z].cell(s) == c);
                    assert(tally(ps, c) >= 2);
                    assert(slices(t, c).count(c) == 1);
                    assert(false);
                }
            }
        },
        Slicing::Stacked { at, top, bottom } => {
            lemma_sliced_halves(
                t,
                *top,
                *bottom,
                top_part(c, at),
                bottom_part(c, at),
                c,
                ps,
                true,
                c.y + at,
            );
        },
        Slicing::Beside { at, left, right } => {
            lemma_sliced_halves(
                t,
                *left,
                *right,
                left_part(c, at),
                right_part(c, at),
                c,
                ps,
                false,
                c.x + at,
            );
        },
    }
}

proof fn lemma_sliced_halves(
    t: Slicing,
    t1: Slicing,
    t2: Slicing,
    c1: FreeRect,
    c2: FreeRect,
    c: FreeRect,
    ps: Seq<PlacedPiece>,
    horizontal: bool,
    at: int,
)
    requires
        decreases_to!(t => t1),
        decreases_to!(t => t2),
        bounded(c),
        bounded(c1),
        bounded(c2),
        c1.sheet_idx == c.sheet_idx,
        c2.sheet_idx == c.sheet_idx,
        bounds_of(c1) == bounds_of(c).before(horizontal, at),
        bounds_of(c2) == bounds_of(c).after(horizontal, at),
        slicing_ok(t1, c1),
        slicing_ok(t2, c2),
        all_in(bounds_of(c), ps),
        forall|r: FreeRect|
            r.sheet_idx == c.sheet_idx ==> #[trigger] tally(ps, r) <= slices(t1, c1).count(r)
                + slices(t2, c2).count(r),
    ensures
        cuttable(bounds_of(c), ps),
    decreases t, 0int,
{
    let b = bounds_of(c);
    let s = c.sheet_idx;
    let e = early(ps, horizontal, at);
    let l = late(ps, horizontal, at);
    assert forall|i: int| 0 <= i < ps.len() implies ((#[trigger] ps[i]).far(horizontal) <= at)
        != (ps[i].near(horizontal) >= at) by {
        let r = ps[i].cell(s);
        assert(ps[i].solid());
        lemma_tally_member(ps, i, s);
        if slices(t1, c1).count(r) > 0 {
            lemma_slices_within(t1, c1, r);
        } else {
            lemma_slices_within(t2, c2, r);
        }
    }
    lemma_sides_in(b, ps, horizontal, at);
    assert forall|r: FreeRect| r.sheet_idx == c1.sheet_idx implies #[trigger] tally(e, r)
        <= slices(t1, c1).count(r) by {
        lemma_tally_sides(ps, horizontal, at, r);
        assert(tally(ps, r) <= slices(t1, c1).count(r) + slices(t2, c2).count(r));
        if slices(t2, c2).count(r) > 0 && tally(e, r) > 0 {
            lemma_slices_within(t2, c2, r);
            lemma_tally_some(e, r);
            let i = choose|i: int| 0 <= i < e.len() && (#[trigger] e[i]).cell(r.sheet_idx) == r;
            assert(e[i].solid() && b.before(horizontal, at).holds(e[i]));
        }
    }
    assert forall|r: FreeRect| r.sheet_idx == c2.sheet_idx implies #[trigger] tally(l, r)
        <= slices(t2, c2).count(r) by {
        lemma_tally_sides(ps, horizontal, at, r);
        assert(tally(ps, r) <= slices(t1, c1).count(r) + slices(t2, c2).count(r));
        if slices(t1, c1).count(r) > 0 && tally(l, r) > 0 {
            lemma_slices_within(t1, c1, r);
            lemma_tally_some(l, r);
            let i = choose|i: int| 0 <= i < l.len() && (#[trigger] l[i]).cell(r.sheet_idx) == r;
            assert(l[i].solid() && b.after(horizontal, at).holds(l[i]));
        }
    }
    lemma_sliced_cuttable(t1, c1, e);
    lemma_sliced_cuttable(t2, c2, l);
    lemma_join(b, ps, horizontal, at);
}

proof fn lemma_tally_some(ps: Seq<PlacedPiece>, r: FreeRect)
    requires
        tally(ps, r) > 0,
    ensures
        exists|i: int| 0 <= i < ps.len() && (#[trigger] ps[i]).cell(r.sheet_idx) == r,
    decreases ps.len(),
{
    if ps.last().cell(r.sheet_idx) == r {
        assert(ps[ps.len() - 1].cell(r.sheet_idx) == r);
    } else {
        lemma_tally_some(ps.drop_last(), r);
        let i = choose|i: int|
            0 <= i < ps.drop_last().len() && (#[trigger] ps.drop_last()[i]).cell(r.sheet_idx) == r;
        assert(ps[i] == ps.drop_last()[i]);
    }
}

proof fn lemma_tally_cells(pieces: Seq<Piece>, placements: Seq<Placement>, r: FreeRect)
    ensures
        tally(on_sheet(pieces, placements, r.sheet_idx as int), r) == cells(
            pieces,
            placements,
        ).to_multiset().count(r),
    decreases placements.len(),
{
    let c = cells(pieces, placements);
    c.to_multiset_ensures();
    if placements.len() > 0 {
        let q = placements.drop_last();
        let d = cells(pieces, q);
        lemma_tally_cells(pieces, q, r);
        d.to_multiset_ensures();
        let last = placements.last().cell(pieces);
        assert(c =~= d.push(last));
        let o = on_sheet(pieces, q, r.sheet_idx as int);
        let p = pieces[placements.last().piece_idx as int];
        let pp = PlacedPiece {
            piece_idx: placements.last().piece_idx,
            x: placements.last().x,
            y: placements.last().y,
            pw: p.placed_w(placements.last().rotated),
            ph: p.placed_h(placements.last().rotated),
        };
        assert(o.push(pp).drop_last() =~= o);
        assert(pp.cell(r.sheet_idx) == r && placements.last().sheet_idx == r.sheet_idx
            <==> last == r);
    } else {
        assert(c =~= Seq::empty());
        assert(Seq::<FreeRect>::empty().to_multiset().count(r) == 0);
    }
}

proof fn lemma_on_sheet_solid(pieces: Seq<Piece>, placements: Seq<Placement>, s: int)
    requires
        forall|i: int| 0 <= i < pieces.len() ==> (#[trigger] pieces[i]).solid(),
        forall|i: int|
            0 <= i < placements.len() ==> (#[trigger] placements[i]).piece_idx < pieces.len(),
    ensures
        forall|i: int|
            0 <= i < on_sheet(pieces, placements, s).len() ==> (#[trigger] on_sheet(
                pieces,
                placements,
                s,
            )[i]).solid(),
    decreases placements.len(),
{
    if placements.len() > 0 {
        let q = placements.drop_last();
        assert forall|i: int| 0 <= i < q.len() implies (#[trigger] q[i]).piece_idx
            < pieces.len() by {
            assert(q[i] == placements[i]);
        }
        lemma_on_sheet_solid(pieces, q, s);
        assert(placements[placements.len() - 1] == placements.last());
        assert(pieces[placements.last().piece_idx as int].solid());
        let o = on_sheet(pieces, placements, s);
        let r = on_sheet(pieces, q, s);
        assert forall|i: int| 0 <= i < o.len() implies (#[trigger] o[i]).solid() by {
            if i < r.len() {
                assert(o[i] == r[i]);
            }
        }
    }
}

/// Placed pieces that are slices of the sheets lie in them, share no inner point and can be
/// cut out by edge-to-edge cuts.
pub proof fn lemma_packed_well_placed(
    problem: Problem,
    n: nat,
    used: Multiset<FreeRect>,
    placements: Seq<Placement>,
)
    requires
        packed(problem.sheet, n, used),
        cells(problem.pieces@, placements).to_multiset().subset_of(used),
        forall|i: int|
            0 <= i < placements.len() ==> (#[trigger] placements[i]).piece_idx
                < problem.pieces.len(),
        forall|i: int| 0 <= i < problem.pieces.len() ==> (#[trigger] problem.pieces[i]).solid(),
    ensures
        well_placed(problem, placements),
        sheet_count(placements) <= n,
{
    let pieces = problem.pieces@;
    let sheet = problem.sheet;
    let c = cells(pieces, placements);
    let m = c.to_multiset();
    c.to_multiset_ensures();
    lemma_packed_fewer(sheet, n, used, m);
    assert forall|i: int| 0 <= i < placements.len() implies in_sheet(
        problem,
        #[trigger] placements[i],
    ) && placements[i].sheet_idx < n by {
        assert(c[i] == placements[i].cell(pieces));
        assert(c.contains(c[i]));
        lemma_packed_within(sheet, n, m, c[i]);
    }
    assert forall|i: int, j: int| 0 <= i < j < placements.len() implies apart(
        (#[trigger] placements[i]).cell(pieces),
        (#[trigger] placements[j]).cell(pieces),
    ) by {
        let pair = Multiset::singleton(c[i]).add(Multiset::singleton(c[j]));
        let rest = c.remove(j);
        rest.to_multiset_ensures();
        assert(rest.to_multiset() =~= m.remove(c[j]));
        assert(rest[i] == c[i]);
        assert(rest.contains(c[i]));
        assert(m.remove(c[j]).count(c[i]) > 0);
        assert(c.contains(c[j]));
        assert forall|v: FreeRect| pair.count(v) <= m.count(v) by {}
        lemma_packed_apart(sheet, n, m, c[i], c[j]);
    }
    lemma_sheet_count(placements);
    assert forall|s: int| 0 <= s < sheet_count(placements) implies sheet_cuttable(
        problem,
        placements,
        s,
    ) by {
        let f = choose|f: Seq<Slicing>|
            f.len() == n && #[trigger] forest_ok(f, sheet) && m.subset_of(forest_slices(f, sheet));
        assert(s < n);
        let root = sheet_cell(sheet, s);
        let ps = on_sheet(pieces, placements, s);
        lemma_on_sheet_solid(pieces, placements, s);
        assert(slicing_ok(f[s], root));
        assert forall|r: FreeRect| r.sheet_idx == root.sheet_idx implies #[trigger] tally(ps, r)
            <= slices(f[s], root).count(r) by {
            lemma_tally_cells(pieces, placements, r);
            if m.count(r) > 0 {
                assert(m.count(r) <= forest_slices(f, sheet).count(r));
                lemma_forest_slice(f, sheet, r);
            }
        }
        lemma_sliced_cuttable(f[s], root, ps);
        assert(bounds_of(root) == sheet_bounds(sheet));
    }
}

} // verus!
