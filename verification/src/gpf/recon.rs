//! From a layout function back to a layout.

use vstd::multiset::Multiset;
use vstd::prelude::*;

use super::table::{
    capacity, cut_at, decode_split, digits, fits, full_set, index_of, law_index_then_digits,
    layout_of, lemma_part_index, lemma_part_trans, lemma_reach, lemma_total_minus, minus, nats,
    part_of, proper_part, single_fits, total, via_split, GpfTable, GpfType,
};
use super::table::{
    counts_minus, lemma_capacity_part, lemma_layout_bound, lemma_only_one, lemma_some_one,
    lemma_split_exists, lemma_total_capacity, lemma_total_part, number_of, number_of_splits,
    sum_counts,
};
use super::{
    eval_f, eval_f_inv, height_at, law_step_function_is_canonical, law_width_is_inverse, stepped,
    width_at,
};
use super::groups::list_views;
use crate::expand::{by_spot, sort_by_spot};
use crate::layout::{bottom_part, left_part, right_part, slices, slicing_ok, top_part, Slicing};
use crate::model::{FreeRect, PlacementSpec, SolutionSpec};

verus! {

/// Where a piece of a type goes.
#[derive(Debug, Clone, Copy, PartialEq, Eq, Structural)]
pub struct TypeSpot {
    pub type_idx: usize,
    pub x: u32,
    pub y: u32,
    pub rotated: bool,
}

/// The layout function of a subset; without breakpoints for the empty one.
pub open spec fn layout_fn(types: Seq<GpfType>, c: Seq<nat>) -> Seq<(u32, u32)> {
    if total(c) == 0 {
        Seq::empty()
    } else {
        choose|f: Seq<(u32, u32)>| layout_of(types, c, f)
    }
}

/// Two layout functions of the same pieces are the same.
pub proof fn law_layout_is_unique(
    types: Seq<GpfType>,
    c: Seq<nat>,
    f: Seq<(u32, u32)>,
    g: Seq<(u32, u32)>,
)
    requires
        layout_of(types, c, f),
        layout_of(types, c, g),
    ensures
        f == g,
{
    assert forall|w: int| #[trigger] height_at(f, w) == height_at(g, w) by {
        if height_at(f, w) is Some {
            assert(fits(types, c, w, height_at(f, w)->0));
        }
        if height_at(g, w) is Some {
            assert(fits(types, c, w, height_at(g, w)->0));
        }
    }
    law_step_function_is_canonical(f, g);
}

/// The type of the only piece of a subset.
pub open spec fn only_type(c: Seq<nat>) -> int {
    choose|i: int| 0 <= i < c.len() && c[i] == 1
}

/// Where the only piece of a subset goes: in the corner, rotated where the height is its width.
pub open spec fn single_spot(types: Seq<GpfType>, c: Seq<nat>, x: int, y: int, h: int) -> TypeSpot {
    let t = types[only_type(c)];
    TypeSpot {
        type_idx: only_type(c) as usize,
        x: x as u32,
        y: y as u32,
        rotated: t.can_rotate && t.width != t.height && h == t.width,
    }
}

pub open spec fn both(a: Option<Seq<TypeSpot>>, b: Option<Seq<TypeSpot>>) -> Option<Seq<TypeSpot>> {
    if a is Some && b is Some {
        Some(a->0 + b->0)
    } else {
        None
    }
}

/// The height of a layout of width `w`, where it has one.
pub open spec fn height_or(f: Seq<(u32, u32)>, w: int, h: int) -> int {
    match height_at(f, w) {
        Some(v) => v,
        None => h,
    }
}

/// A layout of the pieces that `c` counts in the region at `(x, y)` of `w` x `h`: the splits
/// from number `k` on are tried in order, one part on top of the other before side by side, and
/// the first that works is taken.
pub open spec fn recon(
    types: Seq<GpfType>,
    c: Seq<nat>,
    x: int,
    y: int,
    w: int,
    h: int,
    k: nat,
) -> Option<Seq<TypeSpot>>
    decreases total(c), capacity(c) - k,
{
    if total(c) == 0 {
        Some(Seq::empty())
    } else if total(c) == 1 {
        Some(seq![single_spot(types, c, x, y, h)])
    } else if k >= capacity(c) {
        None
    } else {
        let d = digits(k, c);
        let e = minus(c, d);
        if !proper_part(d, c) {
            recon(types, c, x, y, w, h, k + 1)
        } else {
            let f = layout_fn(types, d);
            let g = layout_fn(types, e);
            let (p, q) = (height_at(f, w), height_at(g, w));
            let stacked = if p is Some && q is Some && p->0 + q->0 == h {
                both(
                    recon(types, d, x, y, w, p->0, 0),
                    recon(types, e, x, y + p->0, w, q->0, 0),
                )
            } else {
                None
            };
            let (u, v) = (width_at(f, h), width_at(g, h));
            let beside = if u is Some && v is Some && u->0 + v->0 <= w {
                both(
                    recon(types, d, x, y, u->0, height_or(f, u->0, h), 0),
                    recon(types, e, x + u->0, y, v->0, height_or(g, v->0, h), 0),
                )
            } else {
                None
            };
            if stacked is Some {
                stacked
            } else if beside is Some {
                beside
            } else {
                recon(types, c, x, y, w, h, k + 1)
            }
        }
    }
}

/// The rectangle that a piece covers.
pub open spec fn spot_cell(types: Seq<GpfType>, s: TypeSpot) -> FreeRect {
    let t = types[s.type_idx as int];
    FreeRect {
        sheet_idx: 0,
        x: s.x,
        y: s.y,
        w: if s.rotated {
            t.height
        } else {
            t.width
        },
        h: if s.rotated {
            t.width
        } else {
            t.height
        },
    }
}

pub open spec fn spot_cells(types: Seq<GpfType>, s: Seq<TypeSpot>) -> Seq<FreeRect> {
    Seq::new(s.len(), |i: int| spot_cell(types, s[i]))
}

/// How many of the spots are of type `t`.
pub open spec fn spots_of_type(s: Seq<TypeSpot>, t: int) -> nat
    decreases s.len(),
{
    if s.len() == 0 {
        0
    } else {
        spots_of_type(s.drop_last(), t) + if s.last().type_idx == t {
            1nat
        } else {
            0nat
        }
    }
}

pub open spec fn region(x: int, y: int, w: int, h: int) -> FreeRect {
    FreeRect { sheet_idx: 0, x: x as u32, y: y as u32, w: w as u32, h: h as u32 }
}

/// The pieces are cut from the rectangle by edge-to-edge cuts.
pub open spec fn cut_from(types: Seq<GpfType>, s: Seq<TypeSpot>, r: FreeRect) -> bool {
    exists|u: Slicing| #[trigger]
        slicing_ok(u, r) && spot_cells(types, s).to_multiset().subset_of(slices(u, r))
}

/// The spots hold exactly the pieces that `c` counts, each in an orientation that it may have,
/// and are cut from the rectangle.
pub open spec fn lays_out(types: Seq<GpfType>, c: Seq<nat>, s: Seq<TypeSpot>, r: FreeRect) -> bool {
    &&& forall|t: int| 0 <= t < c.len() ==> #[trigger] spots_of_type(s, t) == c[t]
    &&& forall|i: int|
        0 <= i < s.len() ==> {
            &&& (#[trigger] s[i]).type_idx < types.len()
            &&& s[i].rotated ==> types[s[i].type_idx as int].can_rotate
        }
    &&& cut_from(types, s, r)
}

pub proof fn lemma_spots_concat(a: Seq<TypeSpot>, b: Seq<TypeSpot>, t: int)
    ensures
        spots_of_type(a + b, t) == spots_of_type(a, t) + spots_of_type(b, t),
    decreases b.len(),
{
    if b.len() == 0 {
        assert(a + b =~= a);
    } else {
        lemma_spots_concat(a, b.drop_last(), t);
        assert((a + b).drop_last() =~= a + b.drop_last());
    }
}

/// Two layouts, one in each part of a cut.
proof fn lemma_two_parts(
    types: Seq<GpfType>,
    c: Seq<nat>,
    d: Seq<nat>,
    a: Seq<TypeSpot>,
    b: Seq<TypeSpot>,
    ra: FreeRect,
    rb: FreeRect,
    r: FreeRect,
    u: Slicing,
)
    requires
        part_of(d, c),
        lays_out(types, d, a, ra),
        lays_out(types, minus(c, d), b, rb),
        slicing_ok(u, r),
        Multiset::singleton(ra).add(Multiset::singleton(rb)).subset_of(slices(u, r)),
    ensures
        lays_out(types, c, a + b, r),
{
    let e = minus(c, d);
    let s = a + b;
    assert forall|t: int| 0 <= t < c.len() implies #[trigger] spots_of_type(s, t) == c[t] by {
        lemma_spots_concat(a, b, t);
        assert(spots_of_type(a, t) == d[t]);
        assert(spots_of_type(b, t) == e[t]);
        assert(d[t] <= c[t]);
    }
    let ua = choose|ua: Slicing| #[trigger]
        slicing_ok(ua, ra) && spot_cells(types, a).to_multiset().subset_of(slices(ua, ra));
    let ub = choose|ub: Slicing| #[trigger]
        slicing_ok(ub, rb) && spot_cells(types, b).to_multiset().subset_of(slices(ub, rb));
    let pair = Multiset::singleton(ra).add(Multiset::singleton(rb));
    assert(slices(u, r).count(ra) >= pair.count(ra));
    assert(slices(u, r).count(rb) >= pair.count(rb));
    let u1 = crate::layout::lemma_refine(u, r, ra, ua);
    assert(slices(u, r).remove(ra).count(rb) >= 1);
    assert(slices(u1, r).count(rb) >= 1);
    let u2 = crate::layout::lemma_refine(u1, r, rb, ub);
    let (sa, sb) = (spot_cells(types, a), spot_cells(types, b));
    assert(spot_cells(types, s) =~= sa + sb);
    vstd::seq_lib::lemma_multiset_commutative(sa, sb);
    assert forall|v: FreeRect| spot_cells(types, s).to_multiset().count(v) <= slices(u2, r).count(
        v,
    ) by {
        assert(sa.to_multiset().count(v) <= slices(ua, ra).count(v));
        assert(sb.to_multiset().count(v) <= slices(ub, rb).count(v));
        assert(slices(u2, r).count(v) == slices(u1, r).remove(rb).count(v) + slices(ub, rb).count(
            v,
        ));
        assert(slices(u1, r).count(v) == slices(u, r).remove(ra).count(v) + slices(ua, ra).count(
            v,
        ));
    }
    assert(slicing_ok(u2, r) && spot_cells(types, s).to_multiset().subset_of(slices(u2, r)));
}

proof fn lemma_single(
    table: GpfTable,
    c: Seq<nat>,
    x: int,
    y: int,
    w: int,
    h: int,
)
    requires
        table.wf(),
        part_of(c, full_set(table.types@)),
        total(c) == 1,
        table.types@.len() <= usize::MAX,
        height_at(layout_fn(table.types@, c), w) == Some(h),
        0 <= x,
        0 <= y,
        0 <= w,
        0 <= h,
        x + w <= u32::MAX,
        y + h <= u32::MAX,
    ensures
        lays_out(
            table.types@,
            c,
            seq![single_spot(table.types@, c, x, y, h)],
            region(x, y, w, h),
        ),
{
    let types = table.types@;
    let full = full_set(types);
    lemma_cell(table, c);
    lemma_some_one(c);
    let i = only_type(c);
    let t = types[i];
    let f = layout_fn(table.types@, c);
    assert(fits(types, c, w, h));
    let j = choose|j: int| 0 <= j < c.len() && #[trigger] c[j] == 1 && single_fits(types[j], w, h);
    lemma_only_one(c, i, j);
    assert(!single_fits(t, w, h - 1)) by {
        if single_fits(t, w, h - 1) {
            assert(c[i] == 1 && single_fits(types[i], w, h - 1));
            assert(fits(types, c, w, h - 1));
        }
    }
    lemma_lone(types, c, i, single_spot(table.types@, c, x, y, h), x, y, w, h);
}

/// One piece in the corner of a rectangle that is large enough.
pub proof fn lemma_lone(
    types: Seq<GpfType>,
    c: Seq<nat>,
    i: int,
    s: TypeSpot,
    x: int,
    y: int,
    w: int,
    h: int,
)
    requires
        types.len() == c.len(),
        total(c) == 1,
        0 <= i < c.len(),
        c[i] == 1,
        s.type_idx == i,
        s.x == x,
        s.y == y,
        s.rotated ==> types[i].can_rotate,
        spot_cell(types, s).w <= w,
        spot_cell(types, s).h <= h,
        x + w <= u32::MAX,
        y + h <= u32::MAX,
    ensures
        lays_out(types, c, seq![s], region(x, y, w, h)),
{
    let r = region(x, y, w, h);
    let cell = spot_cell(types, s);
    let list = seq![s];
    assert forall|k: int| 0 <= k < c.len() implies #[trigger] spots_of_type(list, k) == c[k] by {
        reveal_with_fuel(spots_of_type, 2);
        if k != i {
            lemma_others_zero(c, i, k);
        }
    }
    let u = crate::packing::corner_slicing(cell.w, cell.h, true);
    crate::packing::lemma_corner_slicing(r, cell.w, cell.h, true);
    let e = Seq::<FreeRect>::empty();
    e.to_multiset_ensures();
    assert(spot_cells(types, list) =~= e.push(cell));
    assert(crate::packing::corner(r, cell.w, cell.h) == cell);
    assert forall|v: FreeRect| spot_cells(types, list).to_multiset().count(v) <= slices(
        u,
        r,
    ).count(v) by {
        let parts = crate::packing::split_parts(r, cell.w, cell.h, true);
        assert(parts.to_multiset().insert(cell).count(v) <= slices(u, r).count(v));
    }
    assert(slicing_ok(u, r) && spot_cells(types, list).to_multiset().subset_of(slices(u, r)));
}

proof fn lemma_others_zero(c: Seq<nat>, i: int, k: int)
    requires
        total(c) == 1,
        0 <= i < c.len(),
        0 <= k < c.len(),
        c[i] == 1,
        i != k,
    ensures
        c[k] == 0,
{
    crate::gpf::table::lemma_total_at(c, i);
    crate::gpf::table::lemma_total_at(c.update(i, 0), k);
}

/// What the table has of a subset is its layout function.
pub proof fn lemma_cell(table: GpfTable, c: Seq<nat>)
    requires
        table.wf(),
        part_of(c, full_set(table.types@)),
        total(c) > 0,
    ensures
        layout_of(table.types@, c, layout_fn(table.types@, c)),
        0 < index_of(c, full_set(table.types@)) < table.cells@.len(),
        table.cells@[index_of(c, full_set(table.types@)) as int]@ == layout_fn(table.types@, c),
{
    let full = full_set(table.types@);
    law_index_then_digits(c, full);
    lemma_part_index(c, c, full);
    let k = index_of(c, full) as int;
    assert(layout_of(table.types@, digits(k as nat, full), table.cells@[k]@));
    law_layout_is_unique(table.types@, c, table.cells@[k]@, layout_fn(table.types@, c));
}

/// Two layouts of the same width, one on top of the other.
pub proof fn lemma_stacked(
    types: Seq<GpfType>,
    c: Seq<nat>,
    d: Seq<nat>,
    a: Seq<TypeSpot>,
    b: Seq<TypeSpot>,
    x: int,
    y: int,
    w: int,
    h1: int,
    h2: int,
)
    requires
        part_of(d, c),
        0 <= x,
        0 <= y,
        0 <= w,
        0 <= h1,
        0 <= h2,
        x + w <= u32::MAX,
        y + h1 + h2 <= u32::MAX,
        lays_out(types, d, a, region(x, y, w, h1)),
        lays_out(types, minus(c, d), b, region(x, y + h1, w, h2)),
    ensures
        lays_out(types, c, a + b, region(x, y, w, h1 + h2)),
{
    let r = region(x, y, w, h1 + h2);
    let (ra, rb) = (region(x, y, w, h1), region(x, y + h1, w, h2));
    let cut = Slicing::Stacked {
        at: h1 as u32,
        top: Box::new(Slicing::Whole),
        bottom: Box::new(Slicing::Whole),
    };
    reveal_with_fuel(slicing_ok, 3);
    reveal_with_fuel(slices, 3);
    assert(top_part(r, h1 as u32) == ra);
    assert(bottom_part(r, h1 as u32) == rb);
    lemma_two_parts(types, c, d, a, b, ra, rb, r, cut);
}

/// Two layouts side by side in a rectangle that is large enough.
pub proof fn lemma_beside(
    types: Seq<GpfType>,
    c: Seq<nat>,
    d: Seq<nat>,
    a: Seq<TypeSpot>,
    b: Seq<TypeSpot>,
    x: int,
    y: int,
    w: int,
    h: int,
    w1: int,
    h1: int,
    w2: int,
    h2: int,
)
    requires
        part_of(d, c),
        0 <= x,
        0 <= y,
        0 <= w1,
        0 <= w2,
        0 <= h1 <= h,
        0 <= h2 <= h,
        w1 + w2 <= w,
        x + w <= u32::MAX,
        y + h <= u32::MAX,
        lays_out(types, d, a, region(x, y, w1, h1)),
        lays_out(types, minus(c, d), b, region(x + w1, y, w2, h2)),
    ensures
        lays_out(types, c, a + b, region(x, y, w, h)),
{
    let r = region(x, y, w, h);
    let (ra, rb) = (region(x, y, w1, h1), region(x + w1, y, w2, h2));
    let cut = Slicing::Beside {
        at: w1 as u32,
        left: Box::new(
            Slicing::Stacked {
                at: h1 as u32,
                top: Box::new(Slicing::Whole),
                bottom: Box::new(Slicing::Whole),
            },
        ),
        right: Box::new(
            Slicing::Beside {
                at: w2 as u32,
                left: Box::new(
                    Slicing::Stacked {
                        at: h2 as u32,
                        top: Box::new(Slicing::Whole),
                        bottom: Box::new(Slicing::Whole),
                    },
                ),
                right: Box::new(Slicing::Whole),
            },
        ),
    };
    reveal_with_fuel(slicing_ok, 5);
    reveal_with_fuel(slices, 5);
    let left = left_part(r, w1 as u32);
    let right = right_part(r, w1 as u32);
    assert(top_part(left, h1 as u32) == ra);
    assert(top_part(left_part(right, w2 as u32), h2 as u32) == rb);
    assert(slicing_ok(cut, r));
    lemma_two_parts(types, c, d, a, b, ra, rb, r, cut);
}

/// What is found is a layout.
proof fn lemma_recon_sound(
    table: GpfTable,
    c: Seq<nat>,
    x: int,
    y: int,
    w: int,
    h: int,
    k: nat,
)
    requires
        table.wf(),
        part_of(c, full_set(table.types@)),
        total(c) > 0,
        table.types@.len() <= usize::MAX,
        height_at(layout_fn(table.types@, c), w) == Some(h),
        0 <= x,
        0 <= y,
        0 <= w,
        x + w <= u32::MAX,
        y + h <= u32::MAX,
        recon(table.types@, c, x, y, w, h, k) is Some,
    ensures
        lays_out(
            table.types@,
            c,
            recon(table.types@, c, x, y, w, h, k)->0,
            region(x, y, w, h),
        ),
    decreases total(c), capacity(c) - k,
{
    let types = table.types@;
    let full = full_set(types);
    lemma_cell(table, c);
    crate::gpf::lemma_height_at(layout_fn(table.types@, c), w);
    assert(h >= 0);
    if total(c) == 1 {
        lemma_single(table, c, x, y, w, h);
    } else {
        let d = digits(k, c);
        let e = minus(c, d);
        if !proper_part(d, c) {
            lemma_recon_sound(table, c, x, y, w, h, k + 1);
        } else {
            lemma_total_minus(c, d);
            lemma_part_trans(d, c, full);
            lemma_part_trans(e, c, full);
            lemma_cell(table, d);
            lemma_cell(table, e);
            let f = layout_fn(table.types@, d);
            let g = layout_fn(table.types@, e);
            let (p, q) = (height_at(f, w), height_at(g, w));
            crate::gpf::lemma_height_at(f, w);
            crate::gpf::lemma_height_at(g, w);
            let stacked = if p is Some && q is Some && p->0 + q->0 == h {
                both(
                    recon(table.types@, d, x, y, w, p->0, 0),
                    recon(table.types@, e, x, y + p->0, w, q->0, 0),
                )
            } else {
                None
            };
            let (u, v) = (width_at(f, h), width_at(g, h));
            let beside = if u is Some && v is Some && u->0 + v->0 <= w {
                both(
                    recon(table.types@, d, x, y, u->0, height_or(f, u->0, h), 0),
                    recon(table.types@, e, x + u->0, y, v->0, height_or(g, v->0, h), 0),
                )
            } else {
                None
            };
            let r = region(x, y, w, h);
            if stacked is Some {
                let (h1, h2) = (p->0, q->0);
                lemma_recon_sound(table, d, x, y, w, h1, 0);
                lemma_recon_sound(table, e, x, y + h1, w, h2, 0);
                lemma_stacked(
                    types,
                    c,
                    d,
                    recon(table.types@, d, x, y, w, h1, 0)->0,
                    recon(table.types@, e, x, y + h1, w, h2, 0)->0,
                    x,
                    y,
                    w,
                    h1,
                    h2,
                );
            } else if beside is Some {
                let (w1, w2) = (u->0, v->0);
                lemma_width_value(f, h);
                lemma_width_value(g, h);
                let (h1, h2) = (height_at(f, w1)->0, height_at(g, w2)->0);
                crate::gpf::lemma_height_at(f, w1);
                crate::gpf::lemma_height_at(g, w2);
                lemma_recon_sound(table, d, x, y, w1, h1, 0);
                lemma_recon_sound(table, e, x + w1, y, w2, h2, 0);
                lemma_beside(
                    types,
                    c,
                    d,
                    recon(table.types@, d, x, y, w1, h1, 0)->0,
                    recon(table.types@, e, x + w1, y, w2, h2, 0)->0,
                    x,
                    y,
                    w,
                    h,
                    w1,
                    h1,
                    w2,
                    h2,
                );
            } else {
                lemma_recon_sound(table, c, x, y, w, h, k + 1);
            }
        }
    }
}

/// At the least width for a height the value is there and no more than that height.
pub proof fn lemma_width_value(f: Seq<(u32, u32)>, h: int)
    requires
        stepped(f),
        width_at(f, h) is Some,
    ensures
        height_at(f, width_at(f, h)->0) is Some,
        height_at(f, width_at(f, h)->0)->0 <= h,
        width_at(f, h)->0 >= 0,
{
    law_width_is_inverse(f, width_at(f, h)->0, h);
    crate::gpf::lemma_transposed(f, h);
    crate::gpf::lemma_height_at(crate::gpf::transposed(f), h);
}

/// Where the layout function has a value, a layout is found.
proof fn lemma_recon_complete(
    table: GpfTable,
    c: Seq<nat>,
    x: int,
    y: int,
    w: int,
    h: int,
)
    requires
        table.wf(),
        part_of(c, full_set(table.types@)),
        total(c) > 0,
        height_at(layout_fn(table.types@, c), w) == Some(h),
    ensures
        recon(table.types@, c, x, y, w, h, 0) is Some,
    decreases total(c),
{
    let types = table.types@;
    let full = full_set(types);
    if total(c) > 1 {
        lemma_cell(table, c);
        assert(fits(types, c, w, h));
        assert(!fits(types, c, w, h - 1));
        let d = lemma_split_exists(types, c, w, h);
        let e = minus(c, d);
        lemma_total_minus(c, d);
        lemma_part_trans(d, c, full);
        lemma_part_trans(e, c, full);
        lemma_cell(table, d);
        lemma_cell(table, e);
        let f = layout_fn(table.types@, d);
        let g = layout_fn(table.types@, e);
        let (p, q) = (height_at(f, w), height_at(g, w));
        let (u, v) = (width_at(f, h), width_at(g, h));
        if exists|h1: int| #[trigger]
            cut_at(h1) && fits(types, d, w, h1) && fits(types, e, w, h - h1) {
            let h1 = choose|h1: int| #[trigger]
                cut_at(h1) && fits(types, d, w, h1) && fits(types, e, w, h - h1);
            if p->0 + q->0 < h {
                assert(fits(types, d, w, p->0));
                assert(fits(types, e, w, h - 1 - p->0));
                assert(cut_at(p->0));
                assert(via_split(types, d, e, w, h - 1));
                crate::gpf::table::lemma_split_gives(types, c, d, w, h - 1);
            }
            lemma_recon_complete(table, d, x, y, w, p->0);
            lemma_recon_complete(table, e, x, y + p->0, w, q->0);
        } else {
            let w1 = choose|w1: int| #[trigger]
                cut_at(w1) && fits(types, d, w1, h) && fits(types, e, w - w1, h);
            law_width_is_inverse(f, w1, h);
            law_width_is_inverse(g, w - w1, h);
            lemma_width_value(f, h);
            lemma_width_value(g, h);
            lemma_recon_complete(table, d, x, y, u->0, height_at(f, u->0)->0);
            lemma_recon_complete(table, e, x + u->0, y, v->0, height_at(g, v->0)->0);
        }
        law_index_then_digits(d, c);
        let k = index_of(d, c);
        assert(digits(k, c) == d);
        assert(recon(table.types@, c, x, y, w, h, k) is Some);
        lemma_recon_earlier(table, c, x, y, w, h, 0, k);
    }
}

proof fn lemma_recon_earlier(
    table: GpfTable,
    c: Seq<nat>,
    x: int,
    y: int,
    w: int,
    h: int,
    j: nat,
    k: nat,
)
    requires
        total(c) > 1,
        j <= k < capacity(c),
        recon(table.types@, c, x, y, w, h, k) is Some,
    ensures
        recon(table.types@, c, x, y, w, h, j) is Some,
    decreases k - j,
{
    if j < k {
        lemma_recon_earlier(table, c, x, y, w, h, j + 1, k);
    }
}

/// A layout is found exactly where the layout function has a value, and it holds the pieces.
pub proof fn law_reconstruction(table: GpfTable, w: int, h: int)
    requires
        table.wf(),
        table.types@.len() <= usize::MAX,
        total(full_set(table.types@)) > 0,
        0 <= w <= u32::MAX,
        height_at(layout_fn(table.types@, full_set(table.types@)), w) == Some(h),
    ensures
        recon(table.types@, full_set(table.types@), 0, 0, w, h, 0) is Some,
        lays_out(
            table.types@,
            full_set(table.types@),
            recon(table.types@, full_set(table.types@), 0, 0, w, h, 0)->0,
            region(0, 0, w, h),
        ),
{
    let full = full_set(table.types@);
    assert(part_of(full, full));
    lemma_cell(table, full);
    lemma_layout_bound(table.types@, full, layout_fn(table.types@, full), w);
    lemma_recon_complete(table, full, 0, 0, w, h);
    lemma_recon_sound(table, full, 0, 0, w, h, 0);
}

/// Number of spots of the type of spot `i` in front of it.
pub open spec fn spot_rank(s: Seq<TypeSpot>, i: int) -> nat {
    spots_of_type(s.take(i), s[i].type_idx as int)
}

/// The copy that spot `i` holds: copies of a type are used in order.
pub open spec fn spot_copy(lists: Seq<Seq<usize>>, s: Seq<TypeSpot>, i: int) -> usize {
    lists[s[i].type_idx as int][spot_rank(s, i) as int]
}

/// The spots with the copies that they hold.
pub open spec fn assigned(lists: Seq<Seq<usize>>, s: Seq<TypeSpot>) -> Seq<PlacementSpec> {
    Seq::new(
        s.len(),
        |i: int|
            PlacementSpec {
                sheet_idx: 0,
                ptype_idx: spot_copy(lists, s, i),
                x: s[i].x,
                y: s[i].y,
                rotated: s[i].rotated,
            },
    )
}

pub proof fn lemma_rank_bound(s: Seq<TypeSpot>, i: int, t: int)
    requires
        0 <= i <= s.len(),
    ensures
        spots_of_type(s.take(i), t) <= spots_of_type(s, t),
        i < s.len() && s[i].type_idx == t ==> spots_of_type(s.take(i), t) < spots_of_type(s, t),
    decreases s.len(),
{
    if i < s.len() {
        let d = s.drop_last();
        if i == d.len() {
            assert(s.take(i) =~= d);
        } else {
            lemma_rank_bound(d, i, t);
            assert(d.take(i) =~= s.take(i));
            assert(d[i] == s[i]);
        }
    } else {
        assert(s.take(i) =~= s);
    }
}

impl GpfTable {
    fn full_counts(&self) -> (r: Vec<u32>)
        ensures
            nats(r@) == full_set(self.types@),
    {
        let mut out: Vec<u32> = Vec::new();
        let mut t: usize = 0;
        while t < self.types.len()
            invariant
                t <= self.types@.len(),
                out@.len() == t,
                forall|i: int| 0 <= i < t ==> #[trigger] out@[i] == self.types@[i].count,
            decreases self.types@.len() - t,
        {
            out.push(self.types[t].count);
            t += 1;
        }
        assert(nats(out@) =~= full_set(self.types@));
        out
    }

    /// The number of subsets, the empty one and the full set included.
    pub fn total_subsets(&self) -> (r: usize)
        requires
            self.wf(),
        ensures
            r == capacity(full_set(self.types@)),
    {
        self.cells.len()
    }

    /// The number of a subset.
    pub fn flat_index(&self, counts: &Vec<u32>) -> (r: usize)
        requires
            self.wf(),
            part_of(nats(counts@), full_set(self.types@)),
        ensures
            r == index_of(nats(counts@), full_set(self.types@)),
            r < self.cells@.len(),
    {
        let full = self.full_counts();
        assert(self.cells@.len() == self.cells.len());
        number_of(counts, &full)
    }

    /// The subset with a number.
    pub fn decode_index(&self, idx: usize) -> (r: Vec<u32>)
        requires
            self.wf(),
            idx < self.cells@.len(),
        ensures
            nats(r@) == digits(idx as nat, full_set(self.types@)),
            part_of(nats(r@), full_set(self.types@)),
    {
        let full = self.full_counts();
        assert(self.cells@.len() == self.cells.len());
        decode_split(&full, idx)
    }

    /// The least height of a strip of the given width from which all pieces can be cut, none
    /// where there is no piece or the strip is too narrow.
    pub fn eval_full_set(&self, width: u32) -> (r: Option<u32>)
        requires
            self.wf(),
        ensures
            total(full_set(self.types@)) == 0 ==> r is None,
            total(full_set(self.types@)) > 0 ==> forall|h: int|
                #[trigger] fits(self.types@, full_set(self.types@), width as int, h) <==> (
                r matches Some(v) && v <= h),
            match height_at(layout_fn(self.types@, full_set(self.types@)), width as int) {
                Some(v) => r is Some && r->0 == v,
                None => r is None,
            },
    {
        let full = self.full_counts();
        proof {
            lemma_full_part(self.types@);
        }
        self.eval_subset(&full, width)
    }

    /// The least height of a strip of the given width from which the pieces of a subset can be
    /// cut, none where there is no piece or the strip is too narrow.
    pub fn eval_subset(&self, counts: &Vec<u32>, width: u32) -> (r: Option<u32>)
        requires
            self.wf(),
            part_of(nats(counts@), full_set(self.types@)),
        ensures
            total(nats(counts@)) == 0 ==> r is None,
            total(nats(counts@)) > 0 ==> forall|h: int|
                #[trigger] fits(self.types@, nats(counts@), width as int, h) <==> (
                r matches Some(v) && v <= h),
            match height_at(layout_fn(self.types@, nats(counts@)), width as int) {
                Some(v) => r is Some && r->0 == v,
                None => r is None,
            },
    {
        let idx: usize = self.flat_index(counts);
        let r = eval_f(&self.cells[idx], width);
        proof {
            if total(nats(counts@)) > 0 {
                lemma_cell(*self, nats(counts@));
            } else {
                crate::gpf::table::lemma_index_zero(nats(counts@), full_set(self.types@));
            }
        }
        r
    }

    /// A layout of a subset in a region whose height is the value at its width.
    fn recon_subset(&self, counts: &Vec<u32>, x: u32, y: u32, width: u32, height: u32) -> (r:
        Option<Vec<TypeSpot>>)
        requires
            self.wf(),
            self.types@.len() <= usize::MAX,
            part_of(nats(counts@), full_set(self.types@)),
            total(nats(counts@)) > 0,
            height_at(layout_fn(self.types@, nats(counts@)), width as int) == Some(height as int),
            x + width <= u32::MAX,
            y + height <= u32::MAX,
        ensures
            match recon(
                    self.types@,
                nats(counts@),
                x as int,
                y as int,
                width as int,
                height as int,
                0,
            ) {
                Some(s) => r is Some && r->0@ == s,
                None => r is None,
            },
        decreases total(nats(counts@)),
    {
        let ghost c = nats(counts@);
        let ghost full = full_set(self.types@);
        proof {
            assert(self.cells@.len() == self.cells.len());
            lemma_total_part(c, full);
            lemma_total_capacity(full);
            lemma_capacity_part(c, full);
        }
        let pieces: usize = sum_counts(counts);
        if pieces == 1 {
            let mut i: usize = 0;
            proof {
                lemma_some_one(c);
            }
            while i < counts.len()
                invariant
                    i <= counts@.len(),
                    c == nats(counts@),
                    c.len() == self.types@.len(),
                    total(c) == 1,
                    pieces == 1,
                    exists|j: int| 0 <= j < c.len() && c[j] == 1,
                    forall|j: int| 0 <= j < i ==> #[trigger] counts@[j] != 1,
                decreases counts@.len() - i,
            {
                if counts[i] == 1 {
                    proof {
                        assert(c[i as int] == 1);
                        lemma_only_one(c, i as int, only_type(c));
                    }
                    let t = &self.types[i];
                    let rotated = t.can_rotate && t.width != t.height && height == t.width;
                    let mut out: Vec<TypeSpot> = Vec::new();
                    out.push(TypeSpot { type_idx: i, x, y, rotated });
                    assert(out@ =~= seq![single_spot(self.types@, c, x as int, y as int, height as int)]);
                    return Some(out);
                }
                i += 1;
            }
            proof {
                let j = choose|j: int| 0 <= j < c.len() && c[j] == 1;
                assert(counts@[j] == 1);
            }
            return None;
        }
        let n: usize = number_of_splits(counts);
        let mut k: usize = 0;
        while k < n
            invariant
                k <= n,
                n == capacity(c),
                c == nats(counts@),
                full == full_set(self.types@),
                self.wf(),
                self.types@.len() <= usize::MAX,
                self.cells@.len() <= usize::MAX,
                part_of(c, full),
                capacity(c) <= capacity(full),
                total(c) <= total(full),
                total(full) < capacity(full),
                pieces == total(c),
                pieces > 1,
                height_at(layout_fn(self.types@, c), width as int) == Some(height as int),
                x + width <= u32::MAX,
                y + height <= u32::MAX,
                recon(
                    self.types@,
                    c,
                    x as int,
                    y as int,
                    width as int,
                    height as int,
                    0,
                ) == recon(
                    self.types@,
                    c,
                    x as int,
                    y as int,
                    width as int,
                    height as int,
                    k as nat,
                ),
            decreases n - k,
        {
            let d1 = decode_split(counts, k);
            let ghost d = nats(d1@);
            let ghost e = minus(c, d);
            proof {
                lemma_total_part(d, c);
                lemma_total_minus(c, d);
            }
            let t1: usize = sum_counts(&d1);
            if t1 != 0 && t1 != pieces {
                let d2 = counts_minus(counts, &d1);
                proof {
                    assert(proper_part(d, c));
                    lemma_part_trans(d, c, full);
                    lemma_part_trans(e, c, full);
                    lemma_cell(*self, d);
                    lemma_cell(*self, e);
                    lemma_reach(self.types@, c, d);
                    lemma_reach(self.types@, full, c);
                    lemma_layout_bound(self.types@, d, layout_fn(self.types@, d), width as int);
                    lemma_layout_bound(self.types@, e, layout_fn(self.types@, e), width as int);
                    lemma_layout_bound(self.types@, d, layout_fn(self.types@, d), height as int);
                    lemma_layout_bound(self.types@, e, layout_fn(self.types@, e), height as int);
                }
                let f1 = &self.cells[self.flat_index(&d1)];
                let f2 = &self.cells[self.flat_index(&d2)];
                if let (Some(h1), Some(h2)) = (eval_f(f1, width), eval_f(f2, width)) {
                    if h1 + h2 == height {
                        let a = self.recon_subset(&d1, x, y, width, h1);
                        let b = self.recon_subset(&d2, x, y + h1, width, h2);
                        if let (Some(sa), Some(sb)) = (a, b) {
                            return Some(join_spots(sa, &sb));
                        }
                    }
                }
                if let (Some(w1), Some(w2)) = (eval_f_inv(f1, height), eval_f_inv(f2, height)) {
                    if w1 + w2 <= width {
                        proof {
                            lemma_width_value(f1@, height as int);
                            lemma_width_value(f2@, height as int);
                        }
                        if let (Some(h1), Some(h2)) = (eval_f(f1, w1), eval_f(f2, w2)) {
                            let a = self.recon_subset(&d1, x, y, w1, h1);
                            let b = self.recon_subset(&d2, x + w1, y, w2, h2);
                            if let (Some(sa), Some(sb)) = (a, b) {
                                return Some(join_spots(sa, &sb));
                            }
                        }
                    }
                }
            }
            k += 1;
        }
        None
    }

    /// A layout of all pieces in a strip of the given width and of the least height, none where
    /// they cannot be cut from such a strip. The spots are in the order in which they are found.
    pub fn reconstruct_spots(&self, width: u32) -> (r: Option<Vec<TypeSpot>>)
        requires
            self.wf(),
        ensures
            match height_at(layout_fn(self.types@, full_set(self.types@)), width as int) {
                None => r is None,
                Some(h) => total(full_set(self.types@)) > 0 && r is Some && Some(r->0@) == recon(
                    self.types@,
                    full_set(self.types@),
                    0,
                    0,
                    width as int,
                    h,
                    0,
                ) && lays_out(
                    self.types@,
                    full_set(self.types@),
                    r->0@,
                    region(0, 0, width as int, h),
                ),
            },
    {
        let full = self.full_counts();
        proof {
            lemma_full_part(self.types@);
            assert(self.types@.len() == self.types.len());
        }
        match self.eval_full_set(width) {
            None => None,
            Some(height) => {
                proof {
                    law_reconstruction(*self, width as int, height as int);
                }
                self.recon_subset(&full, 0, 0, width, height)
            },
        }
    }

    /// The copies that the spots hold.
    pub fn assign_copies(&self, spots: &Vec<TypeSpot>) -> (r: Vec<PlacementSpec>)
        requires
            self.wf(),
            forall|i: int|
                0 <= i < spots@.len() ==> (#[trigger] spots@[i]).type_idx < self.types@.len(),
            forall|t: int|
                0 <= t < self.types@.len() ==> #[trigger] spots_of_type(spots@, t)
                    == self.types@[t].count,
        ensures
            r@ == assigned(list_views(self.type_to_spec@), spots@),
    {
        let n: usize = self.types.len();
        let mut used: Vec<usize> = vec![0; n];
        let mut out: Vec<PlacementSpec> = Vec::new();
        let mut k: usize = 0;
        assert(spots@.take(0) =~= Seq::empty());
        while k < spots.len()
            invariant
                k <= spots@.len(),
                n == self.types@.len(),
                self.wf(),
                forall|i: int|
                    0 <= i < spots@.len() ==> (#[trigger] spots@[i]).type_idx < n,
                forall|t: int|
                    0 <= t < n ==> #[trigger] spots_of_type(spots@, t) == self.types@[t].count,
                used@.len() == n,
                forall|t: int|
                    0 <= t < n ==> #[trigger] used@[t] == spots_of_type(spots@.take(k as int), t),
                out@.len() == k,
                forall|i: int| 0 <= i < k ==> out@[i] == assigned(list_views(self.type_to_spec@), spots@)[i],
            decreases spots@.len() - k,
        {
            let s = spots[k];
            proof {
                lemma_rank_bound(spots@, k as int, s.type_idx as int);
                assert(spots_of_type(spots@, s.type_idx as int)
                    == self.types@[s.type_idx as int].count);
                assert(self.type_to_spec@[s.type_idx as int]@.len()
                    == self.types@[s.type_idx as int].count);
                assert(spots@.take(k + 1).drop_last() =~= spots@.take(k as int));
            }
            let u: usize = used[s.type_idx];
            out.push(
                PlacementSpec {
                    sheet_idx: 0,
                    ptype_idx: self.type_to_spec[s.type_idx][u],
                    x: s.x,
                    y: s.y,
                    rotated: s.rotated,
                },
            );
            used.set(s.type_idx, u + 1);
            k += 1;
        }
        assert(out@ =~= assigned(list_views(self.type_to_spec@), spots@));
        out
    }

    /// Reconstructs a layout of all pieces on one sheet of the given width, none where they
    /// cannot be cut from a strip of that width. Placements are ordered from left to right and
    /// from top to bottom; copies of a type are used in order.
    pub fn reconstruct(&self, width: u32) -> (r: Option<SolutionSpec>)
        requires
            self.wf(),
        ensures
            match height_at(layout_fn(self.types@, full_set(self.types@)), width as int) {
                None => r is None,
                Some(h) => {
                    let s = recon(
                    self.types@,
                        full_set(self.types@),
                        0,
                        0,
                        width as int,
                        h,
                        0,
                    )->0;
                    &&& r is Some
                    &&& r->0.placements@ == by_spot(assigned(list_views(self.type_to_spec@), s))
                    &&& r->0.leftovers@.len() == 0
                    &&& lays_out(
                        self.types@,
                        full_set(self.types@),
                        s,
                        region(0, 0, width as int, h),
                    )
                },
            },
    {
        match self.reconstruct_spots(width) {
            None => None,
            Some(spots) => {
                proof {
                    let full = full_set(self.types@);
                    assert forall|t: int| 0 <= t < self.types@.len() implies
                        #[trigger] spots_of_type(spots@, t) == self.types@[t].count by {
                        assert(full[t] == self.types@[t].count);
                    }
                }
                let list = self.assign_copies(&spots);
                let placements = sort_by_spot(&list);
                Some(SolutionSpec { placements, leftovers: Vec::new() })
            },
        }
    }
}

proof fn lemma_full_part(types: Seq<GpfType>)
    ensures
        part_of(full_set(types), full_set(types)),
{
}

fn join_spots(a: Vec<TypeSpot>, b: &Vec<TypeSpot>) -> (r: Vec<TypeSpot>)
    ensures
        r@ == a@ + b@,
{
    let mut out = a;
    let ghost start = out@;
    let mut k: usize = 0;
    assert(out@ =~= start + b@.take(0));
    while k < b.len()
        invariant
            k <= b@.len(),
            out@ == start + b@.take(k as int),
        decreases b@.len() - k,
    {
        out.push(b[k]);
        k += 1;
        assert(out@ =~= start + b@.take(k as int));
    }
    assert(b@.take(k as int) =~= b@);
    out
}

} // verus!
