use vstd::prelude::*;

use super::{
    h_cut, height_at, law_width_is_inverse, lemma_transposed, lesser_of, min_fn, stepped, sum_of,
    sums_fit, transposed, v_cut, width_at, StepFn,
};

verus! {

/// A piece type of the table.
#[derive(Debug, Clone, Copy, PartialEq, Eq, Structural)]
pub struct GpfType {
    pub width: u32,
    pub height: u32,
    pub count: u32,
    pub can_rotate: bool,
}

/// Sum of all numbers.
pub open spec fn total(c: Seq<nat>) -> nat
    decreases c.len(),
{
    if c.len() == 0 {
        0
    } else {
        total(c.drop_last()) + c.last()
    }
}

/// What is left of `c` without `d`.
pub open spec fn minus(c: Seq<nat>, d: Seq<nat>) -> Seq<nat> {
    Seq::new(c.len(), |i: int| (c[i] - d[i]) as nat)
}

/// `d` takes no more than `c` has.
pub open spec fn part_of(d: Seq<nat>, c: Seq<nat>) -> bool {
    d.len() == c.len() && forall|i: int| 0 <= i < c.len() ==> #[trigger] d[i] <= c[i]
}

/// `d` takes some of `c` and leaves some.
pub open spec fn proper_part(d: Seq<nat>, c: Seq<nat>) -> bool {
    part_of(d, c) && 0 < total(d) < total(c) && total(minus(c, d)) < total(c)
}

/// One piece fits in a rectangle, in an orientation that it may have.
pub open spec fn single_fits(t: GpfType, w: int, h: int) -> bool {
    (t.width <= w && t.height <= h) || (t.can_rotate && t.height <= w && t.width <= h)
}

/// Marks the place of a cut.
pub open spec fn cut_at(v: int) -> bool {
    true
}

/// The pieces that `c` counts can be cut from a rectangle of `w` x `h` by edge-to-edge cuts:
/// there is none, or one that fits, or a cut that shares the pieces out to its two sides.
pub open spec fn fits(types: Seq<GpfType>, c: Seq<nat>, w: int, h: int) -> bool
    decreases total(c),
{
    if total(c) == 0 {
        true
    } else if total(c) == 1 {
        exists|i: int| 0 <= i < c.len() && #[trigger] c[i] == 1 && single_fits(types[i], w, h)
    } else {
        exists|d: Seq<nat>| #[trigger]
            proper_part(d, c) && ((exists|h1: int|
                #[trigger] cut_at(h1) && fits(types, d, w, h1) && fits(types, minus(c, d), w, h - h1)) || (exists|
                w1: int,
            |
                #[trigger] cut_at(w1) && fits(types, d, w1, h) && fits(types, minus(c, d), w - w1, h)))
    }
}

/// A cut shares the pieces out to `a` on one side and `b` on the other.
pub open spec fn via_split(types: Seq<GpfType>, a: Seq<nat>, b: Seq<nat>, w: int, h: int) -> bool {
    (exists|h1: int| #[trigger]
        cut_at(h1) && fits(types, a, w, h1) && fits(types, b, w, h - h1)) || (exists|
        w1: int,
    |
        #[trigger] cut_at(w1) && fits(types, a, w1, h) && fits(types, b, w - w1, h))
}

/// `f` is the layout function of the pieces: its value is the least height from which they can
/// be cut.
pub open spec fn layout_of(types: Seq<GpfType>, c: Seq<nat>, f: Seq<(u32, u32)>) -> bool {
    stepped(f) && forall|w: int, h: int|
        #[trigger] fits(types, c, w, h) <==> (height_at(f, w) matches Some(v) && v <= h)
}

pub proof fn lemma_total_minus(c: Seq<nat>, d: Seq<nat>)
    requires
        part_of(d, c),
    ensures
        total(minus(c, d)) + total(d) == total(c),
        part_of(minus(c, d), c),
        minus(c, minus(c, d)) =~= d,
    decreases c.len(),
{
    let m = minus(c, d);
    assert forall|i: int| 0 <= i < c.len() implies #[trigger] m[i] <= c[i] by {}
    assert forall|i: int| 0 <= i < c.len() implies minus(c, m)[i] == d[i] by {
        assert(d[i] <= c[i]);
    }
    if c.len() > 0 {
        let (c2, d2) = (c.drop_last(), d.drop_last());
        assert(part_of(d2, c2)) by {
            assert forall|i: int| 0 <= i < c2.len() implies #[trigger] d2[i] <= c2[i] by {
                assert(d[i] <= c[i]);
            }
        }
        lemma_total_minus(c2, d2);
        assert(m.drop_last() =~= minus(c2, d2));
        assert(d[c.len() - 1] <= c[c.len() - 1]);
    }
}

pub proof fn lemma_split_gives(types: Seq<GpfType>, c: Seq<nat>, d: Seq<nat>, w: int, h: int)
    requires
        proper_part(d, c),
        total(c) > 1,
        via_split(types, d, minus(c, d), w, h),
    ensures
        fits(types, c, w, h),
{
}

pub proof fn lemma_split_exists(types: Seq<GpfType>, c: Seq<nat>, w: int, h: int) -> (d: Seq<nat>)
    requires
        total(c) > 1,
        fits(types, c, w, h),
    ensures
        proper_part(d, c),
        via_split(types, d, minus(c, d), w, h),
{
    let d = choose|d: Seq<nat>| #[trigger]
        proper_part(d, c) && ((exists|h1: int|
            #[trigger] cut_at(h1) && fits(types, d, w, h1) && fits(types, minus(c, d), w, h - h1)) || (exists|
            w1: int,
        |
            #[trigger] cut_at(w1) && fits(types, d, w1, h) && fits(types, minus(c, d), w - w1, h)));
    d
}

proof fn lemma_split_mirror(types: Seq<GpfType>, a: Seq<nat>, b: Seq<nat>, w: int, h: int)
    requires
        via_split(types, a, b, w, h),
    ensures
        via_split(types, b, a, w, h),
{
    if exists|h1: int| #[trigger] cut_at(h1) && fits(types, a, w, h1) && fits(types, b, w, h - h1) {
        let h1 = choose|h1: int| #[trigger]
            cut_at(h1) && fits(types, a, w, h1) && fits(types, b, w, h - h1);
        assert(h - (h - h1) == h1);
        assert(cut_at(h - h1) && fits(types, b, w, h - h1) && fits(types, a, w, h - (h - h1)));
    } else {
        let w1 = choose|w1: int| #[trigger]
            cut_at(w1) && fits(types, a, w1, h) && fits(types, b, w - w1, h);
        assert(w - (w - w1) == w1);
        assert(cut_at(w - w1) && fits(types, b, w - w1, h) && fits(types, a, w - (w - w1), h));
    }
}

/// What fits in a rectangle fits in a larger one.
pub proof fn law_fits_is_monotone(
    types: Seq<GpfType>,
    c: Seq<nat>,
    w: int,
    h: int,
    w2: int,
    h2: int,
)
    requires
        fits(types, c, w, h),
        w <= w2,
        h <= h2,
    ensures
        fits(types, c, w2, h2),
    decreases total(c),
{
    if total(c) == 1 {
        let i = choose|i: int|
            0 <= i < c.len() && #[trigger] c[i] == 1 && single_fits(types[i], w, h);
        assert(c[i] == 1 && single_fits(types[i], w2, h2));
    } else if total(c) > 1 {
        let d = lemma_split_exists(types, c, w, h);
        let e = minus(c, d);
        if exists|h1: int| #[trigger]
            cut_at(h1) && fits(types, d, w, h1) && fits(types, e, w, h - h1) {
            let h1 = choose|h1: int| #[trigger]
                cut_at(h1) && fits(types, d, w, h1) && fits(types, e, w, h - h1);
            law_fits_is_monotone(types, d, w, h1, w2, h1);
            law_fits_is_monotone(types, e, w, h - h1, w2, h2 - h1);
            assert(cut_at(h1) && fits(types, d, w2, h1) && fits(types, e, w2, h2 - h1));
        } else {
            let w1 = choose|w1: int| #[trigger]
                cut_at(w1) && fits(types, d, w1, h) && fits(types, e, w - w1, h);
            law_fits_is_monotone(types, d, w1, h, w1, h2);
            law_fits_is_monotone(types, e, w - w1, h, w2 - w1, h2);
            assert(cut_at(w1) && fits(types, d, w1, h2) && fits(types, e, w2 - w1, h2));
        }
        lemma_split_gives(types, c, d, w2, h2);
    }
}

/// The longer side of a type.
pub open spec fn long_side(t: GpfType) -> int {
    if t.width >= t.height {
        t.width as int
    } else {
        t.height as int
    }
}

/// The longer sides of all pieces, added up.
pub open spec fn reach(types: Seq<GpfType>, c: Seq<nat>) -> int
    decreases c.len(),
{
    if c.len() == 0 {
        0
    } else {
        reach(types.drop_last(), c.drop_last()) + c.last() * long_side(types.last())
    }
}

pub proof fn lemma_reach(types: Seq<GpfType>, c: Seq<nat>, d: Seq<nat>)
    requires
        part_of(d, c),
        types.len() == c.len(),
    ensures
        reach(types, d) + reach(types, minus(c, d)) == reach(types, c),
        reach(types, d) >= 0,
        reach(types, minus(c, d)) >= 0,
    decreases c.len(),
{
    let m = minus(c, d);
    if c.len() > 0 {
        let (c2, d2, t2) = (c.drop_last(), d.drop_last(), types.drop_last());
        assert(part_of(d2, c2)) by {
            assert forall|i: int| 0 <= i < c2.len() implies #[trigger] d2[i] <= c2[i] by {
                assert(d[i] <= c[i]);
            }
        }
        lemma_reach(t2, c2, d2);
        assert(m.drop_last() =~= minus(c2, d2));
        assert(d[c.len() - 1] <= c[c.len() - 1]);
        let s = long_side(types.last());
        let (x, y) = (d.last(), m.last());
        assert(x * s + y * s == (x + y) * s && x * s >= 0 && y * s >= 0) by (nonlinear_arith)
            requires
                s >= 0,
                x >= 0,
                y >= 0,
        ;
    }
}

proof fn lemma_reach_single(types: Seq<GpfType>, c: Seq<nat>, i: int)
    requires
        types.len() == c.len(),
        0 <= i < c.len(),
        c[i] >= 1,
    ensures
        reach(types, c) >= long_side(types[i]),
    decreases c.len(),
{
    let n = c.len() - 1;
    let s = long_side(types.last());
    assert(c.last() * s >= 0) by (nonlinear_arith)
        requires
            s >= 0,
            c.last() >= 0,
    ;
    if i < n {
        lemma_reach_single(types.drop_last(), c.drop_last(), i);
        assert(types.drop_last()[i] == types[i]);
    } else {
        lemma_reach_nonneg(types.drop_last(), c.drop_last());
        assert(c.last() * s >= s) by (nonlinear_arith)
            requires
                s >= 0,
                c.last() >= 1,
        ;
    }
}

pub proof fn lemma_reach_nonneg(types: Seq<GpfType>, c: Seq<nat>)
    requires
        types.len() == c.len(),
    ensures
        reach(types, c) >= 0,
    decreases c.len(),
{
    if c.len() > 0 {
        lemma_reach_nonneg(types.drop_last(), c.drop_last());
        let s = long_side(types.last());
        assert(c.last() * s >= 0) by (nonlinear_arith)
            requires
                s >= 0,
                c.last() >= 0,
        ;
    }
}

spec fn capped(v: int, b: int) -> int {
    if v <= b {
        v
    } else {
        b
    }
}

/// No rectangle needs a side longer than all pieces laid end to end.
proof fn lemma_fits_capped(types: Seq<GpfType>, c: Seq<nat>, w: int, h: int)
    requires
        fits(types, c, w, h),
        types.len() == c.len(),
    ensures
        fits(types, c, capped(w, reach(types, c)), h),
        fits(types, c, w, capped(h, reach(types, c))),
    decreases total(c),
{
    let b = reach(types, c);
    if total(c) == 1 {
        let i = choose|i: int|
            0 <= i < c.len() && #[trigger] c[i] == 1 && single_fits(types[i], w, h);
        lemma_reach_single(types, c, i);
        assert(c[i] == 1 && single_fits(types[i], capped(w, b), h));
        assert(c[i] == 1 && single_fits(types[i], w, capped(h, b)));
    } else if total(c) > 1 {
        let d = lemma_split_exists(types, c, w, h);
        let e = minus(c, d);
        lemma_reach(types, c, d);
        let (bd, be) = (reach(types, d), reach(types, e));
        if exists|h1: int| #[trigger]
            cut_at(h1) && fits(types, d, w, h1) && fits(types, e, w, h - h1) {
            let h1 = choose|h1: int| #[trigger]
                cut_at(h1) && fits(types, d, w, h1) && fits(types, e, w, h - h1);
            lemma_fits_capped(types, d, w, h1);
            lemma_fits_capped(types, e, w, h - h1);
            law_fits_is_monotone(types, d, capped(w, bd), h1, capped(w, b), h1);
            law_fits_is_monotone(types, e, capped(w, be), h - h1, capped(w, b), h - h1);
            assert(cut_at(h1) && fits(types, d, capped(w, b), h1) && fits(types, e, capped(w, b), h - h1));
            lemma_split_gives(types, c, d, capped(w, b), h);
            let k = capped(h1, bd);
            law_fits_is_monotone(
                types,
                e,
                w,
                capped(h - h1, be),
                w,
                capped(h, b) - k,
            );
            assert(cut_at(k) && fits(types, d, w, k) && fits(types, e, w, capped(h, b) - k));
            lemma_split_gives(types, c, d, w, capped(h, b));
        } else {
            let w1 = choose|w1: int| #[trigger]
                cut_at(w1) && fits(types, d, w1, h) && fits(types, e, w - w1, h);
            lemma_fits_capped(types, d, w1, h);
            lemma_fits_capped(types, e, w - w1, h);
            law_fits_is_monotone(types, d, w1, capped(h, bd), w1, capped(h, b));
            law_fits_is_monotone(types, e, w - w1, capped(h, be), w - w1, capped(h, b));
            assert(cut_at(w1) && fits(types, d, w1, capped(h, b)) && fits(types, e, w - w1, capped(h, b)));
            lemma_split_gives(types, c, d, w, capped(h, b));
            let k = capped(w1, bd);
            law_fits_is_monotone(
                types,
                e,
                capped(w - w1, be),
                h,
                capped(w, b) - k,
                h,
            );
            assert(cut_at(k) && fits(types, d, k, h) && fits(types, e, capped(w, b) - k, h));
            lemma_split_gives(types, c, d, capped(w, b), h);
        }
    }
}

/// Values of a layout function are no more than the reach, and so are the widths at which it
/// goes down.
pub proof fn lemma_layout_bound(types: Seq<GpfType>, c: Seq<nat>, f: Seq<(u32, u32)>, x: int)
    requires
        layout_of(types, c, f),
        types.len() == c.len(),
    ensures
        height_at(f, x) matches Some(v) ==> v <= reach(types, c),
        width_at(f, x) matches Some(v) ==> v <= reach(types, c),
{
    let b = reach(types, c);
    if height_at(f, x) is Some {
        let v = height_at(f, x)->0;
        assert(fits(types, c, x, v));
        lemma_fits_capped(types, c, x, v);
        assert(fits(types, c, x, capped(v, b)));
    }
    if width_at(f, x) is Some {
        let w = width_at(f, x)->0;
        law_width_is_inverse(f, w, x);
        assert(fits(types, c, w, x));
        lemma_fits_capped(types, c, w, x);
        assert(fits(types, c, capped(w, b), x));
        law_width_is_inverse(f, capped(w, b), x);
    }
}

/// Sums of values and of widths stay in range.
proof fn lemma_sums_fit(
    types: Seq<GpfType>,
    a: Seq<nat>,
    b: Seq<nat>,
    f: Seq<(u32, u32)>,
    g: Seq<(u32, u32)>,
)
    requires
        layout_of(types, a, f),
        layout_of(types, b, g),
        types.len() == a.len(),
        types.len() == b.len(),
        reach(types, a) + reach(types, b) <= u32::MAX,
    ensures
        sums_fit(f, g),
        sums_fit(transposed(f), transposed(g)),
{
    assert forall|x: int|
        #![trigger height_at(f, x)]
        #![trigger height_at(g, x)]
        sum_of(height_at(f, x), height_at(g, x)) matches Some(v) ==> v <= u32::MAX by {
        lemma_layout_bound(types, a, f, x);
        lemma_layout_bound(types, b, g, x);
    }
    assert forall|x: int|
        #![trigger height_at(transposed(f), x)]
        #![trigger height_at(transposed(g), x)]
        sum_of(height_at(transposed(f), x), height_at(transposed(g), x)) matches Some(v) ==> v
            <= u32::MAX by {
        lemma_layout_bound(types, a, f, x);
        lemma_layout_bound(types, b, g, x);
        lemma_transposed(f, x);
        lemma_transposed(g, x);
    }
}

/// The better of stacking two layouts and putting them side by side.
proof fn lemma_candidate(
    types: Seq<GpfType>,
    a: Seq<nat>,
    b: Seq<nat>,
    f: Seq<(u32, u32)>,
    g: Seq<(u32, u32)>,
    fh: Seq<(u32, u32)>,
    fv: Seq<(u32, u32)>,
    w: int,
    h: int,
)
    requires
        layout_of(types, a, f),
        layout_of(types, b, g),
        stepped(fh),
        stepped(fv),
        forall|x: int| #[trigger] height_at(fh, x) == sum_of(height_at(f, x), height_at(g, x)),
        forall|y: int| #[trigger] width_at(fv, y) == sum_of(width_at(f, y), width_at(g, y)),
    ensures
        via_split(types, a, b, w, h) <==> (lesser_of(
            height_at(fh, w),
            height_at(fv, w),
        ) matches Some(v) && v <= h),
{
    law_width_is_inverse(fv, w, h);
    let (p, q) = (height_at(f, w), height_at(g, w));
    if height_at(fh, w) is Some && height_at(fh, w)->0 <= h {
        assert(cut_at(p->0) && fits(types, a, w, p->0) && fits(types, b, w, h - p->0));
    }
    let (u, v) = (width_at(f, h), width_at(g, h));
    if height_at(fv, w) is Some && height_at(fv, w)->0 <= h {
        law_width_is_inverse(f, u->0, h);
        law_width_is_inverse(g, w - u->0, h);
        assert(cut_at(u->0) && fits(types, a, u->0, h) && fits(types, b, w - u->0, h));
    }
    if exists|h1: int| #[trigger] cut_at(h1) && fits(types, a, w, h1) && fits(types, b, w, h - h1) {
        let h1 = choose|h1: int| #[trigger]
            cut_at(h1) && fits(types, a, w, h1) && fits(types, b, w, h - h1);
        assert(p is Some && q is Some && p->0 + q->0 <= h);
    }
    if exists|w1: int| #[trigger] cut_at(w1) && fits(types, a, w1, h) && fits(types, b, w - w1, h) {
        let w1 = choose|w1: int| #[trigger]
            cut_at(w1) && fits(types, a, w1, h) && fits(types, b, w - w1, h);
        law_width_is_inverse(f, w1, h);
        law_width_is_inverse(g, w - w1, h);
        assert(u is Some && v is Some && u->0 + v->0 <= w);
    }
}

/// Number written in a mixed base, lowest digit first.
pub open spec fn index_of(c: Seq<nat>, full: Seq<nat>) -> nat
    decreases c.len(),
{
    if c.len() == 0 {
        0
    } else {
        c[0] + (full[0] + 1) * index_of(c.drop_first(), full.drop_first())
    }
}

/// The digits of a number in a mixed base.
pub open spec fn digits(idx: nat, full: Seq<nat>) -> Seq<nat>
    decreases full.len(),
{
    if full.len() == 0 {
        Seq::empty()
    } else {
        seq![idx % (full[0] + 1)] + digits(idx / (full[0] + 1), full.drop_first())
    }
}

/// How many numbers the base can write.
pub open spec fn capacity(full: Seq<nat>) -> nat
    decreases full.len(),
{
    if full.len() == 0 {
        1
    } else {
        (full[0] + 1) * capacity(full.drop_first())
    }
}

pub proof fn lemma_capacity_pos(full: Seq<nat>)
    ensures
        capacity(full) >= 1,
    decreases full.len(),
{
    if full.len() > 0 {
        lemma_capacity_pos(full.drop_first());
        let (a, b) = (full[0] + 1, capacity(full.drop_first()));
        assert(a * b >= 1) by (nonlinear_arith)
            requires
                a >= 1,
                b >= 1,
        ;
    }
}

/// Digits are in range, and writing them gives the number back.
pub proof fn law_digits_then_index(idx: nat, full: Seq<nat>)
    requires
        idx < capacity(full),
    ensures
        part_of(digits(idx, full), full),
        index_of(digits(idx, full), full) == idx,
    decreases full.len(),
{
    if full.len() > 0 {
        let b = full[0] + 1;
        let rest = full.drop_first();
        let q = idx / b;
        let r = idx % b;
        vstd::arithmetic::div_mod::lemma_fundamental_div_mod(idx as int, b as int);
        vstd::arithmetic::div_mod::lemma_mod_bound(idx as int, b as int);
        assert(q < capacity(rest)) by (nonlinear_arith)
            requires
                idx < b * capacity(rest),
                idx == b * q + r,
                r >= 0,
                b >= 1,
        ;
        law_digits_then_index(q, rest);
        let d = digits(idx, full);
        assert(d.drop_first() =~= digits(q, rest));
        assert forall|i: int| 0 <= i < full.len() implies #[trigger] d[i] <= full[i] by {
            if i > 0 {
                assert(digits(q, rest)[i - 1] <= rest[i - 1]);
            }
        }
    }
}

/// Digits in range give a number in range, and its digits are they.
pub proof fn law_index_then_digits(c: Seq<nat>, full: Seq<nat>)
    requires
        part_of(c, full),
    ensures
        index_of(c, full) < capacity(full),
        digits(index_of(c, full), full) =~= c,
    decreases full.len(),
{
    if full.len() > 0 {
        let b = full[0] + 1;
        let rest = full.drop_first();
        let c2 = c.drop_first();
        assert(part_of(c2, rest)) by {
            assert forall|i: int| 0 <= i < rest.len() implies #[trigger] c2[i] <= rest[i] by {
                assert(c[i + 1] <= full[i + 1]);
            }
        }
        law_index_then_digits(c2, rest);
        let q = index_of(c2, rest);
        let idx = index_of(c, full);
        assert(c[0] <= full[0]);
        assert(idx < b * capacity(rest)) by (nonlinear_arith)
            requires
                idx == c[0] + b * q,
                c[0] < b,
                q < capacity(rest),
        ;
        assert(idx == q * b + c[0]) by (nonlinear_arith)
            requires
                idx == c[0] + b * q,
        ;
        vstd::arithmetic::div_mod::lemma_fundamental_div_mod_converse(
            idx as int,
            b as int,
            q as int,
            c[0] as int,
        );
        assert(digits(idx, full) =~= c);
    }
}

/// A part has a smaller number.
pub proof fn lemma_part_index(d: Seq<nat>, c: Seq<nat>, full: Seq<nat>)
    requires
        part_of(d, c),
        c.len() == full.len(),
    ensures
        index_of(d, full) <= index_of(c, full),
        index_of(d, full) == index_of(c, full) ==> d =~= c,
        total(d) > 0 ==> index_of(d, full) > 0,
    decreases c.len(),
{
    if c.len() > 0 {
        let b = full[0] + 1;
        let (d2, c2, f2) = (d.drop_first(), c.drop_first(), full.drop_first());
        assert(part_of(d2, c2)) by {
            assert forall|i: int| 0 <= i < c2.len() implies #[trigger] d2[i] <= c2[i] by {
                assert(d[i + 1] <= c[i + 1]);
            }
        }
        lemma_part_index(d2, c2, f2);
        let (x, y) = (index_of(d2, f2), index_of(c2, f2));
        assert(d[0] <= c[0]);
        assert(b * x <= b * y) by (nonlinear_arith)
            requires
                x <= y,
                b >= 1,
        ;
        if x < y {
            assert(b * x < b * y) by (nonlinear_arith)
                requires
                    x < y,
                    b >= 1,
            ;
        }
        if index_of(d, full) == index_of(c, full) {
            assert(d[0] == c[0] && x == y);
            assert(d =~= seq![d[0]] + d2);
            assert(c =~= seq![c[0]] + c2);
        }
        if total(d) > 0 {
            lemma_total_first(d);
            if d[0] == 0 {
                assert(b * x > 0) by (nonlinear_arith)
                    requires
                        x > 0,
                        b >= 1,
                ;
            } else {
                assert(b * x >= 0) by (nonlinear_arith)
                    requires
                        x >= 0,
                        b >= 1,
                ;
            }
        }
    }
}

pub proof fn lemma_total_first(c: Seq<nat>)
    requires
        c.len() > 0,
    ensures
        total(c) == c[0] + total(c.drop_first()),
    decreases c.len(),
{
    if c.len() > 1 {
        lemma_total_first(c.drop_last());
        assert(c.drop_first().drop_last() =~= c.drop_last().drop_first());
    } else {
        assert(c.drop_first() =~= Seq::empty());
        assert(c.drop_last() =~= Seq::empty());
    }
}

/// A number other than 0 has a digit other than 0.
pub proof fn lemma_index_zero(c: Seq<nat>, full: Seq<nat>)
    requires
        c.len() == full.len(),
        total(c) == 0,
    ensures
        index_of(c, full) == 0,
    decreases c.len(),
{
    if c.len() > 0 {
        lemma_total_first(c);
        lemma_index_zero(c.drop_first(), full.drop_first());
        assert((full[0] + 1) * 0 == 0);
    }
}

pub open spec fn nats(c: Seq<u32>) -> Seq<nat> {
    Seq::new(c.len(), |i: int| c[i] as nat)
}

/// All pieces.
pub open spec fn full_set(types: Seq<GpfType>) -> Seq<nat> {
    Seq::new(types.len(), |i: int| types[i].count as nat)
}

pub proof fn lemma_total_capacity(c: Seq<nat>)
    ensures
        total(c) < capacity(c),
    decreases c.len(),
{
    if c.len() > 0 {
        lemma_total_first(c);
        let d = c.drop_first();
        lemma_total_capacity(d);
        let (a, b, t) = (c[0], capacity(d), total(d));
        assert(a + t < (a + 1) * b) by (nonlinear_arith)
            requires
                t < b,
                a >= 0,
                t >= 0,
        ;
    }
}

/// A part can be shared out in no more ways than the whole.
pub proof fn lemma_capacity_part(d: Seq<nat>, c: Seq<nat>)
    requires
        part_of(d, c),
    ensures
        capacity(d) <= capacity(c),
    decreases c.len(),
{
    if c.len() > 0 {
        let (d2, c2) = (d.drop_first(), c.drop_first());
        assert(part_of(d2, c2)) by {
            assert forall|i: int| 0 <= i < c2.len() implies #[trigger] d2[i] <= c2[i] by {
                assert(d[i + 1] <= c[i + 1]);
            }
        }
        lemma_capacity_part(d2, c2);
        assert(d[0] <= c[0]);
        let (a, b, x, y) = (d[0] + 1, c[0] + 1, capacity(d2), capacity(c2));
        assert(a * x <= b * y) by (nonlinear_arith)
            requires
                a <= b,
                x <= y,
                a >= 0,
                x >= 0,
        ;
    }
}

pub proof fn lemma_total_part(d: Seq<nat>, c: Seq<nat>)
    requires
        part_of(d, c),
    ensures
        total(d) <= total(c),
        total(d) == total(c) ==> d =~= c,
    decreases c.len(),
{
    if c.len() > 0 {
        let (d2, c2) = (d.drop_last(), c.drop_last());
        assert(part_of(d2, c2)) by {
            assert forall|i: int| 0 <= i < c2.len() implies #[trigger] d2[i] <= c2[i] by {
                assert(d[i] <= c[i]);
            }
        }
        lemma_total_part(d2, c2);
        assert(d[c.len() - 1] <= c[c.len() - 1]);
        if total(d) == total(c) {
            assert(d =~= d2.push(d.last()));
            assert(c =~= c2.push(c.last()));
        }
    }
}

pub(crate) fn sum_counts(c: &Vec<u32>) -> (r: usize)
    requires
        total(nats(c@)) <= usize::MAX,
    ensures
        r == total(nats(c@)),
{
    let mut sum: usize = 0;
    let mut k: usize = 0;
    assert(nats(c@).take(0) =~= Seq::empty());
    while k < c.len()
        invariant
            k <= c@.len(),
            total(nats(c@)) <= usize::MAX,
            sum == total(nats(c@).take(k as int)),
        decreases c@.len() - k,
    {
        proof {
            let n = nats(c@);
            assert(n.take(k + 1).drop_last() =~= n.take(k as int));
            lemma_total_take(n, (k + 1) as nat);
        }
        sum = sum + c[k] as usize;
        k += 1;
    }
    assert(nats(c@).take(k as int) =~= nats(c@));
    sum
}

proof fn lemma_total_take(c: Seq<nat>, k: nat)
    requires
        k <= c.len(),
    ensures
        total(c.take(k as int)) <= total(c),
    decreases c.len(),
{
    if k < c.len() {
        lemma_total_take(c.drop_last(), k);
        assert(c.drop_last().take(k as int) =~= c.take(k as int));
    } else {
        assert(c.take(k as int) =~= c);
    }
}

/// The number of a subset, with the full set as the base.
pub(crate) fn number_of(c: &Vec<u32>, full: &Vec<u32>) -> (r: usize)
    requires
        part_of(nats(c@), nats(full@)),
        capacity(nats(full@)) <= usize::MAX,
    ensures
        r == index_of(nats(c@), nats(full@)),
        r < capacity(nats(full@)),
{
    let ghost nc = nats(c@);
    let ghost nf = nats(full@);
    let mut acc: usize = 0;
    let mut k: usize = c.len();
    assert(nc.skip(k as int) =~= Seq::empty());
    while k > 0
        invariant
            k <= c@.len(),
            c@.len() == full@.len(),
            nc == nats(c@),
            nf == nats(full@),
            part_of(nc, nf),
            capacity(nf) <= usize::MAX,
            acc == index_of(nc.skip(k as int), nf.skip(k as int)),
        decreases k,
    {
        let i: usize = k - 1;
        proof {
            let (a, b) = (nc.skip(i as int), nf.skip(i as int));
            assert(a.drop_first() =~= nc.skip(k as int));
            assert(b.drop_first() =~= nf.skip(k as int));
            assert(a[0] == c@[i as int] && b[0] == full@[i as int]);
            assert(part_of(a, b)) by {
                assert forall|j: int| 0 <= j < b.len() implies #[trigger] a[j] <= b[j] by {
                    assert(nc[i + j] <= nf[i + j]);
                }
            }
            law_index_then_digits(a, b);
            lemma_capacity_skip(nf, i as nat);
            let (x, y) = (full@[i as int] + 1, acc as int);
            assert(x * y >= 0 && y * x == x * y) by (nonlinear_arith)
                requires
                    x >= 0,
                    y >= 0,
            ;
        }
        acc = acc * (full[i] as usize + 1) + c[i] as usize;
        k = i;
    }
    proof {
        assert(nc.skip(0) =~= nc);
        assert(nf.skip(0) =~= nf);
        law_index_then_digits(nc, nf);
    }
    acc
}

proof fn lemma_capacity_skip(c: Seq<nat>, k: nat)
    requires
        k <= c.len(),
    ensures
        capacity(c.skip(k as int)) <= capacity(c),
        k < c.len() ==> c[k as int] + 1 <= capacity(c),
    decreases k,
{
    lemma_capacity_pos(c.drop_first());
    if c.len() > 0 {
        let (a, b) = (c[0] + 1, capacity(c.drop_first()));
        assert(a * b >= b && a * b >= a) by (nonlinear_arith)
            requires
                a >= 1,
                b >= 1,
        ;
        if k > 0 {
            lemma_capacity_skip(c.drop_first(), (k - 1) as nat);
            assert(c.drop_first().skip(k - 1) =~= c.skip(k as int));
        } else {
            assert(c.skip(0) =~= c);
        }
    } else {
        assert(c.skip(k as int) =~= c);
    }
}

/// The subset with a number: its digits in the base of the full set.
pub fn decode_split(full: &Vec<u32>, idx: usize) -> (r: Vec<u32>)
    requires
        idx < capacity(nats(full@)),
        capacity(nats(full@)) <= usize::MAX,
    ensures
        nats(r@) == digits(idx as nat, nats(full@)),
        part_of(nats(r@), nats(full@)),
{
    let ghost nf = nats(full@);
    let mut out: Vec<u32> = Vec::new();
    let mut rest: usize = idx;
    let mut k: usize = 0;
    proof {
        law_digits_then_index(idx as nat, nf);
        assert(nf.skip(0) =~= nf);
        assert(nats(out@) + digits(idx as nat, nf) =~= digits(idx as nat, nf));
    }
    while k < full.len()
        invariant
            k <= full@.len(),
            nf == nats(full@),
            capacity(nf) <= usize::MAX,
            out@.len() == k,
            nats(out@) + digits(rest as nat, nf.skip(k as int)) == digits(idx as nat, nf),
        decreases full@.len() - k,
    {
        proof {
            lemma_capacity_skip(nf, k as nat);
        }
        let base: usize = full[k] as usize + 1;
        let d: usize = rest % base;
        let ghost before = nats(out@);
        out.push(d as u32);
        proof {
            let tail = nf.skip(k as int);
            assert(tail[0] == full@[k as int]);
            assert(tail.drop_first() =~= nf.skip(k + 1));
            assert(nats(out@) =~= before.push(d as nat));
            assert(nats(out@) + digits((rest / base) as nat, nf.skip(k + 1)) =~= before + digits(
                rest as nat,
                tail,
            ));
        }
        rest = rest / base;
        k += 1;
    }
    proof {
        assert(nf.skip(k as int) =~= Seq::empty());
        assert(nats(out@) =~= digits(idx as nat, nf));
    }
    out
}

pub(crate) fn number_of_splits(c: &Vec<u32>) -> (r: usize)
    requires
        capacity(nats(c@)) <= usize::MAX,
    ensures
        r == capacity(nats(c@)),
{
    let ghost n = nats(c@);
    let mut acc: usize = 1;
    let mut k: usize = c.len();
    assert(n.skip(k as int) =~= Seq::empty());
    while k > 0
        invariant
            k <= c@.len(),
            n == nats(c@),
            capacity(n) <= usize::MAX,
            acc == capacity(n.skip(k as int)),
        decreases k,
    {
        let i: usize = k - 1;
        proof {
            let a = n.skip(i as int);
            assert(a.drop_first() =~= n.skip(k as int));
            assert(a[0] == c@[i as int]);
            lemma_capacity_skip(n, i as nat);
            lemma_capacity_pos(n.skip(k as int));
            let (x, y) = (c@[i as int] + 1, acc as int);
            assert(x * y >= x && y * x == x * y) by (nonlinear_arith)
                requires
                    x >= 0,
                    y >= 1,
            ;
        }
        acc = acc * (c[i] as usize + 1);
        k = i;
    }
    assert(n.skip(0) =~= n);
    acc
}

pub(crate) fn counts_minus(c: &Vec<u32>, d: &Vec<u32>) -> (r: Vec<u32>)
    requires
        part_of(nats(d@), nats(c@)),
    ensures
        nats(r@) == minus(nats(c@), nats(d@)),
{
    let mut out: Vec<u32> = Vec::new();
    let mut k: usize = 0;
    while k < c.len()
        invariant
            k <= c@.len(),
            c@.len() == d@.len(),
            part_of(nats(d@), nats(c@)),
            out@.len() == k,
            forall|i: int| 0 <= i < k ==> #[trigger] out@[i] == c@[i] - d@[i],
        decreases c@.len() - k,
    {
        assert(nats(d@)[k as int] <= nats(c@)[k as int]);
        out.push(c[k] - d[k]);
        k += 1;
    }
    assert(nats(out@) =~= minus(nats(c@), nats(d@)));
    out
}

proof fn lemma_one_step(f: Seq<(u32, u32)>, w: int)
    requires
        f.len() == 1,
    ensures
        height_at(f, w) == (if f[0].0 <= w {
            Some(f[0].1 as int)
        } else {
            None
        }),
{
    reveal_with_fuel(height_at, 2);
}

/// Layout function of a single piece.
pub fn single_layout(t: &GpfType) -> (r: StepFn)
    ensures
        stepped(r@),
        forall|w: int, h: int|
            #[trigger] single_fits(*t, w, h) <==> (height_at(r@, w) matches Some(v) && v <= h),
{
    let mut f: StepFn = Vec::new();
    f.push((t.width, t.height));
    if t.can_rotate && t.width != t.height {
        let mut g: StepFn = Vec::new();
        g.push((t.height, t.width));
        let r = min_fn(&f, &g);
        assert forall|w: int, h: int|
            #[trigger] single_fits(*t, w, h) <==> (height_at(r@, w) matches Some(v) && v <= h) by {
            lemma_one_step(f@, w);
            lemma_one_step(g@, w);
            assert(height_at(r@, w) == lesser_of(height_at(f@, w), height_at(g@, w)));
        }
        r
    } else {
        assert forall|w: int, h: int|
            #[trigger] single_fits(*t, w, h) <==> (height_at(f@, w) matches Some(v) && v <= h) by {
            lemma_one_step(f@, w);
        }
        f
    }
}

/// The layout functions of all subsets of a set of pieces.
pub struct GpfTable {
    pub types: Vec<GpfType>,
    pub cells: Vec<StepFn>,
    /// For each type the indices of its copies.
    pub type_to_spec: Vec<Vec<usize>>,
}

/// Cells `1` up to `n` are the layout functions of the subsets with these numbers.
pub open spec fn cells_ok(types: Seq<GpfType>, cells: Seq<StepFn>, n: nat) -> bool {
    forall|k: int|
        1 <= k < n ==> layout_of(
            types,
            digits(k as nat, full_set(types)),
            (#[trigger] cells[k])@,
        )
}

impl GpfTable {
    pub open spec fn wf(self) -> bool {
        &&& self.cells@.len() == capacity(full_set(self.types@))
        &&& self.cells@[0]@.len() == 0
        &&& cells_ok(self.types@, self.cells@, self.cells@.len())
        &&& reach(self.types@, full_set(self.types@)) <= u32::MAX
        &&& self.type_to_spec@.len() == self.types@.len()
        &&& forall|t: int|
            0 <= t < self.types@.len() ==> (#[trigger] self.type_to_spec@[t])@.len()
                == self.types@[t].count
    }
}

/// Splits of a subset that were tried give nothing better than the function found.
spec fn splits_tried(
    types: Seq<GpfType>,
    c: Seq<nat>,
    full: Seq<nat>,
    best: Seq<(u32, u32)>,
    n: nat,
) -> bool {
    forall|k: int, w: int, h: int|
        #![trigger digits(k as nat, c), via_split(types, digits(k as nat, c), minus(c, digits(k as nat, c)), w, h)]
        0 <= k < n && proper_part(digits(k as nat, c), c) && index_of(digits(k as nat, c), full)
            <= index_of(minus(c, digits(k as nat, c)), full) && via_split(
            types,
            digits(k as nat, c),
            minus(c, digits(k as nat, c)),
            w,
            h,
        ) ==> (height_at(best, w) matches Some(v) && v <= h)
}

/// The function found so far is reached by some split.
spec fn best_reached(types: Seq<GpfType>, c: Seq<nat>, best: Seq<(u32, u32)>) -> bool {
    forall|w: int, h: int|
        (#[trigger] height_at(best, w) matches Some(v) && v <= h) ==> #[trigger] fits(
            types,
            c,
            w,
            h,
        )
}

proof fn lemma_all_tried(
    types: Seq<GpfType>,
    c: Seq<nat>,
    full: Seq<nat>,
    best: Seq<(u32, u32)>,
)
    requires
        total(c) > 1,
        c.len() == full.len(),
        stepped(best),
        splits_tried(types, c, full, best, capacity(c)),
        best_reached(types, c, best),
    ensures
        layout_of(types, c, best),
{
    assert forall|w: int, h: int| #[trigger] fits(types, c, w, h) <==> (height_at(
        best,
        w,
    ) matches Some(v) && v <= h) by {
        if fits(types, c, w, h) {
            let d = lemma_split_exists(types, c, w, h);
            let e = minus(c, d);
            lemma_total_minus(c, d);
            law_index_then_digits(d, c);
            law_index_then_digits(e, c);
            assert(minus(c, e) == d);
            if index_of(d, full) <= index_of(e, full) {
                let k = index_of(d, c);
                assert(digits(k, c) == d);
                assert(via_split(types, digits(k as nat, c), minus(c, digits(k as nat, c)), w, h));
            } else {
                lemma_split_mirror(types, d, e, w, h);
                let k = index_of(e, c);
                assert(digits(k, c) == e);
                assert(proper_part(e, c));
                assert(via_split(types, digits(k as nat, c), minus(c, digits(k as nat, c)), w, h));
            }
        }
    }
}

/// The best of one more split.
fn try_split(
    types: &Vec<GpfType>,
    cells: &Vec<StepFn>,
    counts: &Vec<u32>,
    full: &Vec<u32>,
    split: usize,
    total_pieces: usize,
    flat: usize,
    best: StepFn,
) -> (r: StepFn)
    requires
        nats(full@) == full_set(types@),
        capacity(nats(full@)) <= usize::MAX,
        reach(types@, nats(full@)) <= u32::MAX,
        part_of(nats(counts@), nats(full@)),
        total_pieces == total(nats(counts@)),
        total_pieces > 1,
        flat == index_of(nats(counts@), nats(full@)),
        flat <= cells@.len(),
        cells_ok(types@, cells@, flat as nat),
        split < capacity(nats(counts@)),
        stepped(best@),
        splits_tried(types@, nats(counts@), nats(full@), best@, split as nat),
        best_reached(types@, nats(counts@), best@),
    ensures
        stepped(r@),
        splits_tried(types@, nats(counts@), nats(full@), r@, (split + 1) as nat),
        best_reached(types@, nats(counts@), r@),
{
    let ghost c = nats(counts@);
    let ghost nf = nats(full@);
    proof {
        lemma_capacity_part(c, nf);
    }
    let d1 = decode_split(counts, split);
    let ghost d = nats(d1@);
    proof {
        lemma_total_part(d, c);
        lemma_total_minus(c, d);
    }
    let t1: usize = sum_counts(&d1);
    if t1 == 0 || t1 == total_pieces {
        return best;
    }
    let d2 = counts_minus(counts, &d1);
    let ghost e = nats(d2@);
    proof {
        lemma_part_trans(d, c, nf);
        lemma_part_trans(e, c, nf);
    }
    let i1: usize = number_of(&d1, full);
    let i2: usize = number_of(&d2, full);
    if i1 > i2 {
        return best;
    }
    proof {
        assert(proper_part(d, c));
        lemma_part_index(d, c, nf);
        lemma_part_index(e, c, nf);
        law_index_then_digits(d, nf);
        law_index_then_digits(e, nf);
        assert(i1 != flat && i2 != flat);
    }
    let f1 = &cells[i1];
    let f2 = &cells[i2];
    proof {
        assert(layout_of(types@, d, cells@[i1 as int]@));
        assert(layout_of(types@, e, cells@[i2 as int]@));
        lemma_reach(types@, c, d);
        lemma_reach(types@, nf, c);
        lemma_sums_fit(types@, d, e, f1@, f2@);
    }
    let fh = h_cut(f1, f2);
    let fv = v_cut(f1, f2);
    let cand = min_fn(&fh, &fv);
    let r = min_fn(&best, &cand);
    proof {
        assert forall|w: int, h: int| (#[trigger] height_at(r@, w) matches Some(v) && v
            <= h) implies #[trigger] fits(types@, c, w, h) by {
            assert(height_at(r@, w) == lesser_of(height_at(best@, w), height_at(cand@, w)));
            assert(height_at(cand@, w) == lesser_of(height_at(fh@, w), height_at(fv@, w)));
            lemma_candidate(types@, d, e, f1@, f2@, fh@, fv@, w, h);
            if via_split(types@, d, e, w, h) {
                lemma_split_gives(types@, c, d, w, h);
            } else {
                assert(height_at(best@, w) matches Some(v) && v <= h);
                assert(fits(types@, c, w, h));
            }
        }
        assert forall|k: int, w: int, h: int|
            #![trigger digits(k as nat, c), via_split(types@, digits(k as nat, c), minus(c, digits(k as nat, c)), w, h)]
            0 <= k < split + 1 && proper_part(digits(k as nat, c), c) && index_of(
                digits(k as nat, c),
                nf,
            ) <= index_of(minus(c, digits(k as nat, c)), nf) && via_split(
                types@,
                digits(k as nat, c),
                minus(c, digits(k as nat, c)),
                w,
                h,
            ) implies (height_at(r@, w) matches Some(v) && v <= h) by {
            assert(height_at(r@, w) == lesser_of(height_at(best@, w), height_at(cand@, w)));
            assert(height_at(cand@, w) == lesser_of(height_at(fh@, w), height_at(fv@, w)));
            if k == split {
                lemma_candidate(types@, d, e, f1@, f2@, fh@, fv@, w, h);
            } else {
                assert(height_at(best@, w) matches Some(v) && v <= h);
            }
        }
    }
    r
}

pub proof fn lemma_part_trans(a: Seq<nat>, b: Seq<nat>, c: Seq<nat>)
    requires
        part_of(a, b),
        part_of(b, c),
    ensures
        part_of(a, c),
{
    assert forall|i: int| 0 <= i < c.len() implies #[trigger] a[i] <= c[i] by {
        assert(a[i] <= b[i]);
        assert(b[i] <= c[i]);
    }
}

/// Layout function of one subset, from those of its parts.
fn fill_cell(
    types: &Vec<GpfType>,
    cells: &Vec<StepFn>,
    counts: &Vec<u32>,
    full: &Vec<u32>,
    flat: usize,
) -> (r: StepFn)
    requires
        nats(full@) == full_set(types@),
        capacity(nats(full@)) <= usize::MAX,
        reach(types@, nats(full@)) <= u32::MAX,
        part_of(nats(counts@), nats(full@)),
        total(nats(counts@)) > 0,
        flat == index_of(nats(counts@), nats(full@)),
        flat <= cells@.len(),
        cells_ok(types@, cells@, flat as nat),
    ensures
        layout_of(types@, nats(counts@), r@),
{
    let ghost c = nats(counts@);
    let ghost nf = nats(full@);
    proof {
        lemma_total_part(c, nf);
        lemma_total_capacity(nf);
        lemma_capacity_part(c, nf);
    }
    let total_pieces: usize = sum_counts(counts);
    if total_pieces == 1 {
        let mut i: usize = 0;
        while i < counts.len()
            invariant
                i <= counts@.len(),
                c == nats(counts@),
                c.len() == types@.len(),
                total(c) == 1,
                forall|j: int| 0 <= j < i ==> #[trigger] counts@[j] != 1,
            decreases counts@.len() - i,
        {
            if counts[i] == 1 {
                let r = single_layout(&types[i]);
                proof {
                    assert forall|w: int, h: int| #[trigger] fits(types@, c, w, h) <==> (height_at(
                        r@,
                        w,
                    ) matches Some(v) && v <= h) by {
                        assert(c[i as int] == 1);
                        if fits(types@, c, w, h) {
                            let j = choose|j: int|
                                0 <= j < c.len() && #[trigger] c[j] == 1 && single_fits(
                                    types@[j],
                                    w,
                                    h,
                                );
                            lemma_only_one(c, i as int, j);
                        }
                        assert(single_fits(types@[i as int], w, h) <==> (height_at(
                            r@,
                            w,
                        ) matches Some(v) && v <= h));
                    }
                }
                return r;
            }
            i += 1;
        }
        proof {
            lemma_some_one(c);
            let j = choose|j: int| 0 <= j < c.len() && #[trigger] c[j] == 1;
            assert(counts@[j] == 1);
        }
        return Vec::new();
    }
    let n: usize = number_of_splits(counts);
    let mut best: StepFn = Vec::new();
    let mut k: usize = 0;
    while k < n
        invariant
            k <= n,
            n == capacity(nats(counts@)),
            c == nats(counts@),
            nf == nats(full@),
            nf == full_set(types@),
            capacity(nf) <= usize::MAX,
            reach(types@, nf) <= u32::MAX,
            part_of(c, nf),
            total_pieces == total(c),
            total_pieces > 1,
            flat == index_of(c, nf),
            flat <= cells@.len(),
            cells_ok(types@, cells@, flat as nat),
            stepped(best@),
            splits_tried(types@, c, nf, best@, k as nat),
            best_reached(types@, c, best@),
        decreases n - k,
    {
        best = try_split(types, cells, counts, full, k, total_pieces, flat, best);
        k += 1;
    }
    proof {
        lemma_all_tried(types@, c, nf, best@);
    }
    best
}

pub proof fn lemma_total_at(c: Seq<nat>, i: int)
    requires
        0 <= i < c.len(),
    ensures
        total(c) == c[i] + total(c.update(i, 0)),
    decreases c.len(),
{
    let d = c.update(i, 0);
    if i == c.len() - 1 {
        assert(d.drop_last() =~= c.drop_last());
    } else {
        lemma_total_at(c.drop_last(), i);
        assert(d.drop_last() =~= c.drop_last().update(i, 0));
    }
}

/// A subset of one piece has one type only.
pub proof fn lemma_only_one(c: Seq<nat>, i: int, j: int)
    requires
        total(c) == 1,
        0 <= i < c.len(),
        0 <= j < c.len(),
        c[i] == 1,
        c[j] == 1,
    ensures
        i == j,
{
    if i != j {
        lemma_total_at(c, i);
        lemma_total_at(c.update(i, 0), j);
    }
}

pub proof fn lemma_some_one(c: Seq<nat>)
    requires
        total(c) == 1,
    ensures
        exists|j: int| 0 <= j < c.len() && #[trigger] c[j] == 1,
    decreases c.len(),
{
    if c.last() == 1 {
        assert(c[c.len() - 1] == 1);
    } else {
        lemma_some_one(c.drop_last());
        let j = choose|j: int| 0 <= j < c.drop_last().len() && #[trigger] c.drop_last()[j] == 1;
        assert(c[j] == 1);
    }
}

/// Fills the table for the given types.
pub fn fill_table(types: Vec<GpfType>, type_to_spec: Vec<Vec<usize>>) -> (r: GpfTable)
    requires
        capacity(full_set(types@)) <= usize::MAX,
        reach(types@, full_set(types@)) <= u32::MAX,
        type_to_spec@.len() == types@.len(),
        forall|t: int|
            0 <= t < types@.len() ==> (#[trigger] type_to_spec@[t])@.len() == types@[t].count,
    ensures
        r.wf(),
        r.types@ == types@,
        r.type_to_spec@ == type_to_spec@,
{
    let mut full: Vec<u32> = Vec::new();
    let mut t: usize = 0;
    while t < types.len()
        invariant
            t <= types@.len(),
            full@.len() == t,
            forall|i: int| 0 <= i < t ==> #[trigger] full@[i] == types@[i].count,
        decreases types@.len() - t,
    {
        full.push(types[t].count);
        t += 1;
    }
    assert(nats(full@) =~= full_set(types@));
    let n: usize = number_of_splits(&full);
    let mut cells: Vec<StepFn> = Vec::new();
    proof {
        lemma_capacity_pos(nats(full@));
    }
    cells.push(Vec::new());
    let mut k: usize = 1;
    while k < n
        invariant
            1 <= k <= n,
            n == capacity(nats(full@)),
            nats(full@) == full_set(types@),
            capacity(nats(full@)) <= usize::MAX,
            reach(types@, nats(full@)) <= u32::MAX,
            cells@.len() == k,
            cells@[0]@.len() == 0,
            cells_ok(types@, cells@, k as nat),
        decreases n - k,
    {
        let counts = decode_split(&full, k);
        proof {
            law_digits_then_index(k as nat, nats(full@));
            if total(nats(counts@)) == 0 {
                lemma_index_zero(nats(counts@), nats(full@));
            }
        }
        let f = fill_cell(&types, &cells, &counts, &full, k);
        let ghost before = cells@;
        cells.push(f);
        assert forall|j: int| 1 <= j < k + 1 implies layout_of(
            types@,
            digits(j as nat, full_set(types@)),
            (#[trigger] cells@[j])@,
        ) by {
            if j < k {
                assert(cells@[j] == before[j]);
            }
        }
        k += 1;
    }
    GpfTable { types, cells, type_to_spec }
}

} // verus!
