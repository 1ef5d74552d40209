//! Layout functions of what goes on one sheet.

use vstd::prelude::*;

use crate::gpf::table::{
    cut_at, fits, law_fits_is_monotone, lemma_split_exists, lemma_split_gives, lemma_total_minus,
    lemma_total_part, minus, part_of, single_fits, total, via_split, GpfType,
};
use crate::gpf::{
    h_cut, height_at, law_width_is_inverse, lemma_height_at, lemma_transposed, lesser_of, min_fn,
    stepped, sum_of, sums_fit, transposed, v_cut, width_at, StepFn,
};

verus! {

/// What fits and is not nothing has room.
pub proof fn lemma_fits_room(types: Seq<GpfType>, c: Seq<nat>, w: int, h: int)
    requires
        fits(types, c, w, h),
        total(c) > 0,
    ensures
        w >= 0,
        h >= 0,
    decreases total(c),
{
    if total(c) > 1 {
        let d = lemma_split_exists(types, c, w, h);
        let e = minus(c, d);
        lemma_total_minus(c, d);
        if exists|h1: int| #[trigger]
            cut_at(h1) && fits(types, d, w, h1) && fits(types, e, w, h - h1) {
            let h1 = choose|h1: int| #[trigger]
                cut_at(h1) && fits(types, d, w, h1) && fits(types, e, w, h - h1);
            lemma_fits_room(types, d, w, h1);
            lemma_fits_room(types, e, w, h - h1);
        } else {
            let w1 = choose|w1: int| #[trigger]
                cut_at(w1) && fits(types, d, w1, h) && fits(types, e, w - w1, h);
            lemma_fits_room(types, d, w1, h);
            lemma_fits_room(types, e, w - w1, h);
        }
    }
}

/// The common part of two counts.
spec fn shared(a: Seq<nat>, b: Seq<nat>) -> Seq<nat> {
    Seq::new(
        a.len(),
        |i: int|
            if a[i] <= b[i] {
                a[i]
            } else {
                b[i]
            },
    )
}

pub proof fn lemma_total_zero(c: Seq<nat>)
    requires
        total(c) == 0,
    ensures
        forall|i: int| 0 <= i < c.len() ==> #[trigger] c[i] == 0,
    decreases c.len(),
{
    if c.len() > 0 {
        lemma_total_zero(c.drop_last());
        assert forall|i: int| 0 <= i < c.len() implies #[trigger] c[i] == 0 by {
            if i < c.len() - 1 {
                assert(c.drop_last()[i] == c[i]);
            }
        }
    }
}

/// What fits in a rectangle fits with fewer pieces.
pub proof fn law_fits_with_fewer(types: Seq<GpfType>, c: Seq<nat>, d: Seq<nat>, w: int, h: int)
    requires
        fits(types, c, w, h),
        part_of(d, c),
    ensures
        fits(types, d, w, h),
    decreases total(c),
{
    lemma_total_part(d, c);
    if total(d) == 0 {
    } else if total(d) == total(c) {
        assert(d =~= c);
    } else {
        let a = lemma_split_exists(types, c, w, h);
        let b = minus(c, a);
        lemma_total_minus(c, a);
        let da = shared(d, a);
        let db = minus(d, da);
        assert(part_of(da, a));
        assert(part_of(da, d)) by {
            assert forall|i: int| 0 <= i < d.len() implies #[trigger] da[i] <= d[i] by {}
        }
        assert(part_of(db, b)) by {
            assert forall|i: int| 0 <= i < b.len() implies #[trigger] db[i] <= b[i] by {
                assert(a[i] <= c[i] && d[i] <= c[i]);
            }
        }
        lemma_total_minus(d, da);
        if exists|h1: int| #[trigger]
            cut_at(h1) && fits(types, a, w, h1) && fits(types, b, w, h - h1) {
            let h1 = choose|h1: int| #[trigger]
                cut_at(h1) && fits(types, a, w, h1) && fits(types, b, w, h - h1);
            lemma_fits_room(types, a, w, h1);
            lemma_fits_room(types, b, w, h - h1);
            law_fits_with_fewer(types, a, da, w, h1);
            law_fits_with_fewer(types, b, db, w, h - h1);
            if total(da) == 0 {
                lemma_total_zero(da);
                assert(db =~= d);
                law_fits_is_monotone(types, d, w, h - h1, w, h);
            } else if total(db) == 0 {
                lemma_total_zero(db);
                assert(da =~= d);
                law_fits_is_monotone(types, d, w, h1, w, h);
            } else {
                assert(via_split(types, da, minus(d, da), w, h)) by {
                    assert(cut_at(h1) && fits(types, da, w, h1) && fits(types, minus(d, da), w, h - h1));
                }
                lemma_split_gives(types, d, da, w, h);
            }
        } else {
            let w1 = choose|w1: int| #[trigger]
                cut_at(w1) && fits(types, a, w1, h) && fits(types, b, w - w1, h);
            lemma_fits_room(types, a, w1, h);
            lemma_fits_room(types, b, w - w1, h);
            law_fits_with_fewer(types, a, da, w1, h);
            law_fits_with_fewer(types, b, db, w - w1, h);
            if total(da) == 0 {
                lemma_total_zero(da);
                assert(db =~= d);
                law_fits_is_monotone(types, d, w - w1, h, w, h);
            } else if total(db) == 0 {
                lemma_total_zero(db);
                assert(da =~= d);
                law_fits_is_monotone(types, d, w1, h, w, h);
            } else {
                assert(via_split(types, da, minus(d, da), w, h)) by {
                    assert(cut_at(w1) && fits(types, da, w1, h) && fits(types, minus(d, da), w - w1, h));
                }
                lemma_split_gives(types, d, da, w, h);
            }
        }
    }
}

/// The area of all pieces.
pub open spec fn area_of(types: Seq<GpfType>, c: Seq<nat>) -> int
    decreases c.len(),
{
    if c.len() == 0 {
        0
    } else {
        area_of(types.drop_last(), c.drop_last()) + c.last() * (types.last().width
            * types.last().height)
    }
}

proof fn lemma_area_split(types: Seq<GpfType>, c: Seq<nat>, d: Seq<nat>)
    requires
        part_of(d, c),
        types.len() == c.len(),
    ensures
        area_of(types, d) + area_of(types, minus(c, d)) == area_of(types, c),
    decreases c.len(),
{
    if c.len() > 0 {
        let (c2, d2) = (c.drop_last(), d.drop_last());
        assert(part_of(d2, c2)) by {
            assert forall|i: int| 0 <= i < c2.len() implies #[trigger] d2[i] <= c2[i] by {
                assert(d[i] <= c[i]);
            }
        }
        lemma_area_split(types.drop_last(), c2, d2);
        let e = minus(c, d);
        assert(e.drop_last() =~= minus(c2, d2));
        let a = types.last().width * types.last().height;
        let k = c.len() - 1;
        assert(d[k] <= c[k]);
        assert(d[k] * a + (c[k] - d[k]) * a == c[k] * a) by (nonlinear_arith);
    }
}

proof fn lemma_area_single(types: Seq<GpfType>, c: Seq<nat>, i: int)
    requires
        types.len() == c.len(),
        total(c) == 1,
        0 <= i < c.len(),
        c[i] == 1,
    ensures
        area_of(types, c) == types[i].width * types[i].height,
    decreases c.len(),
{
    let (t2, c2) = (types.drop_last(), c.drop_last());
    if i == c.len() - 1 {
        lemma_area_none(t2, c2);
    } else {
        crate::gpf::table::lemma_total_at(c2, i);
        assert(c2[i] == 1);
        lemma_area_single(t2, c2, i);
        assert(c.last() == 0);
    }
}

proof fn lemma_area_none(types: Seq<GpfType>, c: Seq<nat>)
    requires
        types.len() == c.len(),
        total(c) == 0,
    ensures
        area_of(types, c) == 0,
    decreases c.len(),
{
    if c.len() > 0 {
        lemma_area_none(types.drop_last(), c.drop_last());
        let a = types.last().width * types.last().height;
        assert(c.last() * a == 0) by (nonlinear_arith)
            requires
                c.last() == 0,
        ;
    }
}

/// What fits has no more area than the rectangle.
pub proof fn law_fits_by_area(types: Seq<GpfType>, c: Seq<nat>, w: int, h: int)
    requires
        fits(types, c, w, h),
        types.len() == c.len(),
        w >= 0,
        h >= 0,
    ensures
        area_of(types, c) <= w * h,
    decreases total(c),
{
    if total(c) == 0 {
        lemma_area_none(types, c);
        assert(0 <= w * h) by (nonlinear_arith)
            requires
                w >= 0,
                h >= 0,
        ;
    } else if total(c) == 1 {
        let i = choose|i: int| 0 <= i < c.len() && #[trigger] c[i] == 1 && single_fits(types[i], w, h);
        lemma_area_single(types, c, i);
        let (a, b) = (types[i].width as int, types[i].height as int);
        assert(a * b <= w * h) by (nonlinear_arith)
            requires
                0 <= a,
                0 <= b,
                (a <= w && b <= h) || (b <= w && a <= h),
        ;
    } else {
        let d = lemma_split_exists(types, c, w, h);
        let e = minus(c, d);
        lemma_total_minus(c, d);
        lemma_area_split(types, c, d);
        if exists|h1: int| #[trigger]
            cut_at(h1) && fits(types, d, w, h1) && fits(types, e, w, h - h1) {
            let h1 = choose|h1: int| #[trigger]
                cut_at(h1) && fits(types, d, w, h1) && fits(types, e, w, h - h1);
            lemma_fits_room(types, d, w, h1);
            lemma_fits_room(types, e, w, h - h1);
            law_fits_by_area(types, d, w, h1);
            law_fits_by_area(types, e, w, h - h1);
            assert(w * h1 + w * (h - h1) == w * h) by (nonlinear_arith);
        } else {
            let w1 = choose|w1: int| #[trigger]
                cut_at(w1) && fits(types, d, w1, h) && fits(types, e, w - w1, h);
            lemma_fits_room(types, d, w1, h);
            lemma_fits_room(types, e, w - w1, h);
            law_fits_by_area(types, d, w1, h);
            law_fits_by_area(types, e, w - w1, h);
            assert(w1 * h + (w - w1) * h == w * h) by (nonlinear_arith);
        }
    }
}

/// The function has a value at `w` that is no more than `h`.
pub open spec fn reaches(f: Seq<(u32, u32)>, w: int, h: int) -> bool {
    height_at(f, w) matches Some(v) && v <= h
}

/// The lesser of two numbers.
pub open spec fn lesser(a: int, b: int) -> int {
    if a <= b {
        a
    } else {
        b
    }
}

/// No breakpoint is outside the sheet.
pub open spec fn inside(f: Seq<(u32, u32)>, sw: int, sh: int) -> bool {
    forall|i: int| 0 <= i < f.len() ==> (#[trigger] f[i]).0 <= sw && f[i].1 <= sh
}

/// `f` is the layout function of the pieces as far as it lies inside the sheet.
pub open spec fn clipped_layout(
    types: Seq<GpfType>,
    c: Seq<nat>,
    sw: int,
    sh: int,
    f: Seq<(u32, u32)>,
) -> bool {
    &&& stepped(f)
    &&& inside(f, sw, sh)
    &&& forall|w: int, h: int| #[trigger]
        reaches(f, w, h) <==> fits(types, c, lesser(w, sw), lesser(h, sh))
}

/// A value is reached where some breakpoint gives it.
pub proof fn lemma_reaches(f: Seq<(u32, u32)>, w: int, h: int)
    requires
        stepped(f),
    ensures
        reaches(f, w, h) <==> exists|i: int|
            0 <= i < f.len() && (#[trigger] f[i]).0 <= w && f[i].1 <= h,
{
    lemma_height_at(f, w);
    if exists|i: int| 0 <= i < f.len() && (#[trigger] f[i]).0 <= w && f[i].1 <= h {
        let i = choose|i: int| 0 <= i < f.len() && (#[trigger] f[i]).0 <= w && f[i].1 <= h;
        let v = height_at(f, w)->0;
        let j = choose|j: int|
            0 <= j < f.len() && (#[trigger] f[j]).0 <= w && f[j].1 == v && (j + 1 < f.len()
                ==> f[j + 1].0 > w);
        if i > j + 1 {
            assert(f[j + 1].0 < f[i].0);
        }
        if i < j {
            assert(f[i].1 > f[j].1);
        }
    }
}

/// Drops breakpoints that are outside the sheet.
pub fn clip_to_sheet(f: &StepFn, sheet_w: u32, sheet_h: u32) -> (r: StepFn)
    requires
        stepped(f@),
    ensures
        stepped(r@),
        inside(r@, sheet_w as int, sheet_h as int),
        forall|w: int, h: int| #[trigger]
            reaches(r@, w, h) <==> reaches(
                f@,
                lesser(w, sheet_w as int),
                lesser(h, sheet_h as int),
            ),
{
    let mut out: StepFn = Vec::new();
    let mut k: usize = 0;
    while k < f.len()
        invariant
            k <= f@.len(),
            stepped(f@),
            stepped(out@),
            inside(out@, sheet_w as int, sheet_h as int),
            forall|i: int|
                0 <= i < out@.len() ==> exists|j: int|
                    0 <= j < k && f@[j] == #[trigger] out@[i],
            forall|j: int|
                0 <= j < k && (#[trigger] f@[j]).0 <= sheet_w && f@[j].1 <= sheet_h
                    ==> out@.contains(f@[j]),
        decreases f@.len() - k,
    {
        let p = f[k];
        let ghost before = out@;
        if p.0 <= sheet_w && p.1 <= sheet_h {
            out.push(p);
            proof {
                assert forall|i: int, j: int| 0 <= i < j < out@.len() implies (#[trigger] out@[i]).0
                    < (#[trigger] out@[j]).0 && out@[i].1 > out@[j].1 by {
                    if j == before.len() {
                        let q = choose|q: int| 0 <= q < k && f@[q] == before[i];
                        assert(f@[q].0 < f@[k as int].0 && f@[q].1 > f@[k as int].1);
                    } else {
                        assert(before[i].0 < before[j].0 && before[i].1 > before[j].1);
                    }
                }
                assert forall|i: int| 0 <= i < out@.len() implies exists|j: int|
                    0 <= j < k + 1 && f@[j] == #[trigger] out@[i] by {
                    if i < before.len() {
                        let q = choose|q: int| 0 <= q < k && f@[q] == before[i];
                        assert(f@[q] == out@[i]);
                    } else {
                        assert(f@[k as int] == out@[i]);
                    }
                }
                assert forall|j: int|
                    0 <= j < k + 1 && (#[trigger] f@[j]).0 <= sheet_w && f@[j].1
                        <= sheet_h implies out@.contains(f@[j]) by {
                    if j < k {
                        let q = choose|q: int| 0 <= q < before.len() && before[q] == f@[j];
                        assert(out@[q] == f@[j]);
                    } else {
                        assert(out@[before.len() as int] == f@[j]);
                    }
                }
            }
        }
        k += 1;
    }
    proof {
        let (sw, sh) = (sheet_w as int, sheet_h as int);
        assert forall|w: int, h: int| #[trigger]
            reaches(out@, w, h) <==> reaches(f@, lesser(w, sw), lesser(h, sh)) by {
            lemma_reaches(out@, w, h);
            lemma_reaches(f@, lesser(w, sw), lesser(h, sh));
            if reaches(out@, w, h) {
                let i = choose|i: int|
                    0 <= i < out@.len() && (#[trigger] out@[i]).0 <= w && out@[i].1 <= h;
                let j = choose|j: int| 0 <= j < k && f@[j] == out@[i];
                assert(f@[j].0 <= lesser(w, sw) && f@[j].1 <= lesser(h, sh));
            }
            if reaches(f@, lesser(w, sw), lesser(h, sh)) {
                let j = choose|j: int|
                    0 <= j < f@.len() && (#[trigger] f@[j]).0 <= lesser(w, sw) && f@[j].1
                        <= lesser(h, sh);
                assert(out@.contains(f@[j]));
                let i = choose|i: int| 0 <= i < out@.len() && out@[i] == f@[j];
                assert(out@[i].0 <= w && out@[i].1 <= h);
            }
        }
    }
    out
}

/// One layout on top of the other, or beside it, goes into `w` x `h`.
pub open spec fn joins(f: Seq<(u32, u32)>, g: Seq<(u32, u32)>, w: int, h: int) -> bool {
    ||| sum_of(height_at(f, w), height_at(g, w)) matches Some(v) && v <= h
    ||| sum_of(width_at(f, h), width_at(g, h)) matches Some(v) && v <= w
}

/// Values and widths of a function inside the sheet are those of the sheet at most.
pub proof fn lemma_inside(f: Seq<(u32, u32)>, sw: int, sh: int, x: int)
    requires
        stepped(f),
        inside(f, sw, sh),
    ensures
        height_at(f, x) matches Some(v) ==> 0 <= v <= sh,
        width_at(f, x) matches Some(v) ==> 0 <= v <= sw,
{
    lemma_height_at(f, x);
    lemma_transposed(f, x);
    lemma_height_at(transposed(f), x);
}

/// The better of stacking two layouts and putting them side by side.
pub(crate) fn join_layouts(f: &StepFn, g: &StepFn, Ghost(sw): Ghost<int>, Ghost(sh): Ghost<int>) -> (r:
    StepFn)
    requires
        stepped(f@),
        stepped(g@),
        inside(f@, sw, sh),
        inside(g@, sw, sh),
        2 * sw <= u32::MAX,
        2 * sh <= u32::MAX,
    ensures
        stepped(r@),
        forall|w: int, h: int| #[trigger] reaches(r@, w, h) <==> joins(f@, g@, w, h),
{
    proof {
        assert(sums_fit(f@, g@)) by {
            assert forall|x: int|
                #![trigger height_at(f@, x)]
                #![trigger height_at(g@, x)]
                sum_of(height_at(f@, x), height_at(g@, x)) is Some implies sum_of(height_at(f@, x), height_at(g@, x))->0 <= u32::MAX by {
                lemma_inside(f@, sw, sh, x);
                lemma_inside(g@, sw, sh, x);
            }
        }
        let (tf, tg) = (transposed(f@), transposed(g@));
        assert(sums_fit(tf, tg)) by {
            assert forall|x: int|
                #![trigger height_at(tf, x)]
                #![trigger height_at(tg, x)]
                sum_of(height_at(tf, x), height_at(tg, x)) is Some implies sum_of(height_at(tf, x), height_at(tg, x))->0 <= u32::MAX by {
                lemma_transposed(f@, x);
                lemma_transposed(g@, x);
                lemma_inside(f@, sw, sh, x);
                lemma_inside(g@, sw, sh, x);
            }
        }
    }
    let fh = h_cut(f, g);
    let fv = v_cut(f, g);
    let r = min_fn(&fh, &fv);
    proof {
        assert forall|w: int, h: int| #[trigger] reaches(r@, w, h) <==> joins(f@, g@, w, h) by {
            assert(height_at(r@, w) == lesser_of(height_at(fh@, w), height_at(fv@, w)));
            assert(height_at(fh@, w) == sum_of(height_at(f@, w), height_at(g@, w)));
            assert(width_at(fv@, h) == sum_of(width_at(f@, h), width_at(g@, h)));
            law_width_is_inverse(fv@, w, h);
        }
    }
    r
}

/// Inside the sheet, two layouts go together exactly where a cut shares the pieces out to them.
pub proof fn lemma_joins_is_split(
    types: Seq<GpfType>,
    a: Seq<nat>,
    b: Seq<nat>,
    f: Seq<(u32, u32)>,
    g: Seq<(u32, u32)>,
    sw: int,
    sh: int,
    w: int,
    h: int,
)
    requires
        clipped_layout(types, a, sw, sh, f),
        clipped_layout(types, b, sw, sh, g),
        total(a) > 0,
        total(b) > 0,
        w <= sw,
        h <= sh,
    ensures
        joins(f, g, w, h) <==> via_split(types, a, b, w, h),
{
    let (p, q) = (height_at(f, w), height_at(g, w));
    let (u, v) = (width_at(f, h), width_at(g, h));
    lemma_inside(f, sw, sh, w);
    lemma_inside(g, sw, sh, w);
    lemma_inside(f, sw, sh, h);
    lemma_inside(g, sw, sh, h);
    if p is Some && q is Some && p->0 + q->0 <= h {
        assert(reaches(f, w, p->0));
        assert(reaches(g, w, h - p->0));
        assert(cut_at(p->0) && fits(types, a, w, p->0) && fits(types, b, w, h - p->0));
    }
    if u is Some && v is Some && u->0 + v->0 <= w {
        law_width_is_inverse(f, u->0, h);
        law_width_is_inverse(g, w - u->0, h);
        assert(reaches(f, u->0, h));
        assert(reaches(g, w - u->0, h));
        assert(cut_at(u->0) && fits(types, a, u->0, h) && fits(types, b, w - u->0, h));
    }
    if exists|h1: int| #[trigger] cut_at(h1) && fits(types, a, w, h1) && fits(types, b, w, h - h1) {
        let h1 = choose|h1: int| #[trigger]
            cut_at(h1) && fits(types, a, w, h1) && fits(types, b, w, h - h1);
        lemma_fits_room(types, a, w, h1);
        lemma_fits_room(types, b, w, h - h1);
        assert(reaches(f, w, h1));
        assert(reaches(g, w, h - h1));
    }
    if exists|w1: int| #[trigger] cut_at(w1) && fits(types, a, w1, h) && fits(types, b, w - w1, h) {
        let w1 = choose|w1: int| #[trigger]
            cut_at(w1) && fits(types, a, w1, h) && fits(types, b, w - w1, h);
        lemma_fits_room(types, a, w1, h);
        lemma_fits_room(types, b, w - w1, h);
        assert(reaches(f, w1, h));
        assert(reaches(g, w - w1, h));
        law_width_is_inverse(f, w1, h);
        law_width_is_inverse(g, w - w1, h);
    }
}

/// A prefix of pieces and one more, side by side or stacked, inside the sheet. Without
/// breakpoints the two do not go on one sheet in this way.
pub fn compose(prefix: &StepFn, base: &StepFn, sheet_w: u32, sheet_h: u32) -> (r: StepFn)
    requires
        stepped(prefix@),
        stepped(base@),
        inside(prefix@, sheet_w as int, sheet_h as int),
        inside(base@, sheet_w as int, sheet_h as int),
        2 * sheet_w <= u32::MAX,
        2 * sheet_h <= u32::MAX,
    ensures
        stepped(r@),
        inside(r@, sheet_w as int, sheet_h as int),
        forall|w: int, h: int| #[trigger]
            reaches(r@, w, h) <==> joins(
                prefix@,
                base@,
                lesser(w, sheet_w as int),
                lesser(h, sheet_h as int),
            ),
{
    let both = join_layouts(prefix, base, Ghost(sheet_w as int), Ghost(sheet_h as int));
    let r = clip_to_sheet(&both, sheet_w, sheet_h);
    proof {
        let (sw, sh) = (sheet_w as int, sheet_h as int);
        assert forall|w: int, h: int| #[trigger]
            reaches(r@, w, h) <==> joins(prefix@, base@, lesser(w, sw), lesser(h, sh)) by {
            assert(reaches(both@, lesser(w, sw), lesser(h, sh)) <==> joins(
                prefix@,
                base@,
                lesser(w, sw),
                lesser(h, sh),
            ));
        }
    }
    r
}

} // verus!
