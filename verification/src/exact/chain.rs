//! Layouts that grow by one piece at a time.

use vstd::prelude::*;

use super::fitting::{inside, joins, lemma_inside, lesser, reaches};
use super::oracle::{kinds, types_ok, PType};
use super::selection::one_more;
use crate::gpf::recon::{
    lays_out, lemma_beside, lemma_lone, lemma_spots_concat, lemma_stacked, lemma_width_value,
    region, spot_cells, spots_of_type, TypeSpot,
};
use crate::gpf::table::{
    cut_at, fits, lemma_split_gives, lemma_total_at, lemma_total_minus, minus, part_of, proper_part,
    single_fits, total, via_split, GpfType,
};
use crate::gpf::{
    eval_f, eval_f_inv, height_at, law_width_is_inverse, stepped, sum_of, width_at, StepFn,
};
use crate::layout::{slices, slicing_ok, Slicing};

verus! {

/// One piece of type `t`.
pub open spec fn unit(n: nat, t: int) -> Seq<nat> {
    Seq::new(
        n,
        |i: int|
            if i == t {
                1nat
            } else {
                0nat
            },
    )
}

/// How many pieces of each of `n` types a list has.
pub open spec fn tally(list: Seq<usize>, n: nat) -> Seq<nat>
    decreases list.len(),
{
    if list.len() == 0 {
        Seq::new(n, |t: int| 0nat)
    } else {
        one_more(tally(list.drop_last(), n), list.last() as int)
    }
}

proof fn lemma_total_none(c: Seq<nat>)
    requires
        forall|i: int| 0 <= i < c.len() ==> #[trigger] c[i] == 0,
    ensures
        total(c) == 0,
    decreases c.len(),
{
    if c.len() > 0 {
        let d = c.drop_last();
        assert forall|i: int| 0 <= i < d.len() implies #[trigger] d[i] == 0 by {
            assert(c[i] == 0);
        }
        lemma_total_none(d);
        assert(c[c.len() - 1] == 0);
    }
}

pub proof fn lemma_unit(n: nat, t: int)
    requires
        0 <= t < n,
    ensures
        total(unit(n, t)) == 1,
{
    lemma_total_at(unit(n, t), t);
    lemma_total_none(unit(n, t).update(t, 0));
}

/// One more piece: what is new is that piece.
pub proof fn lemma_one_more(c: Seq<nat>, t: int)
    requires
        0 <= t < c.len(),
    ensures
        total(one_more(c, t)) == total(c) + 1,
        part_of(c, one_more(c, t)),
        minus(one_more(c, t), c) == unit(c.len(), t),
        total(c) > 0 ==> proper_part(c, one_more(c, t)),
{
    let d = one_more(c, t);
    assert(minus(d, c) =~= unit(c.len(), t));
    assert(part_of(c, d));
    lemma_total_minus(d, c);
    lemma_unit(c.len(), t);
}

pub proof fn lemma_tally_total(list: Seq<usize>, n: nat)
    requires
        forall|i: int| 0 <= i < list.len() ==> (#[trigger] list[i]) < n,
    ensures
        total(tally(list, n)) == list.len(),
        tally(list, n).len() == n,
    decreases list.len(),
{
    if list.len() == 0 {
        lemma_total_none(tally(list, n));
    } else {
        let d = list.drop_last();
        assert forall|i: int| 0 <= i < d.len() implies (#[trigger] d[i]) < n by {
            assert(list[i] < n);
        }
        lemma_tally_total(d, n);
        lemma_one_more(tally(d, n), list.last() as int);
    }
}

/// Wherever the function has a value, the pieces fit.
pub open spec fn achieves(
    types: Seq<GpfType>,
    c: Seq<nat>,
    sw: int,
    sh: int,
    f: Seq<(u32, u32)>,
) -> bool {
    &&& stepped(f)
    &&& inside(f, sw, sh)
    &&& forall|w: int, h: int| #[trigger] reaches(f, w, h) ==> fits(types, c, w, h)
}

/// `f` is the prefix `p` composed with a base function.
pub open spec fn composed(
    p: Seq<(u32, u32)>,
    base: Seq<(u32, u32)>,
    sw: int,
    sh: int,
    f: Seq<(u32, u32)>,
) -> bool {
    &&& stepped(f)
    &&& inside(f, sw, sh)
    &&& forall|w: int, h: int| #[trigger]
        reaches(f, w, h) <==> joins(p, base, lesser(w, sw), lesser(h, sh))
}

/// The base function of a type gives heights at which one piece of it fits.
pub proof fn lemma_base_achieves(types: Seq<PType>, sw: int, sh: int, t: int)
    requires
        types_ok(types, sw, sh),
        0 <= t < types.len(),
    ensures
        achieves(kinds(types), unit(types.len(), t), sw, sh, types[t].base@),
{
    let ts = kinds(types);
    let c = unit(types.len(), t);
    let f = types[t].base@;
    assert(types[t].based(sw, sh));
    lemma_unit(types.len(), t);
    assert forall|w: int, h: int| #[trigger] reaches(f, w, h) implies fits(ts, c, w, h) by {
        assert(single_fits(ts[t], w, h));
        assert(c[t] == 1 && single_fits(ts[t], w, h));
    }
}

/// A composed function gives heights at which the pieces of the prefix and one more fit.
pub proof fn lemma_composed_achieves(
    types: Seq<PType>,
    c: Seq<nat>,
    sw: int,
    sh: int,
    t: int,
    p: Seq<(u32, u32)>,
    f: Seq<(u32, u32)>,
)
    requires
        types_ok(types, sw, sh),
        0 <= t < types.len(),
        c.len() == types.len(),
        total(c) > 0,
        achieves(kinds(types), c, sw, sh, p),
        composed(p, types[t].base@, sw, sh, f),
    ensures
        achieves(kinds(types), one_more(c, t), sw, sh, f),
{
    let ts = kinds(types);
    let g = types[t].base@;
    let d = one_more(c, t);
    let e = unit(types.len(), t);
    lemma_base_achieves(types, sw, sh, t);
    lemma_one_more(c, t);
    assert forall|w0: int, h0: int| #[trigger] reaches(f, w0, h0) implies fits(ts, d, w0, h0) by {
        let (w, h) = (lesser(w0, sw), lesser(h0, sh));
        let (a, b) = (height_at(p, w), height_at(g, w));
        let (u, v) = (width_at(p, h), width_at(g, h));
        lemma_inside(p, sw, sh, w);
        lemma_inside(g, sw, sh, w);
        lemma_inside(p, sw, sh, h);
        lemma_inside(g, sw, sh, h);
        if a is Some && b is Some && a->0 + b->0 <= h {
            assert(reaches(p, w, a->0));
            assert(reaches(g, w, h - a->0));
            assert(cut_at(a->0) && fits(ts, c, w, a->0) && fits(ts, e, w, h - a->0));
        } else {
            law_width_is_inverse(p, u->0, h);
            law_width_is_inverse(g, w - u->0, h);
            assert(reaches(p, u->0, h));
            assert(reaches(g, w - u->0, h));
            assert(cut_at(u->0) && fits(ts, c, u->0, h) && fits(ts, e, w - u->0, h));
        }
        assert(via_split(ts, c, minus(d, c), w, h));
        lemma_split_gives(ts, d, c, w, h);
        crate::gpf::table::law_fits_is_monotone(ts, d, w, h, w0, h0);
    }
}

/// The functions of a chain of pieces: each is the one before composed with the next piece.
pub open spec fn chained(
    types: Seq<PType>,
    list: Seq<usize>,
    fs: Seq<StepFn>,
    sw: int,
    sh: int,
) -> bool {
    &&& fs.len() == list.len()
    &&& forall|i: int| 0 <= i < list.len() ==> (#[trigger] list[i]) < types.len()
    &&& fs.len() > 0 ==> fs[0]@ == types[list[0] as int].base@
    &&& forall|i: int|
        0 < i < fs.len() ==> composed(
            fs[i - 1]@,
            types[list[i] as int].base@,
            sw,
            sh,
            (#[trigger] fs[i])@,
        )
}

/// A chain with one more piece.
pub proof fn lemma_chain_push(
    types: Seq<PType>,
    list: Seq<usize>,
    fs: Seq<StepFn>,
    sw: int,
    sh: int,
    t: usize,
    f: StepFn,
)
    requires
        chained(types, list, fs, sw, sh),
        t < types.len(),
        fs.len() == 0 ==> f@ == types[t as int].base@,
        fs.len() > 0 ==> composed(fs.last()@, types[t as int].base@, sw, sh, f@),
    ensures
        chained(types, list.push(t), fs.push(f), sw, sh),
{
    let (l2, f2) = (list.push(t), fs.push(f));
    assert forall|i: int| 0 < i < f2.len() implies composed(
        f2[i - 1]@,
        types[l2[i] as int].base@,
        sw,
        sh,
        (#[trigger] f2[i])@,
    ) by {
        assert(f2[i - 1] == fs[i - 1]);
        if i < fs.len() {
            assert(f2[i] == fs[i] && l2[i] == list[i]);
        }
    }
    assert forall|i: int| 0 <= i < l2.len() implies (#[trigger] l2[i]) < types.len() by {
        if i < list.len() {
            assert(list[i] < types.len());
        }
    }
}

/// The pieces of a chain fit where its last function has a value.
pub proof fn lemma_chain_achieves(
    types: Seq<PType>,
    list: Seq<usize>,
    fs: Seq<StepFn>,
    sw: int,
    sh: int,
    i: int,
)
    requires
        types_ok(types, sw, sh),
        chained(types, list, fs, sw, sh),
        0 <= i < list.len(),
    ensures
        achieves(kinds(types), tally(list.take(i + 1), types.len()), sw, sh, fs[i]@),
        total(tally(list.take(i + 1), types.len())) > 0,
    decreases i,
{
    let n = types.len();
    let l = list.take(i + 1);
    assert(l.drop_last() =~= list.take(i));
    let t = list[i] as int;
    assert forall|k: int| 0 <= k < l.len() implies (#[trigger] l[k]) < n by {
        assert(list[k] < n);
    }
    lemma_tally_total(l, n);
    if i == 0 {
        lemma_base_achieves(types, sw, sh, t);
        assert(tally(list.take(0), n) =~= Seq::new(n, |t: int| 0nat));
        assert(tally(l, n) =~= unit(n, t));
    } else {
        lemma_chain_achieves(types, list, fs, sw, sh, i - 1);
        let d = list.take(i);
        assert forall|k: int| 0 <= k < d.len() implies (#[trigger] d[k]) < n by {
            assert(list[k] < n);
        }
        lemma_tally_total(d, n);
        lemma_composed_achieves(
            types,
            tally(list.take(i), n),
            sw,
            sh,
            t,
            fs[i - 1]@,
            fs[i]@,
        );
    }
}

/// The pieces of a list go into `w` x `h` one after the other: one that fits, or the last cut off
/// by one cut from the others, which go into the rest in the same way.
pub open spec fn chain_fits(types: Seq<GpfType>, list: Seq<usize>, w: int, h: int) -> bool
    decreases list.len(),
{
    if list.len() == 0 {
        true
    } else if list.len() == 1 {
        single_fits(types[list[0] as int], w, h)
    } else {
        let t = types[list.last() as int];
        ||| exists|h1: int| #[trigger]
            cut_at(h1) && chain_fits(types, list.drop_last(), w, h1) && single_fits(t, w, h - h1)
        ||| exists|w1: int| #[trigger]
            cut_at(w1) && chain_fits(types, list.drop_last(), w1, h) && single_fits(t, w - w1, h)
    }
}

/// `h` is the least height at which the list goes into the width `w`.
pub open spec fn least_height(types: Seq<GpfType>, list: Seq<usize>, w: int, h: int) -> bool {
    chain_fits(types, list, w, h) && !chain_fits(types, list, w, h - 1)
}

/// `w` is the least width at which the list goes into the height `h`.
pub open spec fn least_width(types: Seq<GpfType>, list: Seq<usize>, w: int, h: int) -> bool {
    chain_fits(types, list, w, h) && !chain_fits(types, list, w - 1, h)
}

/// The last piece of a list goes below the others: their least heights at the width `w` are `h1`
/// and the rest of `h`.
pub open spec fn goes_below(
    types: Seq<GpfType>,
    list: Seq<usize>,
    w: int,
    h: int,
    h1: int,
) -> bool {
    &&& least_height(types, list.drop_last(), w, h1)
    &&& least_height(types, seq![list.last()], w, h - h1)
}

/// The spots of a list in `w` x `h`, the last piece first. It lies below the others where the
/// least heights add up to `h`, else to the right of them, at their least width; the others lie
/// in the corner at their least height. A piece is turned only where its cut leaves no other way.
pub open spec fn laid_in_turn(
    types: Seq<GpfType>,
    list: Seq<usize>,
    spots: Seq<TypeSpot>,
    w: int,
    h: int,
) -> bool
    decreases list.len(),
{
    let s = spots[0];
    let t = types[list.last() as int];
    let front = list.drop_last();
    let rest = spots.drop_first();
    &&& list.len() > 0
    &&& spots.len() == list.len()
    &&& s.type_idx == list.last()
    &&& if list.len() == 1 {
        s.x == 0 && s.y == 0 && s.rotated == !(t.width <= w && t.height <= h)
    } else if exists|h1: int| #[trigger] goes_below(types, list, w, h, h1) {
        &&& s.x == 0
        &&& goes_below(types, list, w, h, s.y as int)
        &&& s.rotated == !(t.height == h - s.y && t.width <= w)
        &&& laid_in_turn(types, front, rest, w, s.y as int)
    } else {
        &&& s.y == 0
        &&& least_width(types, front, s.x as int, h)
        &&& s.rotated == !(t.height <= h && least_width(
            types,
            seq![list.last()],
            t.width as int,
            h,
        ))
        &&& exists|h1: int| #[trigger]
            least_height(types, front, s.x as int, h1) && laid_in_turn(
                types,
                front,
                rest,
                s.x as int,
                h1,
            )
    }
}

/// Pieces that go in one after the other fit.
pub proof fn lemma_in_turn_fits(types: Seq<GpfType>, list: Seq<usize>, w: int, h: int)
    requires
        forall|i: int| 0 <= i < list.len() ==> (#[trigger] list[i]) < types.len(),
        chain_fits(types, list, w, h),
    ensures
        fits(types, tally(list, types.len()), w, h),
    decreases list.len(),
{
    let n = types.len();
    let c = tally(list, n);
    lemma_tally_total(list, n);
    if list.len() > 0 {
        let front = list.drop_last();
        let d = tally(front, n);
        let t = list.last() as int;
        let e = unit(n, t);
        assert(list[list.len() - 1] < n);
        assert forall|i: int| 0 <= i < front.len() implies (#[trigger] front[i]) < n by {
            assert(list[i] < n);
        }
        lemma_tally_total(front, n);
        lemma_one_more(d, t);
        lemma_unit(n, t);
        assert(e[t] == 1);
        if list.len() == 1 {
            assert(c[t] == 1);
        } else if exists|h1: int| #[trigger]
            cut_at(h1) && chain_fits(types, front, w, h1) && single_fits(types[t], w, h - h1) {
            let h1 = choose|h1: int| #[trigger]
                cut_at(h1) && chain_fits(types, front, w, h1) && single_fits(types[t], w, h - h1);
            lemma_in_turn_fits(types, front, w, h1);
            assert(cut_at(h1) && fits(types, d, w, h1) && fits(types, e, w, h - h1));
            lemma_split_gives(types, c, d, w, h);
        } else {
            let w1 = choose|w1: int| #[trigger]
                cut_at(w1) && chain_fits(types, front, w1, h) && single_fits(types[t], w - w1, h);
            lemma_in_turn_fits(types, front, w1, h);
            assert(cut_at(w1) && fits(types, d, w1, h) && fits(types, e, w - w1, h));
            lemma_split_gives(types, c, d, w, h);
        }
    }
}

/// A list that goes into a rectangle goes into a larger one.
pub proof fn lemma_chain_monotone(
    types: Seq<GpfType>,
    list: Seq<usize>,
    w: int,
    h: int,
    w2: int,
    h2: int,
)
    requires
        chain_fits(types, list, w, h),
        w <= w2,
        h <= h2,
    ensures
        chain_fits(types, list, w2, h2),
    decreases list.len(),
{
    if list.len() > 1 {
        let t = types[list.last() as int];
        let front = list.drop_last();
        if exists|h1: int| #[trigger]
            cut_at(h1) && chain_fits(types, front, w, h1) && single_fits(t, w, h - h1) {
            let h1 = choose|h1: int| #[trigger]
                cut_at(h1) && chain_fits(types, front, w, h1) && single_fits(t, w, h - h1);
            lemma_chain_monotone(types, front, w, h1, w2, h1);
            assert(cut_at(h1) && chain_fits(types, front, w2, h1) && single_fits(t, w2, h2 - h1));
        } else {
            let w1 = choose|w1: int| #[trigger]
                cut_at(w1) && chain_fits(types, front, w1, h) && single_fits(t, w - w1, h);
            lemma_chain_monotone(types, front, w1, h, w1, h2);
            assert(cut_at(w1) && chain_fits(types, front, w1, h2) && single_fits(t, w2 - w1, h2));
        }
    }
}

/// What goes in with one more piece goes in without it.
pub proof fn lemma_chain_front(types: Seq<GpfType>, list: Seq<usize>, w: int, h: int)
    requires
        list.len() > 0,
        chain_fits(types, list, w, h),
    ensures
        chain_fits(types, list.drop_last(), w, h),
{
    if list.len() > 1 {
        let t = types[list.last() as int];
        let front = list.drop_last();
        if exists|h1: int| #[trigger]
            cut_at(h1) && chain_fits(types, front, w, h1) && single_fits(t, w, h - h1) {
            let h1 = choose|h1: int| #[trigger]
                cut_at(h1) && chain_fits(types, front, w, h1) && single_fits(t, w, h - h1);
            lemma_chain_monotone(types, front, w, h1, w, h);
        } else {
            let w1 = choose|w1: int| #[trigger]
                cut_at(w1) && chain_fits(types, front, w1, h) && single_fits(t, w - w1, h);
            lemma_chain_monotone(types, front, w1, h, w, h);
        }
    }
}

/// A front of a list goes in where the list does.
pub proof fn lemma_chain_prefix(types: Seq<GpfType>, list: Seq<usize>, k: int, w: int, h: int)
    requires
        0 <= k <= list.len(),
        chain_fits(types, list, w, h),
    ensures
        chain_fits(types, list.take(k), w, h),
    decreases list.len(),
{
    if k < list.len() {
        lemma_chain_front(types, list, w, h);
        lemma_chain_prefix(types, list.drop_last(), k, w, h);
        assert(list.drop_last().take(k) =~= list.take(k));
    } else {
        assert(list.take(k) =~= list);
    }
}

/// Inside the sheet, the function has a value exactly where the list goes in one after the other.
pub open spec fn chain_function(
    types: Seq<PType>,
    list: Seq<usize>,
    sw: int,
    sh: int,
    f: Seq<(u32, u32)>,
) -> bool {
    &&& stepped(f)
    &&& inside(f, sw, sh)
    &&& forall|w: int, h: int|
        w <= sw && h <= sh ==> (#[trigger] reaches(f, w, h) <==> chain_fits(
            kinds(types),
            list,
            w,
            h,
        ))
}

/// The base function of a type is that of the type alone.
pub proof fn lemma_chain_begins(types: Seq<PType>, t: usize, sw: int, sh: int)
    requires
        types_ok(types, sw, sh),
        t < types.len(),
    ensures
        chain_function(types, seq![t], sw, sh, types[t as int].base@),
{
    assert(types[t as int].based(sw, sh));
    assert(kinds(types)[t as int] == types[t as int].kind());
}

/// The function of a list composed with a base function is that of the list and one more piece.
pub proof fn lemma_chain_grows(
    types: Seq<PType>,
    front: Seq<usize>,
    t: usize,
    sw: int,
    sh: int,
    f: Seq<(u32, u32)>,
    r: Seq<(u32, u32)>,
)
    requires
        types_ok(types, sw, sh),
        front.len() > 0,
        t < types.len(),
        chain_function(types, front, sw, sh, f),
        composed(f, types[t as int].base@, sw, sh, r),
    ensures
        chain_function(types, front.push(t), sw, sh, r),
{
    let ts = kinds(types);
    let g = types[t as int].base@;
    let k = ts[t as int];
    assert(types[t as int].based(sw, sh));
    assert(k == types[t as int].kind());
    assert(front.push(t).drop_last() =~= front);
    assert forall|w: int, h: int| w <= sw && h <= sh implies (#[trigger] reaches(r, w, h)
        <==> chain_fits(ts, front.push(t), w, h)) by {
        let (p, q) = (height_at(f, w), height_at(g, w));
        let (u, v) = (width_at(f, h), width_at(g, h));
        lemma_inside(f, sw, sh, w);
        lemma_inside(g, sw, sh, w);
        lemma_inside(f, sw, sh, h);
        lemma_inside(g, sw, sh, h);
        if p is Some && q is Some && p->0 + q->0 <= h {
            let h1 = p->0;
            assert(reaches(f, w, h1));
            assert(reaches(g, w, h - h1));
            assert(cut_at(h1) && chain_fits(ts, front, w, h1) && single_fits(k, w, h - h1));
        }
        if u is Some && v is Some && u->0 + v->0 <= w {
            let w1 = u->0;
            law_width_is_inverse(f, w1, h);
            law_width_is_inverse(g, w - w1, h);
            assert(reaches(f, w1, h));
            assert(reaches(g, w - w1, h));
            assert(cut_at(w1) && chain_fits(ts, front, w1, h) && single_fits(k, w - w1, h));
        }
        if exists|h1: int| #[trigger]
            cut_at(h1) && chain_fits(ts, front, w, h1) && single_fits(k, w, h - h1) {
            let h1 = choose|h1: int| #[trigger]
                cut_at(h1) && chain_fits(ts, front, w, h1) && single_fits(k, w, h - h1);
            assert(reaches(f, w, h1));
            assert(h - h1 <= sh);
            assert(reaches(g, w, h - h1));
        }
        if exists|w1: int| #[trigger]
            cut_at(w1) && chain_fits(ts, front, w1, h) && single_fits(k, w - w1, h) {
            let w1 = choose|w1: int| #[trigger]
                cut_at(w1) && chain_fits(ts, front, w1, h) && single_fits(k, w - w1, h);
            assert(reaches(f, w1, h));
            law_width_is_inverse(f, w1, h);
            assert(reaches(g, w - w1, h));
            law_width_is_inverse(g, w - w1, h);
        }
    }
}

/// A function of a chain has a value exactly where its pieces go in one after the other.
pub proof fn lemma_chain_reach(
    types: Seq<PType>,
    list: Seq<usize>,
    fs: Seq<StepFn>,
    sw: int,
    sh: int,
    i: int,
)
    requires
        types_ok(types, sw, sh),
        chained(types, list, fs, sw, sh),
        0 <= i < list.len(),
    ensures
        chain_function(types, list.take(i + 1), sw, sh, fs[i]@),
    decreases i,
{
    let t = list[i];
    if i == 0 {
        lemma_chain_begins(types, t, sw, sh);
        assert(list.take(1) =~= seq![t]);
    } else {
        lemma_chain_reach(types, list, fs, sw, sh, i - 1);
        assert(list.take(i - 1 + 1) =~= list.take(i));
        assert(composed(fs[i - 1]@, types[t as int].base@, sw, sh, fs[i]@));
        lemma_chain_grows(types, list.take(i), t, sw, sh, fs[i - 1]@, fs[i]@);
        assert(list.take(i).push(t) =~= list.take(i + 1));
    }
}

/// The values and widths of the functions of a chain are the least at which its pieces go in.
proof fn lemma_chain_least(
    types: Seq<PType>,
    list: Seq<usize>,
    fs: Seq<StepFn>,
    sw: int,
    sh: int,
    i: int,
    w: int,
    h: int,
)
    requires
        types_ok(types, sw, sh),
        chained(types, list, fs, sw, sh),
        0 <= i < list.len(),
        w <= sw,
        h <= sh,
    ensures
        least_height(kinds(types), list.take(i + 1), w, h) <==> height_at(fs[i]@, w) == Some(h),
        least_width(kinds(types), list.take(i + 1), w, h) <==> width_at(fs[i]@, h) == Some(w),
{
    lemma_chain_achieves(types, list, fs, sw, sh, i);
    lemma_chain_reach(types, list, fs, sw, sh, i);
    assert(reaches(fs[i]@, w, h) <==> chain_fits(kinds(types), list.take(i + 1), w, h));
    assert(reaches(fs[i]@, w, h - 1) <==> chain_fits(kinds(types), list.take(i + 1), w, h - 1));
    assert(reaches(fs[i]@, w - 1, h) <==> chain_fits(kinds(types), list.take(i + 1), w - 1, h));
    law_width_is_inverse(fs[i]@, w, h);
    law_width_is_inverse(fs[i]@, w - 1, h);
}

/// The values and widths of a base function are the least at which one piece goes in.
proof fn lemma_base_least(types: Seq<PType>, t: usize, sw: int, sh: int, w: int, h: int)
    requires
        types_ok(types, sw, sh),
        t < types.len(),
        w <= sw,
        h <= sh,
    ensures
        least_height(kinds(types), seq![t], w, h) <==> height_at(types[t as int].base@, w) == Some(
            h,
        ),
        least_width(kinds(types), seq![t], w, h) <==> width_at(types[t as int].base@, h) == Some(w),
{
    let f = types[t as int].base@;
    assert(types[t as int].based(sw, sh));
    assert(kinds(types)[t as int] == types[t as int].kind());
    assert(reaches(f, w, h) <==> single_fits(types[t as int].kind(), w, h));
    assert(reaches(f, w, h - 1) <==> single_fits(types[t as int].kind(), w, h - 1));
    assert(reaches(f, w - 1, h) <==> single_fits(types[t as int].kind(), w - 1, h));
    law_width_is_inverse(f, w, h);
    law_width_is_inverse(f, w - 1, h);
}

/// Where the last piece of a chain goes below the others, the values of the functions add up.
proof fn lemma_goes_below(
    types: Seq<PType>,
    list: Seq<usize>,
    fs: Seq<StepFn>,
    sw: int,
    sh: int,
    i: int,
    w: int,
    h: int,
    h1: int,
)
    requires
        types_ok(types, sw, sh),
        chained(types, list, fs, sw, sh),
        0 < i < list.len(),
        w <= sw,
        h <= sh,
        goes_below(kinds(types), list.take(i + 1), w, h, h1),
    ensures
        height_at(fs[i - 1]@, w) == Some(h1),
        height_at(types[list[i] as int].base@, w) == Some(h - h1),
{
    let ts = kinds(types);
    let l = list.take(i + 1);
    assert(l.drop_last() =~= list.take(i));
    assert(list.take(i - 1 + 1) =~= list.take(i));
    assert(l.last() == list[i]);
    let t = list[i];
    assert(single_fits(ts[t as int], w, h - h1));
    assert(h1 <= sh);
    lemma_chain_least(types, list, fs, sw, sh, i - 1, w, h1);
    lemma_chain_achieves(types, list, fs, sw, sh, i - 1);
    lemma_inside(fs[i - 1]@, sw, sh, w);
    lemma_base_least(types, t, sw, sh, w, h - h1);
}

/// The order in which the pieces of a layout are listed is of no account.
proof fn lemma_turned(
    types: Seq<GpfType>,
    c: Seq<nat>,
    a: Seq<TypeSpot>,
    b: Seq<TypeSpot>,
    x: int,
    y: int,
    w: int,
    h: int,
)
    requires
        lays_out(types, c, a + b, region(x, y, w, h)),
    ensures
        lays_out(types, c, b + a, region(x, y, w, h)),
{
    let r = region(x, y, w, h);
    let (s, t) = (a + b, b + a);
    assert forall|k: int| 0 <= k < c.len() implies #[trigger] spots_of_type(t, k) == c[k] by {
        lemma_spots_concat(a, b, k);
        lemma_spots_concat(b, a, k);
        assert(spots_of_type(s, k) == c[k]);
    }
    assert forall|i: int| 0 <= i < t.len() implies {
        &&& (#[trigger] t[i]).type_idx < types.len()
        &&& t[i].rotated ==> types[t[i].type_idx as int].can_rotate
    } by {
        let j = if i < b.len() {
            a.len() + i
        } else {
            i - b.len()
        };
        assert(s[j] == t[i]);
    }
    let u = choose|u: Slicing| #[trigger]
        slicing_ok(u, r) && spot_cells(types, s).to_multiset().subset_of(slices(u, r));
    let (ca, cb) = (spot_cells(types, a), spot_cells(types, b));
    assert(spot_cells(types, s) =~= ca + cb);
    assert(spot_cells(types, t) =~= cb + ca);
    vstd::seq_lib::lemma_multiset_commutative(ca, cb);
    vstd::seq_lib::lemma_multiset_commutative(cb, ca);
    assert(spot_cells(types, t).to_multiset() =~= spot_cells(types, s).to_multiset());
    assert(slicing_ok(u, r) && spot_cells(types, t).to_multiset().subset_of(slices(u, r)));
}

/// The orientation whose height is exactly `h` and whose width is `max_w` at most.
fn rotated_for_height(t: &PType, h: u32, max_w: u32) -> (r: Option<bool>)
    ensures
        r == (if t.height == h && t.width <= max_w {
            Some(false)
        } else if t.can_rotate && t.width == h && t.height <= max_w {
            Some(true)
        } else {
            None
        }),
{
    if t.height == h && t.width <= max_w {
        Some(false)
    } else if t.can_rotate && t.width == h && t.height <= max_w {
        Some(true)
    } else {
        None
    }
}

/// The orientation whose width is exactly `w` and whose height is `max_h` at most.
fn rotated_for_width(t: &PType, w: u32, max_h: u32) -> (r: Option<bool>)
    ensures
        r == (if t.width == w && t.height <= max_h {
            Some(false)
        } else if t.can_rotate && t.height == w && t.width <= max_h {
            Some(true)
        } else {
            None
        }),
{
    if t.width == w && t.height <= max_h {
        Some(false)
    } else if t.can_rotate && t.height == w && t.width <= max_h {
        Some(true)
    } else {
        None
    }
}

/// The value of a base function is the height of an orientation of the piece.
proof fn lemma_base_height(t: PType, sw: int, sh: int, w: int, h: int)
    requires
        t.based(sw, sh),
        height_at(t.base@, w) == Some(h),
    ensures
        (t.height == h && t.width <= w) || (t.can_rotate && t.width == h && t.height <= w),
{
    lemma_inside(t.base@, sw, sh, w);
    assert(reaches(t.base@, w, h));
    assert(!reaches(t.base@, w, h - 1));
}

/// The least width of a base function for a height is the width of an orientation.
proof fn lemma_base_width(t: PType, sw: int, sh: int, w: int, h: int)
    requires
        t.based(sw, sh),
        width_at(t.base@, h) == Some(w),
    ensures
        (t.width == w && t.height <= h) || (t.can_rotate && t.height == w && t.width <= h),
{
    lemma_inside(t.base@, sw, sh, h);
    law_width_is_inverse(t.base@, w, h);
    law_width_is_inverse(t.base@, w - 1, h);
    assert(reaches(t.base@, w, h));
    assert(!reaches(t.base@, w - 1, h));
}

/// Takes a chain apart from its piece `i` on, back to its first: the pieces in front of a piece
/// lie in the corner, the piece below or to the right of them.
fn peel(
    types: &Vec<PType>,
    list: &Vec<usize>,
    fs: &Vec<StepFn>,
    i: usize,
    w: u32,
    h: u32,
    Ghost(sw): Ghost<int>,
    Ghost(sh): Ghost<int>,
) -> (r: Vec<TypeSpot>)
    requires
        types_ok(types@, sw, sh),
        chained(types@, list@, fs@, sw, sh),
        i < list@.len(),
        w <= sw,
        height_at(fs@[i as int]@, w as int) == Some(h as int),
    ensures
        lays_out(
            kinds(types@),
            tally(list@.take(i + 1), types@.len()),
            r@,
            region(0, 0, w as int, h as int),
        ),
        laid_in_turn(kinds(types@), list@.take(i + 1), r@, w as int, h as int),
    decreases i,
{
    let ghost ts = kinds(types@);
    let ghost n = types@.len();
    let ghost l = list@.take(i + 1);
    let ghost c = tally(l, n);
    assert(l.drop_last() =~= list@.take(i as int));
    let type_idx: usize = list[i];
    let t = &types[type_idx];
    let ghost f = fs@[i as int]@;
    proof {
        assert(t.based(sw, sh));
        lemma_unit(n, type_idx as int);
        let d = list@.take(i as int);
        assert forall|k: int| 0 <= k < d.len() implies (#[trigger] d[k]) < n by {
            assert(list@[k] < n);
        }
        lemma_tally_total(d, n);
        assert(kinds(types@)[type_idx as int] == t.kind());
    }
    if i == 0 {
        proof {
            assert(tally(list@.take(0), n) =~= Seq::new(n, |t: int| 0nat));
            assert(c =~= unit(n, type_idx as int));
            lemma_base_height(*t, sw, sh, w as int, h as int);
        }
        let rotated = !(t.width <= w && t.height <= h);
        let spot = TypeSpot { type_idx, x: 0, y: 0, rotated };
        let mut out: Vec<TypeSpot> = Vec::new();
        out.push(spot);
        proof {
            lemma_lone(ts, c, type_idx as int, spot, 0, 0, w as int, h as int);
            assert(out@ =~= seq![spot]);
            assert(l[0] == type_idx && l.last() == type_idx);
        }
        return out;
    }
    let fp = &fs[i - 1];
    let ghost d = tally(list@.take(i as int), n);
    proof {
        lemma_one_more(d, type_idx as int);
        assert(composed(fp@, t.base@, sw, sh, fs@[i as int]@));
        lemma_inside(f, sw, sh, w as int);
        lemma_chain_achieves(types@, list@, fs@, sw, sh, i - 1);
        lemma_inside(fp@, sw, sh, w as int);
        lemma_inside(t.base@, sw, sh, w as int);
        lemma_inside(fp@, sw, sh, h as int);
        lemma_inside(t.base@, sw, sh, h as int);
        assert(reaches(f, w as int, h as int));
        assert(!reaches(f, w as int, h - 1));
        assert(list@.take(i - 1 + 1) =~= list@.take(i as int));
        assert(l.last() == type_idx);
    }
    if let (Some(h1), Some(h2)) = (eval_f(fp, w), eval_f(&t.base, w)) {
        if h1 + h2 == h {
            proof {
                lemma_base_height(*t, sw, sh, w as int, h2 as int);
            }
            if let Some(rotated) = rotated_for_height(t, h2, w) {
                let spot = TypeSpot { type_idx, x: 0, y: h1, rotated };
                let rest = peel(types, list, fs, i - 1, w, h1, Ghost(sw), Ghost(sh));
                proof {
                    lemma_chain_least(types@, list@, fs@, sw, sh, i - 1, w as int, h1 as int);
                    lemma_base_least(types@, type_idx, sw, sh, w as int, h2 as int);
                    assert(goes_below(ts, l, w as int, h as int, h1 as int));
                    assert((seq![spot] + rest@).drop_first() =~= rest@);
                    lemma_lone(
                        ts,
                        unit(n, type_idx as int),
                        type_idx as int,
                        spot,
                        0,
                        h1 as int,
                        w as int,
                        h2 as int,
                    );
                    lemma_stacked(
                        ts,
                        c,
                        d,
                        rest@,
                        seq![spot],
                        0,
                        0,
                        w as int,
                        h1 as int,
                        h2 as int,
                    );
                    lemma_turned(ts, c, rest@, seq![spot], 0, 0, w as int, h as int);
                }
                return put_first(spot, &rest);
            }
        }
    }
    proof {
        assert(joins(fp@, t.base@, w as int, h as int));
        assert(!joins(fp@, t.base@, w as int, h - 1));
        let (a, b) = (height_at(fp@, w as int), height_at(t.base@, w as int));
        if sum_of(a, b) is Some && sum_of(a, b)->0 <= h {
            assert(sum_of(a, b) == Some(h as int));
            assert(false);
        }
        assert(sum_of(width_at(fp@, h as int), width_at(t.base@, h as int)) is Some);
        assert forall|h1: int| !#[trigger] goes_below(ts, l, w as int, h as int, h1) by {
            if goes_below(ts, l, w as int, h as int, h1) {
                lemma_goes_below(types@, list@, fs@, sw, sh, i as int, w as int, h as int, h1);
            }
        }
    }
    if let (Some(w1), Some(w2)) = (eval_f_inv(fp, h), eval_f_inv(&t.base, h)) {
        proof {
            lemma_base_width(*t, sw, sh, w2 as int, h as int);
            lemma_width_value(fp@, h as int);
            lemma_inside(fp@, sw, sh, w1 as int);
        }
        if let Some(rotated) = rotated_for_width(t, w2, h) {
            let spot = TypeSpot { type_idx, x: w1, y: 0, rotated };
            let h1: u32 = match eval_f(fp, w1) {
                Some(v) => v,
                None => h,
            };
            let rest = peel(types, list, fs, i - 1, w1, h1, Ghost(sw), Ghost(sh));
            proof {
                lemma_chain_least(types@, list@, fs@, sw, sh, i - 1, w1 as int, h as int);
                lemma_chain_least(types@, list@, fs@, sw, sh, i - 1, w1 as int, h1 as int);
                lemma_base_least(types@, type_idx, sw, sh, w2 as int, h as int);
                if t.height <= h && least_width(ts, seq![type_idx], t.width as int, h as int) {
                    assert(t.width <= sw);
                    lemma_base_least(types@, type_idx, sw, sh, t.width as int, h as int);
                }
                assert((seq![spot] + rest@).drop_first() =~= rest@);
                lemma_lone(
                    ts,
                    unit(n, type_idx as int),
                    type_idx as int,
                    spot,
                    w1 as int,
                    0,
                    w2 as int,
                    h as int,
                );
                lemma_beside(
                    ts,
                    c,
                    d,
                    rest@,
                    seq![spot],
                    0,
                    0,
                    w as int,
                    h as int,
                    w1 as int,
                    h1 as int,
                    w2 as int,
                    h as int,
                );
                lemma_turned(ts, c, rest@, seq![spot], 0, 0, w as int, h as int);
            }
            return put_first(spot, &rest);
        }
    }
    proof {
        assert(false);
    }
    Vec::new()
}

fn put_first(spot: TypeSpot, rest: &Vec<TypeSpot>) -> (r: Vec<TypeSpot>)
    ensures
        r@ == seq![spot] + rest@,
{
    let mut out: Vec<TypeSpot> = Vec::new();
    out.push(spot);
    let mut k: usize = 0;
    assert(out@ =~= seq![spot] + rest@.take(0));
    while k < rest.len()
        invariant
            k <= rest@.len(),
            out@ == seq![spot] + rest@.take(k as int),
        decreases rest@.len() - k,
    {
        out.push(rest[k]);
        k += 1;
        assert(out@ =~= seq![spot] + rest@.take(k as int));
    }
    assert(rest@.take(k as int) =~= rest@);
    out
}

/// The pieces are laid out on the sheet, at its full width and some height.
pub open spec fn on_sheet(
    types: Seq<GpfType>,
    c: Seq<nat>,
    spots: Seq<TypeSpot>,
    sw: int,
    sh: int,
) -> bool {
    exists|h: int| 0 <= h <= sh && #[trigger] lays_out(types, c, spots, region(0, 0, sw, h))
}

/// A layout of the pieces of a chain, where its last function has breakpoints.
pub(crate) fn chain_reconstruct(
    types: &Vec<PType>,
    list: &Vec<usize>,
    fs: &Vec<StepFn>,
    sheet_w: u32,
    Ghost(sh): Ghost<int>,
) -> (r: Option<Vec<TypeSpot>>)
    requires
        types_ok(types@, sheet_w as int, sh),
        chained(types@, list@, fs@, sheet_w as int, sh),
    ensures
        r is Some <==> list@.len() > 0 && fs@.last()@.len() > 0,
        r matches Some(spots) ==> on_sheet(
            kinds(types@),
            tally(list@, types@.len()),
            spots@,
            sheet_w as int,
            sh,
        ),
        r matches Some(spots) ==> exists|h: int| #[trigger]
            least_height(kinds(types@), list@, sheet_w as int, h) && laid_in_turn(
                kinds(types@),
                list@,
                spots@,
                sheet_w as int,
                h,
            ),
{
    let n: usize = list.len();
    if n == 0 {
        return None;
    }
    let ghost sw = sheet_w as int;
    let ghost f = fs@[n - 1]@;
    proof {
        lemma_chain_achieves(types@, list@, fs@, sw, sh, n - 1);
        lemma_inside(f, sw, sh, sw);
        crate::gpf::lemma_height_at(f, sw);
        if f.len() > 0 {
            assert(f[0].0 <= sw);
        } else {
            assert(height_at(f, sw) is None);
        }
        assert(list@.take(n - 1 + 1) =~= list@);
    }
    match eval_f(&fs[n - 1], sheet_w) {
        Some(h) => {
            let spots = peel(types, list, fs, n - 1, sheet_w, h, Ghost(sw), Ghost(sh));
            assert(lays_out(
                kinds(types@),
                tally(list@, types@.len()),
                spots@,
                region(0, 0, sw, h as int),
            ));
            proof {
                lemma_chain_least(types@, list@, fs@, sw, sh, n - 1, sw, h as int);
                assert(least_height(kinds(types@), list@, sw, h as int));
            }
            Some(spots)
        },
        None => None,
    }
}

} // verus!
