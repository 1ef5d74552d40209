//! Guillotine layout functions: the least strip height for every width.

use vstd::prelude::*;

pub use self::groups::{build_glf_from_flat, build_gpf, estimate_table_size};
pub use self::table::{GpfTable, GpfType};

pub mod counts;
pub mod display;
pub mod groups;
pub mod recon;
pub mod table;

verus! {

/// A step function: breakpoints `(x, h)` with increasing `x` and decreasing `h`. It is `h` from
/// a breakpoint up to the next, and without value in front of the first. Without breakpoints it
/// has no value anywhere.
pub type StepFn = Vec<(u32, u32)>;

/// Breakpoints increase in `x` and decrease in `h`.
pub open spec fn stepped(f: Seq<(u32, u32)>) -> bool {
    &&& forall|i: int, j: int| 0 <= i < j < f.len() ==> (#[trigger] f[i]).0 < (#[trigger] f[j]).0
    &&& forall|i: int, j: int| 0 <= i < j < f.len() ==> (#[trigger] f[i]).1 > (#[trigger] f[j]).1
}

/// The value at `x`: that of the last breakpoint that is not behind `x`.
pub open spec fn height_at(f: Seq<(u32, u32)>, x: int) -> Option<int>
    decreases f.len(),
{
    if f.len() == 0 {
        None
    } else if f.last().0 <= x {
        Some(f.last().1 as int)
    } else {
        height_at(f.drop_last(), x)
    }
}

/// The least `x` at which the value is `h` at most: that of the first breakpoint that is not
/// above `h`.
pub open spec fn width_at(f: Seq<(u32, u32)>, h: int) -> Option<int>
    decreases f.len(),
{
    if f.len() == 0 {
        None
    } else if f[0].1 <= h {
        Some(f[0].0 as int)
    } else {
        width_at(f.drop_first(), h)
    }
}

/// Breakpoints increase in `x`; heights do not increase.
pub open spec fn descending(f: Seq<(u32, u32)>) -> bool {
    &&& forall|i: int, j: int| 0 <= i < j < f.len() ==> (#[trigger] f[i]).0 < (#[trigger] f[j]).0
    &&& forall|i: int, j: int| 0 <= i < j < f.len() ==> (#[trigger] f[i]).1 >= (#[trigger] f[j]).1
}

/// What a value of a step function is: it belongs to a breakpoint, and the next is behind.
pub proof fn lemma_height_at(f: Seq<(u32, u32)>, x: int)
    requires
        descending(f),
    ensures
        height_at(f, x) matches Some(v) ==> exists|i: int|
            0 <= i < f.len() && (#[trigger] f[i]).0 <= x && f[i].1 == v && (i + 1 < f.len()
                ==> f[i + 1].0 > x),
        height_at(f, x) is None ==> forall|i: int| 0 <= i < f.len() ==> (#[trigger] f[i]).0 > x,
    decreases f.len(),
{
    if f.len() > 0 {
        let d = f.drop_last();
        if f.last().0 <= x {
            assert(f[f.len() - 1].0 <= x);
        } else {
            lemma_height_at(d, x);
            if height_at(d, x) is Some {
                let v = height_at(d, x)->0;
                let i = choose|i: int|
                    0 <= i < d.len() && (#[trigger] d[i]).0 <= x && d[i].1 == v && (i + 1 < d.len()
                        ==> d[i + 1].0 > x);
                assert(f[i] == d[i]);
            } else {
                assert forall|i: int| 0 <= i < f.len() implies (#[trigger] f[i]).0 > x by {
                    if i < d.len() {
                        assert(f[i] == d[i]);
                    }
                }
            }
        }
    }
}

/// A breakpoint not behind `x` with the next one behind gives the value.
pub proof fn lemma_height_is(f: Seq<(u32, u32)>, x: int, i: int)
    requires
        descending(f),
        0 <= i < f.len(),
        f[i].0 <= x,
        i + 1 < f.len() ==> f[i + 1].0 > x,
    ensures
        height_at(f, x) == Some(f[i].1 as int),
    decreases f.len(),
{
    if i < f.len() - 1 {
        assert(f.last().0 >= f[i + 1].0);
        let d = f.drop_last();
        assert(d[i] == f[i]);
        if i + 1 < d.len() {
            assert(d[i + 1] == f[i + 1]);
        }
        lemma_height_is(d, x, i);
    }
}

pub proof fn lemma_height_none(f: Seq<(u32, u32)>, x: int)
    requires
        forall|i: int| 0 <= i < f.len() ==> (#[trigger] f[i]).0 > x,
    ensures
        height_at(f, x) is None,
    decreases f.len(),
{
    if f.len() > 0 {
        let d = f.drop_last();
        assert forall|i: int| 0 <= i < d.len() implies (#[trigger] d[i]).0 > x by {
            assert(d[i] == f[i]);
        }
        lemma_height_none(d, x);
    }
}

/// The value does not increase.
pub proof fn lemma_height_monotone(f: Seq<(u32, u32)>, x: int, y: int)
    requires
        descending(f),
        x <= y,
        height_at(f, x) is Some,
    ensures
        height_at(f, y) is Some,
        height_at(f, y)->0 <= height_at(f, x)->0,
{
    lemma_height_at(f, x);
    lemma_height_at(f, y);
    let i = choose|i: int|
        0 <= i < f.len() && (#[trigger] f[i]).0 <= x && f[i].1 == height_at(f, x)->0 && (i + 1
            < f.len() ==> f[i + 1].0 > x);
    assert(f[i].0 <= y);
    if height_at(f, y) is Some {
        let j = choose|j: int|
            0 <= j < f.len() && (#[trigger] f[j]).0 <= y && f[j].1 == height_at(f, y)->0 && (j + 1
                < f.len() ==> f[j + 1].0 > y);
        if j < i {
            assert(f[j + 1].0 <= f[i].0);
        }
    }
}

/// The function with the axes exchanged.
pub open spec fn transposed(f: Seq<(u32, u32)>) -> Seq<(u32, u32)> {
    Seq::new(f.len(), |i: int| (f[f.len() - 1 - i].1, f[f.len() - 1 - i].0))
}

pub proof fn lemma_transposed(f: Seq<(u32, u32)>, h: int)
    requires
        stepped(f),
    ensures
        stepped(transposed(f)),
        transposed(transposed(f)) =~= f,
        height_at(transposed(f), h) == width_at(f, h),
        width_at(transposed(f), h) == height_at(f, h),
    decreases f.len(),
{
    let t = transposed(f);
    assert forall|i: int, j: int| 0 <= i < j < t.len() implies (#[trigger] t[i]).0 < (
    #[trigger] t[j]).0 && t[i].1 > t[j].1 by {
        let a = f[f.len() - 1 - j];
        let b = f[f.len() - 1 - i];
        assert(a.0 < b.0 && a.1 > b.1);
    }
    if f.len() > 0 {
        let d = f.drop_first();
        assert forall|i: int, j: int| 0 <= i < j < d.len() implies (#[trigger] d[i]).0 < (
        #[trigger] d[j]).0 && d[i].1 > d[j].1 by {
            assert(f[i + 1].0 < f[j + 1].0 && f[i + 1].1 > f[j + 1].1);
        }
        lemma_transposed(d, h);
        assert(t.drop_last() =~= transposed(d));
        let e = f.drop_last();
        assert forall|i: int, j: int| 0 <= i < j < e.len() implies (#[trigger] e[i]).0 < (
        #[trigger] e[j]).0 && e[i].1 > e[j].1 by {
            assert(f[i].0 < f[j].0 && f[i].1 > f[j].1);
        }
        lemma_transposed(e, h);
        assert(t.drop_first() =~= transposed(e));
    }
}

/// `width_at` is the inverse: `h` is reached from that width on, and at no smaller one.
pub proof fn law_width_is_inverse(f: Seq<(u32, u32)>, x: int, h: int)
    requires
        stepped(f),
    ensures
        (height_at(f, x) is Some && height_at(f, x)->0 <= h) <==> (width_at(f, h) is Some
            && width_at(f, h)->0 <= x),
    decreases f.len(),
{
    if f.len() > 0 {
        let d = f.drop_last();
        assert forall|i: int, j: int| 0 <= i < j < d.len() implies (#[trigger] d[i]).0 < (
        #[trigger] d[j]).0 && d[i].1 > d[j].1 by {
            assert(f[i].0 < f[j].0 && f[i].1 > f[j].1);
        }
        law_width_is_inverse(d, x, h);
        lemma_width_last(f, h);
        lemma_height_at(d, x);
        if f.last().0 <= x {
            if f.last().1 <= h {
                lemma_width_exists(f, h);
                lemma_width_bound(f, h);
            } else {
                lemma_width_none(f, h);
            }
        } else {
            if width_at(d, h) is None {
            }
        }
    }
}

proof fn lemma_width_last(f: Seq<(u32, u32)>, h: int)
    requires
        f.len() > 0,
    ensures
        width_at(f.drop_last(), h) is Some ==> width_at(f, h) == width_at(f.drop_last(), h),
        width_at(f.drop_last(), h) is None ==> width_at(f, h) == (if f.last().1 <= h {
            Some(f.last().0 as int)
        } else {
            None
        }),
    decreases f.len(),
{
    if f.len() == 1 {
        assert(f.drop_first() =~= Seq::empty());
    } else {
        let d = f.drop_first();
        lemma_width_last(d, h);
        assert(f.drop_last().drop_first() =~= d.drop_last());
        assert(f.drop_last()[0] == f[0]);
    }
}

proof fn lemma_width_exists(f: Seq<(u32, u32)>, h: int)
    requires
        f.len() > 0,
        f.last().1 <= h,
    ensures
        width_at(f, h) is Some,
    decreases f.len(),
{
    if f[0].1 > h {
        lemma_width_exists(f.drop_first(), h);
    }
}

proof fn lemma_width_bound(f: Seq<(u32, u32)>, h: int)
    requires
        f.len() > 0,
        stepped(f),
        width_at(f, h) is Some,
    ensures
        width_at(f, h)->0 <= f.last().0,
    decreases f.len(),
{
    if f[0].1 > h {
        let d = f.drop_first();
        assert forall|i: int, j: int| 0 <= i < j < d.len() implies (#[trigger] d[i]).0 < (
        #[trigger] d[j]).0 && d[i].1 > d[j].1 by {
            assert(f[i + 1].0 < f[j + 1].0 && f[i + 1].1 > f[j + 1].1);
        }
        lemma_width_bound(d, h);
    } else if f.len() > 1 {
        assert(f[0].0 < f[f.len() - 1].0);
    }
}

proof fn lemma_width_none(f: Seq<(u32, u32)>, h: int)
    requires
        stepped(f),
        f.len() > 0,
        f.last().1 > h,
    ensures
        width_at(f, h) is None,
    decreases f.len(),
{
    if f.len() == 1 {
        assert(f.drop_first() =~= Seq::empty());
    } else {
        let d = f.drop_first();
        assert forall|i: int, j: int| 0 <= i < j < d.len() implies (#[trigger] d[i]).0 < (
        #[trigger] d[j]).0 && d[i].1 > d[j].1 by {
            assert(f[i + 1].0 < f[j + 1].0 && f[i + 1].1 > f[j + 1].1);
        }
        lemma_width_none(d, h);
        assert(f[0].1 > f[f.len() - 1].1);
    }
}

/// Evaluates the function at `x`.
pub fn eval_f(f: &StepFn, x: u32) -> (r: Option<u32>)
    ensures
        match height_at(f@, x as int) {
            Some(v) => r is Some && r->0 == v,
            None => r is None,
        },
{
    let mut k: usize = f.len();
    assert(f@.take(k as int) =~= f@);
    while k > 0
        invariant
            k <= f@.len(),
            height_at(f@, x as int) == height_at(f@.take(k as int), x as int),
        decreases k,
    {
        assert(f@.take(k as int).drop_last() =~= f@.take(k - 1));
        if f[k - 1].0 <= x {
            return Some(f[k - 1].1);
        }
        k -= 1;
    }
    None
}

/// The least `x` at which the value is `h` at most.
pub fn eval_f_inv(f: &StepFn, h: u32) -> (r: Option<u32>)
    ensures
        match width_at(f@, h as int) {
            Some(v) => r is Some && r->0 == v,
            None => r is None,
        },
{
    let mut k: usize = 0;
    assert(f@.skip(0) =~= f@);
    while k < f.len()
        invariant
            k <= f@.len(),
            width_at(f@, h as int) == width_at(f@.skip(k as int), h as int),
        decreases f@.len() - k,
    {
        assert(f@.skip(k as int).drop_first() =~= f@.skip(k + 1));
        if f[k].1 <= h {
            return Some(f[k].0);
        }
        k += 1;
    }
    None
}

/// The points that are below the last kept one, the first point kept.
pub open spec fn simplified(pts: Seq<(u32, u32)>) -> Seq<(u32, u32)>
    decreases pts.len(),
{
    if pts.len() <= 1 {
        pts
    } else {
        let rest = simplified(pts.drop_last());
        if pts.last().1 < rest.last().1 {
            rest.push(pts.last())
        } else {
            rest
        }
    }
}

/// Dropping points that do not go down changes no value.
proof fn lemma_simplified(pts: Seq<(u32, u32)>, x: int)
    requires
        descending(pts),
    ensures
        stepped(simplified(pts)),
        pts.len() > 0 ==> simplified(pts).len() > 0 && simplified(pts).last().1 == pts.last().1
            && simplified(pts).last().0 <= pts.last().0,
        height_at(simplified(pts), x) == height_at(pts, x),
    decreases pts.len(),
{
    if pts.len() > 1 {
        let d = pts.drop_last();
        assert forall|i: int, j: int| 0 <= i < j < d.len() implies (#[trigger] d[i]).0 < (
        #[trigger] d[j]).0 && d[i].1 >= d[j].1 by {
            assert(pts[i].0 < pts[j].0 && pts[i].1 >= pts[j].1);
        }
        lemma_simplified(d, x);
        let s = simplified(d);
        let n = pts.len() - 1;
        assert(pts[n - 1].0 < pts[n].0 && pts[n - 1].1 >= pts[n].1);
        assert(d.last() == pts[n - 1]);
        if pts.last().1 < s.last().1 {
            let r = s.push(pts.last());
            assert forall|i: int, j: int| 0 <= i < j < r.len() implies (#[trigger] r[i]).0 < (
            #[trigger] r[j]).0 && r[i].1 > r[j].1 by {
                if j == s.len() && i < s.len() - 1 {
                    assert(s[i].0 < s[s.len() - 1].0 && s[i].1 > s[s.len() - 1].1);
                }
            }
            assert(r.drop_last() =~= s);
        } else {
            if pts.last().0 <= x {
                assert(s.last().0 <= x);
            }
        }
    }
}

/// Removes points that do not strictly go down.
pub fn simplify(pts: &mut StepFn)
    ensures
        final(pts)@ == simplified(old(pts)@),
{
    let n: usize = pts.len();
    if n <= 1 {
        return;
    }
    let mut out: StepFn = Vec::new();
    out.push(pts[0]);
    let mut k: usize = 1;
    assert(out@ =~= simplified(pts@.take(1)));
    while k < n
        invariant
            1 <= k <= n,
            n == pts@.len(),
            pts@ == old(pts)@,
            out@ == simplified(pts@.take(k as int)),
            out@.len() > 0,
        decreases n - k,
    {
        assert(pts@.take(k + 1).drop_last() =~= pts@.take(k as int));
        if pts[k].1 < out[out.len() - 1].1 {
            out.push(pts[k]);
        }
        k += 1;
    }
    assert(pts@.take(n as int) =~= pts@);
    *pts = out;
}

/// Sum of two values, none where one is missing.
pub open spec fn sum_of(a: Option<int>, b: Option<int>) -> Option<int> {
    if a is Some && b is Some {
        Some(a->0 + b->0)
    } else {
        None
    }
}

/// Lesser of two values, the other where one is missing.
pub open spec fn lesser_of(a: Option<int>, b: Option<int>) -> Option<int> {
    if a is None {
        b
    } else if b is None {
        a
    } else if a->0 <= b->0 {
        a
    } else {
        b
    }
}

/// Sum or minimum of two values.
pub open spec fn joined(a: Option<int>, b: Option<int>, add: bool) -> Option<int> {
    if add {
        sum_of(a, b)
    } else {
        lesser_of(a, b)
    }
}

/// The positions of the breakpoints of both functions, in increasing order.
fn merge_positions(f1: &StepFn, f2: &StepFn) -> (xs: Vec<u32>)
    requires
        stepped(f1@),
        stepped(f2@),
    ensures
        forall|i: int, j: int| 0 <= i < j < xs.len() ==> xs[i] < xs[j],
        forall|i: int| 0 <= i < f1@.len() ==> xs@.contains((#[trigger] f1@[i]).0),
        forall|i: int| 0 <= i < f2@.len() ==> xs@.contains((#[trigger] f2@[i]).0),
{
    let mut xs: Vec<u32> = Vec::new();
    let mut a: usize = 0;
    let mut b: usize = 0;
    while a < f1.len() || b < f2.len()
        invariant
            a <= f1@.len(),
            b <= f2@.len(),
            stepped(f1@),
            stepped(f2@),
            forall|i: int, j: int| 0 <= i < j < xs.len() ==> xs[i] < xs[j],
            forall|i: int, j: int|
                0 <= i < xs.len() && a <= j < f1@.len() ==> #[trigger] xs[i] < (
                #[trigger] f1@[j]).0,
            forall|i: int, j: int|
                0 <= i < xs.len() && b <= j < f2@.len() ==> #[trigger] xs[i] < (
                #[trigger] f2@[j]).0,
            forall|i: int| 0 <= i < a ==> xs@.contains((#[trigger] f1@[i]).0),
            forall|i: int| 0 <= i < b ==> xs@.contains((#[trigger] f2@[i]).0),
        decreases f1@.len() - a + f2@.len() - b,
    {
        let ghost before = xs@;
        let x: u32 = if b >= f2.len() || (a < f1.len() && f1[a].0 <= f2[b].0) {
            f1[a].0
        } else {
            f2[b].0
        };
        xs.push(x);
        let ghost (a0, b0) = (a, b);
        if a < f1.len() && f1[a].0 == x {
            a += 1;
        }
        if b < f2.len() && f2[b].0 == x {
            b += 1;
        }
        proof {
            assert forall|v: u32| #[trigger] before.contains(v) implies xs@.contains(v) by {
                let i = choose|i: int| 0 <= i < before.len() && before[i] == v;
                assert(xs@[i] == v);
            }
            assert(xs@[before.len() as int] == x);
            assert(xs@.contains(x));
        }
    }
    xs
}

proof fn lemma_no_break_between(f: Seq<(u32, u32)>, xs: Seq<u32>, k: int, x: int)
    requires
        stepped(f),
        0 <= k < xs.len(),
        forall|i: int, j: int| 0 <= i < j < xs.len() ==> xs[i] < xs[j],
        forall|i: int| 0 <= i < f.len() ==> xs.contains((#[trigger] f[i]).0),
        xs[k] <= x,
        k + 1 < xs.len() ==> xs[k + 1] > x,
    ensures
        height_at(f, x) == height_at(f, xs[k] as int),
{
    lemma_height_at(f, xs[k] as int);
    if height_at(f, xs[k] as int) is Some {
        let v = height_at(f, xs[k] as int)->0;
        let i = choose|i: int|
            0 <= i < f.len() && (#[trigger] f[i]).0 <= xs[k] && f[i].1 == v && (i + 1 < f.len()
                ==> f[i + 1].0 > xs[k]);
        if i + 1 < f.len() {
            assert(xs.contains(f[i + 1].0));
            let j = choose|j: int| 0 <= j < xs.len() && xs[j] == f[i + 1].0;
            assert(j > k);
            assert(xs[j] >= xs[k + 1]);
        }
        lemma_height_is(f, x, i);
    } else {
        assert forall|i: int| 0 <= i < f.len() implies (#[trigger] f[i]).0 > x by {
            assert(xs.contains(f[i].0));
            let j = choose|j: int| 0 <= j < xs.len() && xs[j] == f[i].0;
            assert(j > k);
            assert(xs[j] >= xs[k + 1]);
        }
        lemma_height_none(f, x);
    }
}

/// No value that both functions have adds up to more than a machine integer.
pub open spec fn sums_fit(f1: Seq<(u32, u32)>, f2: Seq<(u32, u32)>) -> bool {
    forall|x: int|
        #![trigger height_at(f1, x)]
        #![trigger height_at(f2, x)]
        sum_of(height_at(f1, x), height_at(f2, x)) matches Some(v) ==> v <= u32::MAX
}

/// Joins two functions position by position.
fn join(f1: &StepFn, f2: &StepFn, add: bool) -> (r: StepFn)
    requires
        stepped(f1@),
        stepped(f2@),
        add ==> sums_fit(f1@, f2@),
    ensures
        stepped(r@),
        forall|x: int|
            #[trigger] height_at(r@, x) == joined(height_at(f1@, x), height_at(f2@, x), add),
{
    let xs = merge_positions(f1, f2);
    let mut pts: StepFn = Vec::new();
    let mut k: usize = 0;
    proof {
        assert forall|x: int| #[trigger] height_at(f1@, x) is Some implies xs@.len() > 0 by {
            lemma_height_at(f1@, x);
        }
    }
    while k < xs.len()
        invariant
            k <= xs@.len(),
            stepped(f1@),
            stepped(f2@),
            add ==> sums_fit(f1@, f2@),
            forall|i: int, j: int| 0 <= i < j < xs.len() ==> xs[i] < xs[j],
            descending(pts@),
            forall|i: int|
                0 <= i < pts@.len() ==> xs@.take(k as int).contains((#[trigger] pts@[i]).0),
            forall|i: int|
                0 <= i < pts@.len() ==> joined(
                    height_at(f1@, (#[trigger] pts@[i]).0 as int),
                    height_at(f2@, pts@[i].0 as int),
                    add,
                ) == Some(pts@[i].1 as int),
            forall|j: int|
                0 <= j < k && joined(
                    height_at(f1@, #[trigger] xs@[j] as int),
                    height_at(f2@, xs@[j] as int),
                    add,
                ) is Some ==> exists|i: int| 0 <= i < pts@.len() && (#[trigger] pts@[i]).0 == xs@[j],
        decreases xs@.len() - k,
    {
        let x: u32 = xs[k];
        let a = eval_f(f1, x);
        let b = eval_f(f2, x);
        let v: Option<u32> = match (a, b) {
            (Some(p), Some(q)) => {
                if add {
                    assert(sum_of(height_at(f1@, x as int), height_at(f2@, x as int)) is Some);
                    Some(p + q)
                } else if p <= q {
                    Some(p)
                } else {
                    Some(q)
                }
            },
            (Some(p), None) => {
                if add {
                    None
                } else {
                    Some(p)
                }
            },
            (None, Some(q)) => {
                if add {
                    None
                } else {
                    Some(q)
                }
            },
            (None, None) => None,
        };
        let ghost before = pts@;
        proof {
            assert forall|u: u32| #[trigger] xs@.take(k as int).contains(u) implies xs@.take(
                k + 1,
            ).contains(u) && u < x by {
                let i = choose|i: int| 0 <= i < xs@.take(k as int).len() && xs@.take(k as int)[i] == u;
                assert(xs@.take(k + 1)[i] == u);
                assert(xs[i] == u);
            }
            assert(xs@.take(k + 1)[k as int] == x);
            assert(xs@.take(k + 1).contains(x));
        }
        if let Some(h) = v {
            proof {
                assert forall|i: int| 0 <= i < before.len() implies (#[trigger] before[i]).0 < x
                    && before[i].1 >= h by {
                    assert(xs@.take(k as int).contains(before[i].0));
                    lemma_joined_monotone(f1@, f2@, before[i].0 as int, x as int, add);
                }
            }
            pts.push((x, h));
            assert(pts@[before.len() as int].0 == x);
            assert forall|i: int, j: int| 0 <= i < j < pts@.len() implies (#[trigger] pts@[i]).0 < (
            #[trigger] pts@[j]).0 && pts@[i].1 >= pts@[j].1 by {
                if j == before.len() {
                    assert(pts@[i] == before[i]);
                } else {
                    assert(before[i].0 < before[j].0 && before[i].1 >= before[j].1);
                }
            }
        }
        assert forall|j: int|
            0 <= j < k + 1 && joined(
                height_at(f1@, #[trigger] xs@[j] as int),
                height_at(f2@, xs@[j] as int),
                add,
            ) is Some implies exists|i: int| 0 <= i < pts@.len() && (#[trigger] pts@[i]).0
            == xs@[j] by {
            if j < k {
                let i = choose|i: int| 0 <= i < before.len() && (#[trigger] before[i]).0 == xs@[j];
                assert(pts@[i] == before[i]);
            }
        }
        k += 1;
    }
    assert(xs@.take(k as int) =~= xs@);
    let ghost full = pts@;
    proof {
        assert forall|x: int| #[trigger] height_at(full, x) == joined(
            height_at(f1@, x),
            height_at(f2@, x),
            add,
        ) by {
            lemma_join_value(f1@, f2@, xs@, full, add, x);
        }
    }
    simplify(&mut pts);
    proof {
        lemma_simplified(full, 0);
        assert forall|x: int| #[trigger] height_at(pts@, x) == joined(
            height_at(f1@, x),
            height_at(f2@, x),
            add,
        ) by {
            lemma_simplified(full, x);
            assert(height_at(full, x) == joined(height_at(f1@, x), height_at(f2@, x), add));
        }
    }
    pts
}

proof fn lemma_joined_monotone(
    f1: Seq<(u32, u32)>,
    f2: Seq<(u32, u32)>,
    x: int,
    y: int,
    add: bool,
)
    requires
        stepped(f1),
        stepped(f2),
        x <= y,
        joined(height_at(f1, x), height_at(f2, x), add) is Some,
    ensures
        joined(height_at(f1, y), height_at(f2, y), add) is Some,
        joined(height_at(f1, y), height_at(f2, y), add)->0 <= joined(
            height_at(f1, x),
            height_at(f2, x),
            add,
        )->0,
{
    if height_at(f1, x) is Some {
        lemma_height_monotone(f1, x, y);
    }
    if height_at(f2, x) is Some {
        lemma_height_monotone(f2, x, y);
    }
}

proof fn lemma_join_value(
    f1: Seq<(u32, u32)>,
    f2: Seq<(u32, u32)>,
    xs: Seq<u32>,
    pts: Seq<(u32, u32)>,
    add: bool,
    x: int,
)
    requires
        stepped(f1),
        stepped(f2),
        forall|i: int, j: int| 0 <= i < j < xs.len() ==> xs[i] < xs[j],
        forall|i: int| 0 <= i < f1.len() ==> xs.contains((#[trigger] f1[i]).0),
        forall|i: int| 0 <= i < f2.len() ==> xs.contains((#[trigger] f2[i]).0),
        descending(pts),
        forall|i: int| 0 <= i < pts.len() ==> xs.contains((#[trigger] pts[i]).0),
        forall|i: int|
            0 <= i < pts.len() ==> joined(
                height_at(f1, (#[trigger] pts[i]).0 as int),
                height_at(f2, pts[i].0 as int),
                add,
            ) == Some(pts[i].1 as int),
        forall|j: int|
            0 <= j < xs.len() && joined(
                height_at(f1, #[trigger] xs[j] as int),
                height_at(f2, xs[j] as int),
                add,
            ) is Some ==> exists|i: int| 0 <= i < pts.len() && (#[trigger] pts[i]).0 == xs[j],
    ensures
        height_at(pts, x) == joined(height_at(f1, x), height_at(f2, x), add),
{
    let k = lemma_last_not_behind(xs, x, xs.len());
    if k < 0 {
        assert forall|i: int| 0 <= i < f1.len() implies (#[trigger] f1[i]).0 > x by {
            assert(xs.contains(f1[i].0));
        }
        assert forall|i: int| 0 <= i < f2.len() implies (#[trigger] f2[i]).0 > x by {
            assert(xs.contains(f2[i].0));
        }
        assert forall|i: int| 0 <= i < pts.len() implies (#[trigger] pts[i]).0 > x by {
            assert(xs.contains(pts[i].0));
        }
        lemma_height_none(f1, x);
        lemma_height_none(f2, x);
        lemma_height_none(pts, x);
    } else {
        lemma_no_break_between(f1, xs, k, x);
        lemma_no_break_between(f2, xs, k, x);
        let want = joined(height_at(f1, xs[k] as int), height_at(f2, xs[k] as int), add);
        if want is Some {
            let i = choose|i: int| 0 <= i < pts.len() && (#[trigger] pts[i]).0 == xs[k];
            if i + 1 < pts.len() {
                assert(pts[i].0 < pts[i + 1].0);
                assert(xs.contains(pts[i + 1].0));
                let j = choose|j: int| 0 <= j < xs.len() && xs[j] == pts[i + 1].0;
                assert(j > k);
                assert(xs[j] >= xs[k + 1]);
            }
            lemma_height_is(pts, x, i);
        } else {
            assert forall|i: int| 0 <= i < pts.len() implies (#[trigger] pts[i]).0 > x by {
                if pts[i].0 <= x {
                    assert(xs.contains(pts[i].0));
                    let j = choose|j: int| 0 <= j < xs.len() && xs[j] == pts[i].0;
                    if j > k {
                        assert(xs[j] >= xs[k + 1]);
                    }
                    if j < k {
                        assert(xs[j] < xs[k]);
                    }
                    lemma_joined_monotone(f1, f2, xs[j] as int, xs[k] as int, add);
                }
            }
            lemma_height_none(pts, x);
        }
    }
}

/// The last of the first `n` positions that is not behind `x`, -1 where there is none.
proof fn lemma_last_not_behind(xs: Seq<u32>, x: int, n: nat) -> (k: int)
    requires
        n <= xs.len(),
        forall|i: int, j: int| 0 <= i < j < xs.len() ==> xs[i] < xs[j],
        n < xs.len() ==> xs[n as int] > x,
    ensures
        -1 <= k < n,
        k >= 0 ==> xs[k] <= x,
        k + 1 < xs.len() ==> xs[k + 1] > x,
        k < 0 ==> forall|i: int| 0 <= i < xs.len() ==> #[trigger] xs[i] > x,
    decreases n,
{
    if n == 0 {
        assert forall|i: int| 0 <= i < xs.len() implies #[trigger] xs[i] > x by {
            if i > 0 {
                assert(xs[0] < xs[i]);
            }
        }
        -1
    } else if xs[n - 1] <= x {
        n - 1
    } else {
        lemma_last_not_behind(xs, x, (n - 1) as nat)
    }
}

/// H-cut: one layout on top of the other, at the same width.
pub fn h_cut(f1: &StepFn, f2: &StepFn) -> (r: StepFn)
    requires
        stepped(f1@),
        stepped(f2@),
        sums_fit(f1@, f2@),
    ensures
        stepped(r@),
        forall|x: int|
            #[trigger] height_at(r@, x) == sum_of(height_at(f1@, x), height_at(f2@, x)),
{
    join(f1, f2, true)
}

/// The function with the axes exchanged.
fn transpose(f: &StepFn) -> (r: StepFn)
    ensures
        r@ == transposed(f@),
{
    let mut out: StepFn = Vec::new();
    let mut k: usize = f.len();
    while k > 0
        invariant
            k <= f@.len(),
            out@ =~= transposed(f@).take(f@.len() - k),
        decreases k,
    {
        k -= 1;
        out.push((f[k].1, f[k].0));
    }
    assert(out@ =~= transposed(f@));
    out
}

/// V-cut: two layouts side by side, at the same height.
pub fn v_cut(f1: &StepFn, f2: &StepFn) -> (r: StepFn)
    requires
        stepped(f1@),
        stepped(f2@),
        sums_fit(transposed(f1@), transposed(f2@)),
    ensures
        stepped(r@),
        forall|h: int| #[trigger] width_at(r@, h) == sum_of(width_at(f1@, h), width_at(f2@, h)),
{
    let t1 = transpose(f1);
    let t2 = transpose(f2);
    proof {
        lemma_transposed(f1@, 0);
        lemma_transposed(f2@, 0);
    }
    let t = join(&t1, &t2, true);
    let r = transpose(&t);
    proof {
        lemma_transposed(t@, 0);
        assert forall|h: int| #[trigger] width_at(r@, h) == sum_of(
            width_at(f1@, h),
            width_at(f2@, h),
        ) by {
            lemma_transposed(t@, h);
            lemma_transposed(f1@, h);
            lemma_transposed(f2@, h);
            assert(height_at(t@, h) == sum_of(height_at(t1@, h), height_at(t2@, h)));
        }
    }
    r
}

/// Pointwise minimum of two step functions.
pub fn min_fn(f1: &StepFn, f2: &StepFn) -> (r: StepFn)
    requires
        stepped(f1@),
        stepped(f2@),
    ensures
        stepped(r@),
        forall|x: int|
            #[trigger] height_at(r@, x) == lesser_of(height_at(f1@, x), height_at(f2@, x)),
{
    join(f1, f2, false)
}

/// Two step functions with the same values are the same list of breakpoints.
pub proof fn law_step_function_is_canonical(f: Seq<(u32, u32)>, g: Seq<(u32, u32)>)
    requires
        stepped(f),
        stepped(g),
        forall|x: int| #[trigger] height_at(f, x) == height_at(g, x),
    ensures
        f == g,
    decreases f.len(),
{
    if f.len() == 0 {
        if g.len() > 0 {
            assert(height_at(f, g.last().0 as int) == height_at(g, g.last().0 as int));
        }
        assert(f =~= g);
    } else {
        let far = u32::MAX as int;
        assert(height_at(f, far) == height_at(g, far));
        assert(g.len() > 0) by {
            if g.len() == 0 {
                assert(height_at(g, far) is None);
            }
        }
        let (a, b) = (f.last(), g.last());
        assert(height_at(f, far) == Some(a.1 as int));
        assert(height_at(g, far) == Some(b.1 as int));
        if a.0 < b.0 {
            assert(height_at(f, a.0 as int) == Some(a.1 as int));
            lemma_above_last(g, a.0 as int);
        }
        if b.0 < a.0 {
            assert(height_at(g, b.0 as int) == Some(b.1 as int));
            assert(height_at(f, b.0 as int) == height_at(g, b.0 as int));
            lemma_above_last(f, b.0 as int);
        }
        let d = f.drop_last();
        let e = g.drop_last();
        assert(stepped(d)) by {
            assert forall|i: int, j: int| 0 <= i < j < d.len() implies (#[trigger] d[i]).0 < (
            #[trigger] d[j]).0 && d[i].1 > d[j].1 by {
                assert(f[i].0 < f[j].0 && f[i].1 > f[j].1);
            }
        }
        assert(stepped(e)) by {
            assert forall|i: int, j: int| 0 <= i < j < e.len() implies (#[trigger] e[i]).0 < (
            #[trigger] e[j]).0 && e[i].1 > e[j].1 by {
                assert(g[i].0 < g[j].0 && g[i].1 > g[j].1);
            }
        }
        assert forall|x: int| #[trigger] height_at(d, x) == height_at(e, x) by {
            let y = if x < a.0 {
                x
            } else {
                a.0 - 1
            };
            assert(height_at(f, y) == height_at(g, y));
            lemma_capped(f, x, y);
            lemma_capped(g, x, y);
        }
        law_step_function_is_canonical(d, e);
        assert(f =~= d.push(a));
        assert(g =~= e.push(b));
    }
}

/// In front of the last breakpoint the value is above the last one.
proof fn lemma_above_last(f: Seq<(u32, u32)>, x: int)
    requires
        stepped(f),
        f.len() > 0,
        x < f.last().0,
    ensures
        height_at(f, x) matches Some(v) ==> v > f.last().1,
{
    lemma_height_at(f, x);
    if height_at(f, x) is Some {
        let v = height_at(f, x)->0;
        let i = choose|i: int|
            0 <= i < f.len() && (#[trigger] f[i]).0 <= x && f[i].1 == v && (i + 1 < f.len()
                ==> f[i + 1].0 > x);
        assert(i < f.len() - 1);
        assert(f[i].1 > f[f.len() - 1].1);
    }
}

/// Without its last breakpoint the function keeps the value that it had in front of it.
proof fn lemma_capped(f: Seq<(u32, u32)>, x: int, y: int)
    requires
        stepped(f),
        f.len() > 0,
        y == if x < f.last().0 {
            x
        } else {
            f.last().0 - 1
        },
    ensures
        height_at(f.drop_last(), x) == height_at(f, y),
{
    let d = f.drop_last();
    if x >= f.last().0 && d.len() > 0 {
        let n = d.len() - 1;
        assert(f[n].0 < f[n + 1].0);
        assert(d.last().0 <= y);
    }
}

} // verus!
