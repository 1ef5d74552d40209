//! Measures of how pieces are spread over sheets and how far they reach.

use vstd::prelude::*;

use crate::model::{lemma_sheet_count, sheet_count, Placement, Problem, Solution};
use crate::score::readable;

verus! {

/// The sides of a placed piece, the shorter first, and its sheet.
pub open spec fn size_on_sheet(problem: Problem, pl: Placement) -> (u32, u32, usize) {
    let c = pl.cell(problem.pieces@);
    if c.w <= c.h {
        (c.w, c.h, pl.sheet_idx)
    } else {
        (c.h, c.w, pl.sheet_idx)
    }
}

/// The sides of a placed piece, the shorter first.
pub open spec fn size_of(problem: Problem, pl: Placement) -> (u32, u32) {
    let t = size_on_sheet(problem, pl);
    (t.0, t.1)
}

/// The sizes that occur on sheets, with the sheets.
pub open spec fn sizes_on_sheets(problem: Problem, placements: Seq<Placement>) -> Seq<
    (u32, u32, usize),
> {
    Seq::new(placements.len(), |i: int| size_on_sheet(problem, placements[i]))
}

/// The sizes that occur.
pub open spec fn sizes(problem: Problem, placements: Seq<Placement>) -> Seq<(u32, u32)> {
    Seq::new(placements.len(), |i: int| size_of(problem, placements[i]))
}

/// How many sheets too many hold a size, over all sizes.
pub open spec fn spread(problem: Problem, placements: Seq<Placement>) -> int {
    sizes_on_sheets(problem, placements).to_set().len() - sizes(problem, placements).to_set().len()
}

fn sides(a: u32, b: u32) -> (r: (u32, u32))
    ensures
        r == (if a <= b {
            (a, b)
        } else {
            (b, a)
        }),
{
    if a <= b {
        (a, b)
    } else {
        (b, a)
    }
}

fn has_triple(list: &Vec<(u32, u32, usize)>, v: (u32, u32, usize)) -> (r: bool)
    ensures
        r == list@.contains(v),
{
    let mut k: usize = 0;
    while k < list.len()
        invariant
            k <= list@.len(),
            forall|i: int| 0 <= i < k ==> #[trigger] list@[i] != v,
        decreases list@.len() - k,
    {
        let q = list[k];
        if q.0 == v.0 && q.1 == v.1 && q.2 == v.2 {
            assert(list@[k as int] == v);
            return true;
        }
        k += 1;
    }
    false
}

fn has_pair(list: &Vec<(u32, u32)>, v: (u32, u32)) -> (r: bool)
    ensures
        r == list@.contains(v),
{
    let mut k: usize = 0;
    while k < list.len()
        invariant
            k <= list@.len(),
            forall|i: int| 0 <= i < k ==> #[trigger] list@[i] != v,
        decreases list@.len() - k,
    {
        let q = list[k];
        if q.0 == v.0 && q.1 == v.1 {
            assert(list@[k as int] == v);
            return true;
        }
        k += 1;
    }
    false
}

/// A list without repetition that has the items of another has as many as that has different
/// ones.
proof fn lemma_distinct_len<T>(a: Seq<T>, b: Seq<T>)
    requires
        a.no_duplicates(),
        forall|v: T| a.contains(v) <==> b.contains(v),
    ensures
        a.len() == b.to_set().len(),
{
    a.unique_seq_to_set();
    assert(a.to_set() =~= b.to_set());
}

proof fn lemma_push_items<T>(a: Seq<T>, v: T)
    ensures
        forall|w: T| #[trigger] a.push(v).contains(w) <==> a.contains(w) || w == v,
{
    let b = a.push(v);
    assert forall|w: T| #[trigger] b.contains(w) <==> a.contains(w) || w == v by {
        if b.contains(w) {
            let i = choose|i: int| 0 <= i < b.len() && b[i] == w;
            if i < a.len() {
                assert(a[i] == w);
            }
        }
        if a.contains(w) {
            let i = choose|i: int| 0 <= i < a.len() && a[i] == w;
            assert(b[i] == w);
        }
        if w == v {
            assert(b[a.len() as int] == w);
        }
    }
}

/// The size is there on some sheet.
spec fn occurs(t: Seq<(u32, u32, usize)>, size: (u32, u32)) -> bool {
    exists|j: int| 0 <= j < t.len() && (#[trigger] t[j]).0 == size.0 && t[j].1 == size.1
}

/// No more sizes than sizes with sheets.
proof fn lemma_fewer_sizes(t: Seq<(u32, u32, usize)>, s: Seq<(u32, u32)>)
    requires
        s.no_duplicates(),
        forall|i: int| 0 <= i < s.len() ==> occurs(t, #[trigger] s[i]),
    ensures
        s.len() <= t.len(),
{
    let at = Seq::new(
        s.len(),
        |i: int|
            choose|j: int|
                0 <= j < t.len() && (#[trigger] t[j]).0 == s[i].0 && t[j].1 == s[i].1,
    );
    assert forall|i: int| 0 <= i < s.len() implies 0 <= #[trigger] at[i] < t.len() && s[i].0
        == t[at[i]].0 && s[i].1 == t[at[i]].1 by {
        assert(occurs(t, s[i]));
    }
    assert(at.no_duplicates()) by {
        assert forall|i: int, j: int| 0 <= i < at.len() && 0 <= j < at.len() && i != j implies at[i]
            != at[j] by {
            assert(s[i] != s[j]);
        }
    }
    at.unique_seq_to_set();
    vstd::set_lib::lemma_int_range(0, t.len() as int);
    assert forall|v: int| at.to_set().contains(v) implies vstd::set_lib::set_int_range(
        0,
        t.len() as int,
    ).contains(v) by {
        let i = choose|i: int| 0 <= i < at.len() && at[i] == v;
    }
    vstd::set_lib::lemma_len_subset(at.to_set(), vstd::set_lib::set_int_range(0, t.len() as int));
}

/// The corners of the pieces on a sheet that lie furthest from the origin.
pub open spec fn corners(problem: Problem, placements: Seq<Placement>, s: int, k: nat) -> Seq<
    (u32, u32),
>
    decreases k,
{
    if k == 0 {
        Seq::empty()
    } else {
        let rest = corners(problem, placements, s, (k - 1) as nat);
        let c = placements[k - 1].cell(problem.pieces@);
        if c.sheet_idx == s {
            rest.push((c.right() as u32, c.bottom() as u32))
        } else {
            rest
        }
    }
}

/// The next height at which a corner lies, `y` where none lies above it.
pub open spec fn next_corner(cs: Seq<(u32, u32)>, y: int) -> int
    decreases cs.len(),
{
    if cs.len() == 0 {
        y
    } else {
        let rest = next_corner(cs.drop_last(), y);
        let v = cs.last().1 as int;
        if v > y && (rest == y || v < rest) {
            v
        } else {
            rest
        }
    }
}

/// How far the corners above `y` reach.
pub open spec fn reach_above(cs: Seq<(u32, u32)>, y: int) -> int
    decreases cs.len(),
{
    if cs.len() == 0 {
        0
    } else {
        let rest = reach_above(cs.drop_last(), y);
        if cs.last().1 > y && cs.last().0 > rest {
            cs.last().0 as int
        } else {
            rest
        }
    }
}

/// The area above `y` of all rectangles from the origin to a corner together.
pub open spec fn stairs_above(cs: Seq<(u32, u32)>, y: int) -> int
    decreases u32::MAX - y,
{
    let z = next_corner(cs, y);
    if z <= y || z > u32::MAX {
        0
    } else {
        (z - y) * reach_above(cs, y) + stairs_above(cs, z)
    }
}

/// The area of the staircase of a sheet.
pub open spec fn staircase(problem: Problem, placements: Seq<Placement>, s: int) -> int {
    stairs_above(corners(problem, placements, s, placements.len()), 0)
}

/// The largest staircase of the first `n` sheets.
pub open spec fn largest_staircase(problem: Problem, placements: Seq<Placement>, n: nat) -> int
    decreases n,
{
    if n == 0 {
        0
    } else {
        let rest = largest_staircase(problem, placements, (n - 1) as nat);
        let a = staircase(problem, placements, n - 1);
        if a > rest {
            a
        } else {
            rest
        }
    }
}

proof fn lemma_levels(cs: Seq<(u32, u32)>, y: int)
    requires
        0 <= y,
    ensures
        y <= next_corner(cs, y),
        next_corner(cs, y) > y ==> next_corner(cs, y) <= u32::MAX,
        0 <= reach_above(cs, y) <= u32::MAX,
    decreases cs.len(),
{
    if cs.len() > 0 {
        lemma_levels(cs.drop_last(), y);
    }
}

fn sheet_stairs(cs: &Vec<(u32, u32)>) -> (r: u64)
    ensures
        r == stairs_above(cs@, 0),
{
    let mut area: u64 = 0;
    let mut y: u32 = 0;
    let mut open = true;
    while open
        invariant
            area <= y * 0xffff_ffff,
            stairs_above(cs@, 0) == area + (if open {
                stairs_above(cs@, y as int)
            } else {
                0
            }),
        decreases
            0xffff_ffff - y,
            (if open {
                1int
            } else {
                0int
            }),
    {
        let mut z: u32 = y;
        let mut w: u32 = 0;
        let mut k: usize = 0;
        assert(cs@.take(0) =~= Seq::empty());
        while k < cs.len()
            invariant
                k <= cs@.len(),
                z == next_corner(cs@.take(k as int), y as int),
                w == reach_above(cs@.take(k as int), y as int),
            decreases cs@.len() - k,
        {
            let c = cs[k];
            assert(cs@.take(k + 1).drop_last() =~= cs@.take(k as int));
            if c.1 > y && (z == y || c.1 < z) {
                z = c.1;
            }
            if c.1 > y && c.0 > w {
                w = c.0;
            }
            k += 1;
        }
        assert(cs@.take(k as int) =~= cs@);
        proof {
            lemma_levels(cs@, y as int);
        }
        if z == y {
            open = false;
        } else {
            assert((z - y) * w <= (z - y) * 0xffff_ffff) by (nonlinear_arith)
                requires
                    z > y,
                    0 <= w <= 0xffff_ffff,
            ;
            assert(y * 0xffff_ffff + (z - y) * 0xffff_ffff == z * 0xffff_ffff);
            area = area + (z - y) as u64 * w as u64;
            y = z;
        }
    }
    area
}

impl Solution {
    /// How many sheets too many hold a size of piece, over all sizes: 0 where every size is on
    /// one sheet only. A size is the same however the piece is turned.
    pub fn sheet_spread_penalty(&self, problem: &Problem) -> (r: u64)
        requires
            forall|i: int|
                0 <= i < self.placements@.len() ==> (#[trigger] self.placements@[i]).piece_idx
                    < problem.pieces@.len(),
        ensures
            r == spread(*problem, self.placements@),
    {
        let mut pairs: Vec<(u32, u32, usize)> = Vec::new();
        let mut plain: Vec<(u32, u32)> = Vec::new();
        let mut k: usize = 0;
        let ghost a = sizes_on_sheets(*problem, self.placements@);
        let ghost b = sizes(*problem, self.placements@);
        while k < self.placements.len()
            invariant
                k <= self.placements@.len(),
                forall|i: int|
                    0 <= i < self.placements@.len() ==> (#[trigger] self.placements@[i]).piece_idx
                        < problem.pieces@.len(),
                a == sizes_on_sheets(*problem, self.placements@),
                b == sizes(*problem, self.placements@),
                pairs@.no_duplicates(),
                plain@.no_duplicates(),
                forall|v: (u32, u32, usize)|
                    #![trigger pairs@.contains(v)]
                    #![trigger a.take(k as int).contains(v)]
                    pairs@.contains(v) <==> a.take(k as int).contains(v),
                forall|v: (u32, u32)|
                    #![trigger plain@.contains(v)]
                    #![trigger b.take(k as int).contains(v)]
                    plain@.contains(v) <==> b.take(k as int).contains(v),
            decreases self.placements@.len() - k,
        {
            let pl = self.placements[k];
            assert(self.placements@[k as int].piece_idx < problem.pieces@.len());
            let p = &problem.pieces[pl.piece_idx];
            let (w, h) = if pl.rotated {
                (p.height, p.width)
            } else {
                (p.width, p.height)
            };
            let (lo, hi) = sides(w, h);
            let ghost (pairs0, plain0) = (pairs@, plain@);
            proof {
                assert(a[k as int] == (lo, hi, pl.sheet_idx));
                assert(b[k as int] == (lo, hi));
                assert(a.take(k + 1) =~= a.take(k as int).push(a[k as int]));
                assert(b.take(k + 1) =~= b.take(k as int).push(b[k as int]));
                lemma_push_items(a.take(k as int), a[k as int]);
                lemma_push_items(b.take(k as int), b[k as int]);
                lemma_push_items(pairs0, a[k as int]);
                lemma_push_items(plain0, b[k as int]);
            }
            if !has_triple(&pairs, (lo, hi, pl.sheet_idx)) {
                pairs.push((lo, hi, pl.sheet_idx));
            }
            if !has_pair(&plain, (lo, hi)) {
                plain.push((lo, hi));
            }
            k += 1;
        }
        proof {
            assert(a.take(k as int) =~= a);
            assert(b.take(k as int) =~= b);
            lemma_distinct_len(pairs@, a);
            lemma_distinct_len(plain@, b);
            assert forall|i: int| 0 <= i < plain@.len() implies occurs(
                pairs@,
                #[trigger] plain@[i],
            ) by {
                assert(plain@.contains(plain@[i]));
                assert(b.contains(plain@[i]));
                let q = choose|q: int| 0 <= q < b.len() && b[q] == plain@[i];
                assert(a.contains(a[q]));
                assert(pairs@.contains(a[q]));
                let j = choose|j: int| 0 <= j < pairs@.len() && pairs@[j] == a[q];
                assert(plain@[i].0 == pairs@[j].0 && plain@[i].1 == pairs@[j].1);
            }
            lemma_fewer_sizes(pairs@, plain@);
        }
        (pairs.len() - plain.len()) as u64
    }

    /// The largest area, over all sheets, of the staircase that the pieces of a sheet reach from
    /// the origin.
    pub fn staircase_area(&self, problem: &Problem) -> (r: u64)
        requires
            readable(*problem, self.placements@),
        ensures
            r == largest_staircase(
                *problem,
                self.placements@,
                sheet_count(self.placements@) as nat,
            ),
    {
        let n: usize = self.sheets_used();
        proof {
            lemma_sheet_count(self.placements@);
        }
        let mut best: u64 = 0;
        let mut s: usize = 0;
        while s < n
            invariant
                s <= n,
                readable(*problem, self.placements@),
                best == largest_staircase(*problem, self.placements@, s as nat),
            decreases n - s,
        {
            let mut cs: Vec<(u32, u32)> = Vec::new();
            let mut k: usize = 0;
            while k < self.placements.len()
                invariant
                    k <= self.placements@.len(),
                    readable(*problem, self.placements@),
                    cs@ == corners(*problem, self.placements@, s as int, k as nat),
                decreases self.placements@.len() - k,
            {
                let pl = self.placements[k];
                let c = crate::model::placement_rect(&pl, problem);
                if c.sheet_idx == s {
                    cs.push((c.x + c.w, c.y + c.h));
                }
                k += 1;
            }
            let area: u64 = sheet_stairs(&cs);
            if area > best {
                best = area;
            }
            s += 1;
        }
        best
    }
}

/// How far the corners reach on the line from height `y` to the next, added up over the lines from
/// `y` up to `h`.
pub open spec fn line_by_line(cs: Seq<(u32, u32)>, y: int, h: int) -> int
    decreases h - y,
{
    if y >= h {
        0
    } else {
        reach_above(cs, y) + line_by_line(cs, y + 1, h)
    }
}

/// The reach at a height is that of the corner furthest to the right of those above it.
pub proof fn law_reach_is_of_the_furthest(cs: Seq<(u32, u32)>, y: int)
    ensures
        reach_above(cs, y) >= 0,
        forall|i: int|
            0 <= i < cs.len() && (#[trigger] cs[i]).1 > y ==> cs[i].0 <= reach_above(cs, y),
        reach_above(cs, y) > 0 ==> exists|i: int|
            0 <= i < cs.len() && (#[trigger] cs[i]).1 > y && cs[i].0 == reach_above(cs, y),
    decreases cs.len(),
{
    if cs.len() > 0 {
        let rest = cs.drop_last();
        law_reach_is_of_the_furthest(rest, y);
        assert forall|i: int| 0 <= i < cs.len() && (#[trigger] cs[i]).1 > y implies cs[i].0
            <= reach_above(cs, y) by {
            if i < rest.len() {
                assert(rest[i] == cs[i]);
            }
        }
        if reach_above(cs, y) > 0 {
            if reach_above(cs, y) == reach_above(rest, y) {
                let i = choose|i: int|
                    0 <= i < rest.len() && (#[trigger] rest[i]).1 > y && rest[i].0 == reach_above(
                        rest,
                        y,
                    );
                assert(cs[i] == rest[i]);
            } else {
                assert(cs[cs.len() - 1].1 > y);
            }
        }
    }
}

/// The next corner is the lowest above a height.
proof fn lemma_next_corner_lowest(cs: Seq<(u32, u32)>, y: int)
    ensures
        next_corner(cs, y) >= y,
        forall|i: int|
            0 <= i < cs.len() && (#[trigger] cs[i]).1 > y ==> y < next_corner(cs, y) <= cs[i].1,
        next_corner(cs, y) > y ==> exists|i: int|
            0 <= i < cs.len() && (#[trigger] cs[i]).1 == next_corner(cs, y),
    decreases cs.len(),
{
    if cs.len() > 0 {
        let rest = cs.drop_last();
        lemma_next_corner_lowest(rest, y);
        assert forall|i: int| 0 <= i < cs.len() && (#[trigger] cs[i]).1 > y implies y
            < next_corner(cs, y) <= cs[i].1 by {
            if i < rest.len() {
                assert(rest[i] == cs[i]);
            }
        }
        if next_corner(cs, y) > y {
            if next_corner(cs, y) == next_corner(rest, y) {
                let i = choose|i: int|
                    0 <= i < rest.len() && (#[trigger] rest[i]).1 == next_corner(rest, y);
                assert(cs[i] == rest[i]);
            } else {
                assert(cs[cs.len() - 1].1 == next_corner(cs, y));
            }
        }
    }
}

/// No corner lies between two heights: the reach is the same at both.
proof fn lemma_same_reach(cs: Seq<(u32, u32)>, y: int, t: int)
    requires
        y <= t,
        forall|i: int| 0 <= i < cs.len() ==> (#[trigger] cs[i]).1 <= y || cs[i].1 > t,
    ensures
        reach_above(cs, y) == reach_above(cs, t),
    decreases cs.len(),
{
    if cs.len() > 0 {
        let rest = cs.drop_last();
        assert forall|i: int| 0 <= i < rest.len() implies (#[trigger] rest[i]).1 <= y || rest[i].1
            > t by {
            assert(rest[i] == cs[i]);
        }
        lemma_same_reach(rest, y, t);
        assert(cs[cs.len() - 1].1 <= y || cs[cs.len() - 1].1 > t);
    }
}

proof fn lemma_lines_alike(cs: Seq<(u32, u32)>, y: int, t: int, z: int, h: int)
    requires
        y <= t <= z <= h,
        forall|i: int| 0 <= i < cs.len() ==> (#[trigger] cs[i]).1 <= y || cs[i].1 >= z,
    ensures
        line_by_line(cs, t, h) == (z - t) * reach_above(cs, y) + line_by_line(cs, z, h),
    decreases z - t,
{
    let r = reach_above(cs, y);
    if t < z {
        assert forall|i: int| 0 <= i < cs.len() implies (#[trigger] cs[i]).1 <= y || cs[i].1 > t by {
        }
        lemma_same_reach(cs, y, t);
        lemma_lines_alike(cs, y, t + 1, z, h);
        assert((z - t) * r == r + (z - (t + 1)) * r) by (nonlinear_arith);
    } else {
        assert((z - t) * r == 0) by (nonlinear_arith)
            requires
                z == t,
        ;
    }
}

/// The area of a staircase is that of all lines, each as far as the furthest corner above it: that
/// of all rectangles from the origin to a corner, taken together.
pub proof fn law_staircase_line_by_line(cs: Seq<(u32, u32)>, y: int, h: int)
    requires
        0 <= y <= h <= u32::MAX,
        forall|i: int| 0 <= i < cs.len() ==> (#[trigger] cs[i]).1 <= h,
    ensures
        stairs_above(cs, y) == line_by_line(cs, y, h),
    decreases h - y,
{
    lemma_next_corner_lowest(cs, y);
    let z = next_corner(cs, y);
    if z <= y {
        law_reach_is_of_the_furthest(cs, y);
        assert forall|i: int| 0 <= i < cs.len() implies (#[trigger] cs[i]).1 <= y || cs[i].1 >= h by {
        }
        lemma_lines_alike(cs, y, y, h, h);
        assert((h - y) * reach_above(cs, y) == 0) by (nonlinear_arith)
            requires
                reach_above(cs, y) == 0,
        ;
    } else {
        assert(z <= h);
        assert forall|i: int| 0 <= i < cs.len() implies (#[trigger] cs[i]).1 <= y || cs[i].1 >= z by {
        }
        lemma_lines_alike(cs, y, y, z, h);
        law_staircase_line_by_line(cs, z, h);
    }
}

/// The corners of a sheet are those of its pieces, and no staircase of a sheet is larger than the
/// largest, which is that of a sheet.
pub proof fn law_largest_staircase(
    problem: Problem,
    placements: Seq<Placement>,
    n: nat,
    s: int,
)
    ensures
        0 <= s < n ==> staircase(problem, placements, s) <= largest_staircase(
            problem,
            placements,
            n,
        ),
        largest_staircase(problem, placements, n) > 0 ==> exists|t: int|
            0 <= t < n && #[trigger] staircase(problem, placements, t) == largest_staircase(
                problem,
                placements,
                n,
            ),
    decreases n,
{
    if n > 0 {
        law_largest_staircase(problem, placements, (n - 1) as nat, s);
        if largest_staircase(problem, placements, n) > 0 {
            assert(staircase(problem, placements, n - 1) == staircase(problem, placements, n - 1));
        }
    }
}

} // verus!
