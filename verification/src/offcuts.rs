//! What a solution leaves of its sheets, and how its pieces spread.

use vstd::prelude::*;

use crate::model::{
    in_sheet, lemma_sheet_count, placement_rect, sheet_count, FreeRect, Placement, Problem, Sheet,
    Solution,
};
use crate::score::{
    cut_line_total, lemma_sorted_spans, lemma_totals_bound, readable, scaled, sort_spans,
    sorted_spans, square, strip_total, upright_spans, Objective, Span, SpanOrder,
    CUT_LINE_WEIGHT, STRIP_WEIGHT,
};
use crate::sorting::{in_order, lemma_order_exists, order_of};

verus! {

/// The rectangles that the pieces of one sheet cover, in placement order.
pub open spec fn sheet_rects(
    problem: Problem,
    placements: Seq<Placement>,
    sheet_idx: int,
) -> Seq<FreeRect>
    decreases placements.len(),
{
    if placements.len() == 0 {
        Seq::empty()
    } else {
        let rest = sheet_rects(problem, placements.drop_last(), sheet_idx);
        let c = placements.last().cell(problem.pieces@);
        if c.sheet_idx == sheet_idx {
            rest.push(c)
        } else {
            rest
        }
    }
}

pub open spec fn capped(v: int, limit: int) -> int {
    if v < limit {
        v
    } else {
        limit
    }
}

/// `v` where it lies between `y` and `m`, else `m`.
pub open spec fn nearer(m: int, v: int, y: int) -> int {
    if y < v < m {
        v
    } else {
        m
    }
}

/// The first level below `y` on which some rectangle begins or ends, or the sheet ends.
pub open spec fn next_level(rs: Seq<FreeRect>, height: int, y: int) -> int
    decreases rs.len(),
{
    if rs.len() == 0 {
        height
    } else {
        let m = next_level(rs.drop_last(), height, y);
        let c = rs.last();
        nearer(nearer(m, capped(c.y as int, height), y), capped(c.bottom(), height), y)
    }
}

/// The parts of the band from `y0` to `y1` that are covered.
pub open spec fn band_spans(rs: Seq<FreeRect>, width: int, y0: int, y1: int) -> Seq<Span>
    decreases rs.len(),
{
    if rs.len() == 0 {
        Seq::empty()
    } else {
        let rest = band_spans(rs.drop_last(), width, y0, y1);
        let c = rs.last();
        if c.y <= y0 && c.bottom() >= y1 {
            rest.push(Span { key: 0, width: 0, lo: c.x, hi: capped(c.right(), width) as u32 })
        } else {
            rest
        }
    }
}

/// State of a sweep along a band: what the gaps so far add up to, and where the covered part
/// ends.
pub struct Sweep {
    pub total: int,
    pub cursor: int,
}

/// Sweeps over the first `k` covered parts of a band of height `bh`, in order.
pub open spec fn sweep(s: Seq<Span>, bh: int, k: nat) -> Sweep
    decreases k,
{
    if k == 0 {
        Sweep { total: 0, cursor: 0 }
    } else {
        let r = sweep(s, bh, (k - 1) as nat);
        let e = s[k - 1];
        Sweep {
            total: if e.lo > r.cursor {
                r.total + square((e.lo - r.cursor) * bh)
            } else {
                r.total
            },
            cursor: if e.hi > r.cursor {
                e.hi as int
            } else {
                r.cursor
            },
        }
    }
}

/// Sum of the squared areas of the gaps of the band from `y0` to `y1`.
pub open spec fn band_total(rs: Seq<FreeRect>, width: int, y0: int, y1: int) -> int {
    let s = sorted_spans(band_spans(rs, width, y0, y1));
    let r = sweep(s, y1 - y0, s.len());
    if width > r.cursor {
        r.total + square((width - r.cursor) * (y1 - y0))
    } else {
        r.total
    }
}

/// Sum of the squared gap areas of all bands from `y` down.
pub open spec fn drop_total(rs: Seq<FreeRect>, sheet: Sheet, y: int) -> int
    decreases sheet.height - y,
{
    let z = next_level(rs, sheet.height as int, y);
    if z <= y || z > sheet.height {
        0
    } else {
        band_total(rs, sheet.width as int, y, z) + drop_total(rs, sheet, z)
    }
}

/// Sum of the squared areas of the free rectangles of the last sheet.
pub open spec fn drop_score(problem: Problem, placements: Seq<Placement>) -> int {
    let n = sheet_count(placements);
    if n == 0 {
        0
    } else {
        drop_total(sheet_rects(problem, placements, n - 1), problem.sheet, 0)
    }
}

proof fn lemma_next_level(rs: Seq<FreeRect>, height: int, y: int)
    requires
        y < height,
    ensures
        y < next_level(rs, height, y) <= height,
    decreases rs.len(),
{
    if rs.len() > 0 {
        lemma_next_level(rs.drop_last(), height, y);
    }
}

/// No rectangle reaches over the right side of the sheet.
spec fn rects_inside(rs: Seq<FreeRect>, width: int) -> bool {
    forall|i: int| 0 <= i < rs.len() ==> (#[trigger] rs[i]).right() <= width
}

proof fn lemma_band_spans(rs: Seq<FreeRect>, width: int, y0: int, y1: int)
    requires
        0 <= width <= u32::MAX,
    ensures
        band_spans(rs, width, y0, y1).len() <= rs.len(),
        forall|i: int|
            0 <= i < band_spans(rs, width, y0, y1).len() ==> (#[trigger] band_spans(
                rs,
                width,
                y0,
                y1,
            )[i]).hi <= width,
        rects_inside(rs, width) ==> upright_spans(band_spans(rs, width, y0, y1)),
    decreases rs.len(),
{
    if rs.len() > 0 {
        let q = rs.drop_last();
        assert forall|i: int| 0 <= i < q.len() implies #[trigger] q[i] == rs[i] by {}
        lemma_band_spans(q, width, y0, y1);
        assert(rs[rs.len() - 1] == rs.last());
        let a = band_spans(rs, width, y0, y1);
        let b = band_spans(q, width, y0, y1);
        assert forall|i: int| 0 <= i < a.len() implies (#[trigger] a[i]).hi <= width && (
        rects_inside(rs, width) ==> a[i].lo <= a[i].hi) by {
            if i < b.len() {
                assert(a[i] == b[i]);
            }
        }
    }
}

proof fn lemma_square_sum(a: int, b: int)
    requires
        a >= 0,
        b >= 0,
    ensures
        square(a) + square(b) <= square(a + b),
        square(a) >= 0,
        square(b) >= 0,
{
    assert(square(a) + square(b) <= square(a + b)) by (nonlinear_arith)
        requires
            a >= 0,
            b >= 0,
    ;
    assert(square(a) >= 0) by (nonlinear_arith);
    assert(square(b) >= 0) by (nonlinear_arith);
}

proof fn lemma_sweep(s: Seq<Span>, width: int, bh: int, k: nat)
    requires
        k <= s.len(),
        0 < bh,
        0 <= width,
        forall|i: int| 0 <= i < s.len() ==> (#[trigger] s[i]).hi <= width,
    ensures
        0 <= sweep(s, bh, k).cursor <= width,
        0 <= sweep(s, bh, k).total,
        upright_spans(s) ==> sweep(s, bh, k).total <= square(sweep(s, bh, k).cursor * bh),
    decreases k,
{
    if k == 0 {
        assert(square(0 * bh) == 0);
    } else {
        lemma_sweep(s, width, bh, (k - 1) as nat);
        let r = sweep(s, bh, (k - 1) as nat);
        let t = sweep(s, bh, k);
        let e = s[k - 1];
        if e.lo > r.cursor {
            let a = r.cursor * bh;
            let b = (e.lo - r.cursor) * bh;
            assert(a >= 0 && b >= 0) by (nonlinear_arith)
                requires
                    a == r.cursor * bh,
                    b == (e.lo - r.cursor) * bh,
                    r.cursor >= 0,
                    e.lo > r.cursor,
                    bh > 0,
            ;
            lemma_square_sum(a, b);
            if upright_spans(s) {
                assert(e.lo <= e.hi);
                assert(a + b <= t.cursor * bh) by (nonlinear_arith)
                    requires
                        a == r.cursor * bh,
                        b == (e.lo - r.cursor) * bh,
                        e.lo <= t.cursor,
                        bh > 0,
                ;
                let c = t.cursor * bh;
                assert(square(a + b) <= square(c)) by (nonlinear_arith)
                    requires
                        0 <= a + b <= c,
                ;
            }
        } else {
            let a = r.cursor * bh;
            let c = t.cursor * bh;
            assert(0 <= a <= c) by (nonlinear_arith)
                requires
                    a == r.cursor * bh,
                    c == t.cursor * bh,
                    0 <= r.cursor <= t.cursor,
                    bh > 0,
            ;
            assert(square(a) <= square(c)) by (nonlinear_arith)
                requires
                    0 <= a <= c,
            ;
        }
    }
}

proof fn lemma_sweep_grows(s: Seq<Span>, bh: int, k: nat, n: nat)
    requires
        k <= n <= s.len(),
    ensures
        sweep(s, bh, k).total <= sweep(s, bh, n).total,
    decreases n,
{
    if k < n {
        lemma_sweep_grows(s, bh, k, (n - 1) as nat);
        let r = sweep(s, bh, (n - 1) as nat);
        let e = s[n - 1];
        assert(square((e.lo - r.cursor) * bh) >= 0) by (nonlinear_arith);
    }
}

proof fn lemma_band_total(rs: Seq<FreeRect>, width: int, y0: int, y1: int)
    requires
        rs.len() <= usize::MAX,
        0 <= width <= u32::MAX,
        y0 < y1,
    ensures
        0 <= band_total(rs, width, y0, y1),
        rects_inside(rs, width) ==> band_total(rs, width, y0, y1) <= square(width * (y1 - y0)),
{
    let spans = band_spans(rs, width, y0, y1);
    lemma_band_spans(rs, width, y0, y1);
    lemma_sorted_spans(spans);
    let s = sorted_spans(spans);
    assert forall|i: int| 0 <= i < s.len() implies (#[trigger] s[i]).hi <= width && (rects_inside(
        rs,
        width,
    ) ==> s[i].lo <= s[i].hi) by {
        assert(spans.contains(s[i]));
    }
    let bh = y1 - y0;
    lemma_sweep(s, width, bh, s.len());
    let r = sweep(s, bh, s.len());
    let a = r.cursor * bh;
    let b = (width - r.cursor) * bh;
    assert(a >= 0 && b >= 0 && a + b == width * bh) by (nonlinear_arith)
        requires
            a == r.cursor * bh,
            b == (width - r.cursor) * bh,
            0 <= r.cursor <= width,
            bh > 0,
    ;
    lemma_square_sum(a, b);
}

/// What is left of the sheet is no more than the sheet.
proof fn lemma_drop_total(rs: Seq<FreeRect>, sheet: Sheet, y: int)
    requires
        rs.len() <= usize::MAX,
        0 <= y,
    ensures
        0 <= drop_total(rs, sheet, y),
        rects_inside(rs, sheet.width as int) && y <= sheet.height ==> drop_total(rs, sheet, y)
            <= square(sheet.width * (sheet.height - y)),
    decreases sheet.height - y,
{
    let h = sheet.height as int;
    let w = sheet.width as int;
    if y < h {
        lemma_next_level(rs, h, y);
        let z = next_level(rs, h, y);
        lemma_band_total(rs, w, y, z);
        lemma_drop_total(rs, sheet, z);
        let a = w * (z - y);
        let b = w * (h - z);
        assert(a >= 0 && b >= 0 && a + b == w * (h - y)) by (nonlinear_arith)
            requires
                a == w * (z - y),
                b == w * (h - z),
                w >= 0,
                y < z <= h,
        ;
        lemma_square_sum(a, b);
    } else {
        assert(square(w * (h - y)) >= 0) by (nonlinear_arith);
    }
}

fn collect_rects(problem: &Problem, placements: &Vec<Placement>, sheet_idx: usize) -> (out: Vec<
    FreeRect,
>)
    requires
        readable(*problem, placements@),
    ensures
        out@ == sheet_rects(*problem, placements@, sheet_idx as int),
        forall|i: int|
            0 <= i < out@.len() ==> (#[trigger] out@[i]).right() <= u32::MAX && out@[i].bottom()
                <= u32::MAX,
{
    let mut out: Vec<FreeRect> = Vec::new();
    let mut k: usize = 0;
    assert(placements@.take(0) =~= Seq::empty());
    while k < placements.len()
        invariant
            k <= placements.len(),
            readable(*problem, placements@),
            out@ == sheet_rects(*problem, placements@.take(k as int), sheet_idx as int),
            forall|i: int|
                0 <= i < out@.len() ==> (#[trigger] out@[i]).right() <= u32::MAX
                    && out@[i].bottom() <= u32::MAX,
        decreases placements.len() - k,
    {
        assert(placements@.take(k + 1).drop_last() =~= placements@.take(k as int));
        let c = placement_rect(&placements[k], problem);
        if c.sheet_idx == sheet_idx {
            out.push(c);
        }
        k += 1;
    }
    assert(placements@.take(k as int) =~= placements@);
    out
}

fn find_next_level(rs: &Vec<FreeRect>, height: u32, y: u32) -> (z: u32)
    requires
        y < height,
        forall|i: int| 0 <= i < rs@.len() ==> (#[trigger] rs@[i]).bottom() <= u32::MAX,
    ensures
        z == next_level(rs@, height as int, y as int),
{
    let mut m: u32 = height;
    let mut k: usize = 0;
    assert(rs@.take(0) =~= Seq::empty());
    while k < rs.len()
        invariant
            k <= rs.len(),
            y < height,
            forall|i: int| 0 <= i < rs@.len() ==> (#[trigger] rs@[i]).bottom() <= u32::MAX,
            m == next_level(rs@.take(k as int), height as int, y as int),
        decreases rs.len() - k,
    {
        assert(rs@.take(k + 1).drop_last() =~= rs@.take(k as int));
        let c = rs[k];
        let a: u32 = if c.y < height {
            c.y
        } else {
            height
        };
        let end: u32 = c.y + c.h;
        let b: u32 = if end < height {
            end
        } else {
            height
        };
        if y < a && a < m {
            m = a;
        }
        if y < b && b < m {
            m = b;
        }
        k += 1;
    }
    assert(rs@.take(k as int) =~= rs@);
    m
}

fn collect_band(rs: &Vec<FreeRect>, width: u32, y0: u32, y1: u32) -> (out: Vec<Span>)
    requires
        forall|i: int|
            0 <= i < rs@.len() ==> (#[trigger] rs@[i]).right() <= u32::MAX && rs@[i].bottom()
                <= u32::MAX,
    ensures
        out@ == band_spans(rs@, width as int, y0 as int, y1 as int),
{
    let mut out: Vec<Span> = Vec::new();
    let mut k: usize = 0;
    assert(rs@.take(0) =~= Seq::empty());
    while k < rs.len()
        invariant
            k <= rs.len(),
            forall|i: int|
                0 <= i < rs@.len() ==> (#[trigger] rs@[i]).right() <= u32::MAX && rs@[i].bottom()
                    <= u32::MAX,
            out@ == band_spans(rs@.take(k as int), width as int, y0 as int, y1 as int),
        decreases rs.len() - k,
    {
        assert(rs@.take(k + 1).drop_last() =~= rs@.take(k as int));
        let c = rs[k];
        if c.y <= y0 && c.y + c.h >= y1 {
            let end: u32 = c.x + c.w;
            let hi: u32 = if end < width {
                end
            } else {
                width
            };
            out.push(Span { key: 0, width: 0, lo: c.x, hi });
        }
        k += 1;
    }
    assert(rs@.take(k as int) =~= rs@);
    out
}

fn squared_area(len: u32, bh: u32) -> (r: u64)
    requires
        square(len * bh) <= u64::MAX,
    ensures
        r == square(len * bh),
{
    assert(len * bh <= 0xffff_ffff * 0xffff_ffff) by (nonlinear_arith)
        requires
            0 <= len <= 0xffff_ffff,
            0 <= bh <= 0xffff_ffff,
    ;
    let area: u64 = len as u64 * bh as u64;
    area * area
}

fn squared_gaps(rs: &Vec<FreeRect>, width: u32, y0: u32, y1: u32) -> (r: u64)
    requires
        y0 < y1,
        forall|i: int|
            0 <= i < rs@.len() ==> (#[trigger] rs@[i]).right() <= u32::MAX && rs@[i].bottom()
                <= u32::MAX,
        band_total(rs@, width as int, y0 as int, y1 as int) <= u64::MAX,
    ensures
        r == band_total(rs@, width as int, y0 as int, y1 as int),
{
    let spans = collect_band(rs, width, y0, y1);
    let s = sort_spans(&spans);
    let bh: u32 = y1 - y0;
    let mut total: u64 = 0;
    let mut cursor: u32 = 0;
    let mut k: usize = 0;
    proof {
        lemma_band_spans(rs@, width as int, y0 as int, y1 as int);
        assert forall|i: int| 0 <= i < s@.len() implies (#[trigger] s@[i]).hi <= width by {
            assert(spans@.contains(s@[i]));
        }
        lemma_sweep(s@, width as int, bh as int, s@.len());
        let r = sweep(s@, bh as int, s@.len());
        assert(square((width - r.cursor) * bh) >= 0) by (nonlinear_arith);
    }
    while k < s.len()
        invariant
            k <= s.len(),
            bh > 0,
            forall|i: int| 0 <= i < s@.len() ==> (#[trigger] s@[i]).hi <= width,
            sweep(s@, bh as int, s@.len()).total <= u64::MAX,
            total == sweep(s@, bh as int, k as nat).total,
            cursor == sweep(s@, bh as int, k as nat).cursor,
        decreases s.len() - k,
    {
        let e = s[k];
        proof {
            lemma_sweep(s@, width as int, bh as int, k as nat);
            lemma_sweep_grows(s@, bh as int, (k + 1) as nat, s@.len());
        }
        if e.lo > cursor {
            total = total + squared_area(e.lo - cursor, bh);
        }
        if e.hi > cursor {
            cursor = e.hi;
        }
        k += 1;
    }
    if width > cursor {
        total = total + squared_area(width - cursor, bh);
    }
    total
}

/// Piece area on one sheet.
pub open spec fn area_on(problem: Problem, placements: Seq<Placement>, sheet_idx: int) -> int
    decreases placements.len(),
{
    if placements.len() == 0 {
        0
    } else {
        let rest = area_on(problem, placements.drop_last(), sheet_idx);
        let last = placements.last();
        if last.sheet_idx == sheet_idx {
            rest + problem.pieces@[last.piece_idx as int].area()
        } else {
            rest
        }
    }
}

proof fn lemma_area_grows(problem: Problem, placements: Seq<Placement>, s: int, k: int)
    requires
        0 <= k <= placements.len(),
    ensures
        0 <= area_on(problem, placements.take(k), s) <= area_on(problem, placements, s),
    decreases placements.len(),
{
    if placements.len() > 0 {
        let p = problem.pieces@[placements.last().piece_idx as int];
        assert(p.area() >= 0) by (nonlinear_arith)
            requires
                p.area() == p.width * p.height,
                p.width >= 0,
                p.height >= 0,
        ;
        let q = placements.drop_last();
        if k < placements.len() {
            lemma_area_grows(problem, q, s, k);
            assert(q.take(k) =~= placements.take(k));
        } else {
            lemma_area_grows(problem, q, s, q.len() as int);
            assert(q.take(q.len() as int) =~= q);
            assert(placements.take(k) =~= placements);
        }
    }
}

/// An area is no less than 0.
pub(crate) proof fn lemma_area_natural(problem: Problem, placements: Seq<Placement>, s: int)
    ensures
        area_on(problem, placements, s) >= 0,
{
    lemma_area_grows(problem, placements, s, 0);
    assert(placements.take(placements.len() as int) =~= placements);
}

/// The objective of the placements.
pub open spec fn objective_of(problem: Problem, placements: Seq<Placement>) -> Objective {
    let n = sheet_count(placements);
    if n == 0 {
        Objective {
            sheets_used: 0,
            last_sheet_area: 0,
            layout_score: 0,
            drop_consolidation_score: 0,
        }
    } else {
        Objective {
            sheets_used: n as usize,
            last_sheet_area: area_on(problem, placements, n - 1) as u64,
            layout_score: (CUT_LINE_WEIGHT * scaled(cut_line_total(problem, placements, n as nat))
                + STRIP_WEIGHT * scaled(strip_total(problem, placements, n as nat))) as u64,
            drop_consolidation_score: drop_score(problem, placements) as u64,
        }
    }
}

/// The scores of the placements can be computed in 64 bits.
pub open spec fn gradable(problem: Problem, placements: Seq<Placement>) -> bool {
    let n = sheet_count(placements);
    &&& readable(problem, placements)
    &&& 2 * placements.len() <= usize::MAX
    &&& n > 0 ==> {
        &&& area_on(problem, placements, n - 1) <= u64::MAX
        &&& cut_line_total(problem, placements, n as nat) + 5_000 <= u64::MAX
        &&& strip_total(problem, placements, n as nat) + 5_000 <= u64::MAX
        &&& drop_score(problem, placements) <= u64::MAX
    }
}

/// Sheets and piece numbers for which the scores of every layout fit in 64 bits.
pub open spec fn scorable(sheet: Sheet, n: nat) -> bool {
    &&& sheet.width * sheet.height <= u32::MAX
    &&& 2 * n * (square(sheet.width as int) + square(sheet.height as int)) + 5_000 <= u64::MAX
    &&& 2 * n <= usize::MAX
}

proof fn lemma_sheet_rects(problem: Problem, placements: Seq<Placement>, s: int)
    ensures
        sheet_rects(problem, placements, s).len() <= placements.len(),
        (forall|i: int|
            0 <= i < placements.len() ==> in_sheet(problem, #[trigger] placements[i]))
            ==> rects_inside(sheet_rects(problem, placements, s), problem.sheet.width as int),
    decreases placements.len(),
{
    if placements.len() > 0 {
        let q = placements.drop_last();
        assert forall|i: int| 0 <= i < q.len() implies #[trigger] q[i] == placements[i] by {}
        lemma_sheet_rects(problem, q, s);
        assert(placements[placements.len() - 1] == placements.last());
        let a = sheet_rects(problem, placements, s);
        let b = sheet_rects(problem, q, s);
        if forall|i: int| 0 <= i < placements.len() ==> in_sheet(problem, #[trigger] placements[i]) {
            assert forall|i: int| 0 <= i < q.len() implies in_sheet(problem, #[trigger] q[i]) by {
                assert(in_sheet(problem, placements[i]));
            }
            assert forall|i: int| 0 <= i < a.len() implies (#[trigger] a[i]).right()
                <= problem.sheet.width by {
                if i < b.len() {
                    assert(a[i] == b[i]);
                }
            }
        }
    }
}

proof fn lemma_area_bound(problem: Problem, placements: Seq<Placement>, s: int)
    requires
        forall|i: int|
            0 <= i < placements.len() ==> in_sheet(problem, #[trigger] placements[i]),
    ensures
        0 <= area_on(problem, placements, s) <= placements.len() * (problem.sheet.width
            * problem.sheet.height),
    decreases placements.len(),
{
    let w = problem.sheet.width as int;
    let h = problem.sheet.height as int;
    if placements.len() > 0 {
        let q = placements.drop_last();
        assert forall|i: int| 0 <= i < q.len() implies in_sheet(problem, #[trigger] q[i]) by {
            assert(q[i] == placements[i]);
        }
        lemma_area_bound(problem, q, s);
        assert(placements[placements.len() - 1] == placements.last());
        let c = placements.last().cell(problem.pieces@);
        let p = problem.pieces@[placements.last().piece_idx as int];
        assert(0 <= p.width * p.height <= w * h) by (nonlinear_arith)
            requires
                (0 <= p.width <= w && 0 <= p.height <= h) || (0 <= p.width <= h && 0 <= p.height
                    <= w),
        ;
        let n = q.len() as int;
        assert(n * (w * h) + w * h == (n + 1) * (w * h)) by (nonlinear_arith);
    } else {
        assert(0 * (w * h) == 0);
    }
}

/// On a sheet and piece number of moderate size every layout inside the sheets is gradable.
pub proof fn lemma_gradable(problem: Problem, placements: Seq<Placement>)
    requires
        scorable(problem.sheet, placements.len()),
        forall|i: int|
            0 <= i < placements.len() ==> {
                &&& (#[trigger] placements[i]).piece_idx < problem.pieces.len()
                &&& placements[i].sheet_idx < usize::MAX
                &&& in_sheet(problem, placements[i])
            },
    ensures
        gradable(problem, placements),
{
    let n = sheet_count(placements);
    let w = problem.sheet.width as int;
    let h = problem.sheet.height as int;
    let k = placements.len() as int;
    lemma_sheet_count(placements);
    assert forall|i: int| 0 <= i < placements.len() implies in_sheet(
        problem,
        #[trigger] placements[i],
    ) by {}
    assert forall|i: int| 0 <= i < placements.len() implies {
        &&& (#[trigger] placements[i]).piece_idx < problem.pieces.len()
        &&& placements[i].sheet_idx < usize::MAX
        &&& placements[i].cell(problem.pieces@).right() <= u32::MAX
        &&& placements[i].cell(problem.pieces@).bottom() <= u32::MAX
    } by {
        assert(in_sheet(problem, placements[i]));
    }
    if n > 0 {
        lemma_area_bound(problem, placements, n - 1);
        assert(k * (w * h) <= 2 * k * (square(w) + square(h))) by (nonlinear_arith)
            requires
                k >= 0,
                w >= 0,
                h >= 0,
        ;
        lemma_totals_bound(problem, placements, n as nat);
        let rs = sheet_rects(problem, placements, n - 1);
        lemma_sheet_rects(problem, placements, n - 1);
        lemma_drop_total(rs, problem.sheet, 0);
        let a = w * h;
        assert(square(a) <= 0xffff_ffff * 0xffff_ffff) by (nonlinear_arith)
            requires
                0 <= a <= 0xffff_ffff,
        ;
        assert(w * (h - 0) == a);
        assert(a >= 0) by (nonlinear_arith)
            requires
                a == w * h,
                w >= 0,
                h >= 0,
        ;
    }
}

impl Solution {
    /// Drop-consolidation score, higher is better: rewards few large offcuts over many small
    /// ones. Sum of the squared areas of the free rectangles of the last sheet, which is cut
    /// into bands at every level on which a piece begins or ends.
    pub fn drop_consolidation_score(&self, problem: &Problem) -> (r: u64)
        requires
            readable(*problem, self.placements@),
            drop_score(*problem, self.placements@) <= u64::MAX,
        ensures
            r == drop_score(*problem, self.placements@),
    {
        let n: usize = self.sheets_used();
        if n == 0 {
            return 0;
        }
        let rs = collect_rects(problem, &self.placements, n - 1);
        let height: u32 = problem.sheet.height;
        let width: u32 = problem.sheet.width;
        let mut total: u64 = 0;
        let mut y: u32 = 0;
        let ghost all = drop_total(rs@, problem.sheet, 0);
        while y < height
            invariant
                y <= height,
                height == problem.sheet.height,
                width == problem.sheet.width,
                all <= u64::MAX,
                forall|i: int|
                    0 <= i < rs@.len() ==> (#[trigger] rs@[i]).right() <= u32::MAX
                        && rs@[i].bottom() <= u32::MAX,
                total + drop_total(rs@, problem.sheet, y as int) == all,
            decreases height - y,
        {
            let z: u32 = find_next_level(&rs, height, y);
            proof {
                lemma_next_level(rs@, height as int, y as int);
                assert(rs@.len() == rs.len());
                lemma_drop_total(rs@, problem.sheet, z as int);
                lemma_band_total(rs@, width as int, y as int, z as int);
            }
            total = total + squared_gaps(&rs, width, y, z);
            y = z;
        }
        total
    }

    /// The objective of the solution.
    pub fn eval(&self, problem: &Problem) -> (r: Objective)
        requires
            gradable(*problem, self.placements@),
        ensures
            r == objective_of(*problem, self.placements@),
    {
        let n: usize = self.sheets_used();
        if n == 0 {
            return Objective {
                sheets_used: 0,
                last_sheet_area: 0,
                layout_score: 0,
                drop_consolidation_score: 0,
            };
        }
        let mut area: u64 = 0;
        let mut k: usize = 0;
        assert(self.placements@.take(0) =~= Seq::empty());
        while k < self.placements.len()
            invariant
                k <= self.placements.len(),
                n > 0,
                readable(*problem, self.placements@),
                area_on(*problem, self.placements@, n - 1) <= u64::MAX,
                area == area_on(*problem, self.placements@.take(k as int), n - 1),
            decreases self.placements.len() - k,
        {
            let pl = self.placements[k];
            assert(self.placements@.take(k + 1).drop_last() =~= self.placements@.take(k as int));
            proof {
                lemma_area_grows(*problem, self.placements@, n - 1, k + 1);
            }
            if pl.sheet_idx == n - 1 {
                let p = &problem.pieces[pl.piece_idx];
                assert(p.width * p.height <= 0xffff_ffff * 0xffff_ffff) by (nonlinear_arith)
                    requires
                        0 <= p.width <= 0xffff_ffff,
                        0 <= p.height <= 0xffff_ffff,
                ;
                area = area + p.width as u64 * p.height as u64;
            }
            k += 1;
        }
        assert(self.placements@.take(k as int) =~= self.placements@);
        let lines: u64 = self.cut_line_concentration_score(problem);
        let strips: u64 = self.strip_structure_score(problem);
        Objective {
            sheets_used: n,
            last_sheet_area: area,
            layout_score: CUT_LINE_WEIGHT * lines + STRIP_WEIGHT * strips,
            drop_consolidation_score: self.drop_consolidation_score(problem),
        }
    }
}

proof fn lemma_sole_span(s: Span)
    ensures
        sorted_spans(seq![s]) == seq![s],
{
    let rank = SpanOrder { spans: seq![s] };
    lemma_order_exists(rank, 1);
    let order = order_of(rank, 1);
    assert(in_order(rank, 1, order));
    assert(sorted_spans(seq![s]) =~= seq![s]);
}

/// The score of one piece as high as the sheet: the squared areas to the left and to the right.
proof fn lemma_full_height_score(problem: Problem, pl: Placement)
    requires
        pl.sheet_idx == 0,
        pl.piece_idx < problem.pieces@.len(),
        pl.y == 0,
        problem.sheet.height > 0,
        pl.cell(problem.pieces@).h == problem.sheet.height,
        pl.cell(problem.pieces@).right() < problem.sheet.width,
    ensures
        ({
            let c = pl.cell(problem.pieces@);
            let h = problem.sheet.height as int;
            drop_score(problem, seq![pl]) == (if c.x > 0 {
                square(c.x * h)
            } else {
                0
            }) + square((problem.sheet.width - c.right()) * h)
        }),
{
    let c = pl.cell(problem.pieces@);
    let (w, h) = (problem.sheet.width as int, problem.sheet.height as int);
    let one = seq![pl];
    assert(one.drop_last() =~= Seq::empty());
    assert(sheet_count(one) == 1) by {
        reveal_with_fuel(sheet_count, 2);
    }
    let rs = sheet_rects(problem, one, 0);
    assert(rs =~= seq![c]) by {
        reveal_with_fuel(sheet_rects, 2);
    }
    assert(rs.drop_last() =~= Seq::empty());
    assert(next_level(rs, h, 0) == h) by {
        reveal_with_fuel(next_level, 2);
    }
    let span = Span { key: 0, width: 0, lo: c.x, hi: capped(c.right(), w) as u32 };
    assert(band_spans(rs, w, 0, h) =~= seq![span]) by {
        reveal_with_fuel(band_spans, 2);
    }
    lemma_sole_span(span);
    reveal_with_fuel(sweep, 2);
    reveal_with_fuel(drop_total, 3);
    let s = seq![span];
    assert(sweep(s, h, 1).cursor == c.right());
}

/// Moving a piece as high as the sheet to the edge joins what is free on its two sides into
/// one rectangle and makes the score greater.
pub proof fn law_joined_drops_score_more(problem: Problem, apart: Placement, joined: Placement)
    requires
        apart.sheet_idx == 0,
        apart.piece_idx < problem.pieces@.len(),
        apart.y == 0,
        problem.sheet.height > 0,
        apart.cell(problem.pieces@).h == problem.sheet.height,
        apart.x > 0,
        apart.cell(problem.pieces@).right() < problem.sheet.width,
        joined == (Placement { x: 0, ..apart }),
    ensures
        drop_score(problem, seq![apart]) < drop_score(problem, seq![joined]),
{
    lemma_full_height_score(problem, apart);
    lemma_full_height_score(problem, joined);
    let c = apart.cell(problem.pieces@);
    let h = problem.sheet.height as int;
    let (a, b) = (c.x * h, (problem.sheet.width - c.right()) * h);
    assert(a > 0 && b > 0) by (nonlinear_arith)
        requires
            a == c.x * h,
            b == (problem.sheet.width - c.right()) * h,
            c.x > 0,
            problem.sheet.width > c.right(),
            h > 0,
    ;
    assert((problem.sheet.width - c.w) * h == a + b) by (nonlinear_arith)
        requires
            a == c.x * h,
            b == (problem.sheet.width - (c.x + c.w)) * h,
    ;
    assert((a + b) * (a + b) > a * a + b * b) by (nonlinear_arith)
        requires
            a > 0,
            b > 0,
    ;
}

} // verus!
