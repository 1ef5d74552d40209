//! What the scores of a layout count: its sheets, the area on the last one, and the runs along
//! its lines.

use vstd::prelude::*;

use crate::model::{cells, lemma_sheet_count, sheet_count, FreeRect, Placement, Problem};
use crate::offcuts::{
    area_on, band_spans, band_total, gradable, next_level, objective_of, sweep,
};
use crate::score::{
    cell_sides, cut_line_total, merge_runs, run_total, scaled, side_spans, sorted_spans, square,
    strip_spans, strip_total, upright_spans, Span, SpanOrder,
};
use crate::sorting::{in_order, lemma_in_order_all, lemma_order_exists, order_of, precedes};

verus! {

/// Spans of one line.
pub open spec fn same_line(a: Span, b: Span) -> bool {
    a.key == b.key && a.width == b.width
}

/// `x` and what is right behind it lies in a span of the line of `r`.
pub open spec fn covered(spans: Seq<Span>, r: Span, x: int) -> bool {
    exists|i: int|
        0 <= i < spans.len() && same_line(#[trigger] spans[i], r) && spans[i].lo <= x
            < spans[i].hi
}

/// The span lies in a run of its line.
pub open spec fn in_a_run(runs: Seq<Span>, s: Span) -> bool {
    exists|k: int|
        0 <= k < runs.len() && same_line(#[trigger] runs[k], s) && runs[k].lo <= s.lo && s.hi
            <= runs[k].hi
}

/// The run begins where a span of its line does.
pub open spec fn begins_with_one(spans: Seq<Span>, r: Span) -> bool {
    exists|i: int|
        0 <= i < spans.len() && same_line(#[trigger] spans[i], r) && spans[i].lo == r.lo
}

/// `runs` are what the spans amount to, line by line: every span lies in a run, every run is
/// covered by spans of its line from its beginning, which is that of a span, to its end, and two
/// runs of one line do not even touch.
pub open spec fn runs_of(spans: Seq<Span>, runs: Seq<Span>) -> bool {
    &&& forall|i: int| 0 <= i < spans.len() ==> #[trigger] in_a_run(runs, spans[i])
    &&& forall|k: int| 0 <= k < runs.len() ==> #[trigger] begins_with_one(spans, runs[k])
    &&& forall|k: int, x: int|
        0 <= k < runs.len() && runs[k].lo <= x < runs[k].hi ==> #[trigger] covered(
            spans,
            runs[k],
            x,
        )
    &&& forall|k: int, l: int|
        0 <= k < l < runs.len() && same_line(#[trigger] runs[k], #[trigger] runs[l]) ==> runs[k].hi
            < runs[l].lo
}

/// The squared lengths of runs.
pub open spec fn squares(runs: Seq<Span>) -> int
    decreases runs.len(),
{
    if runs.len() == 0 {
        0
    } else {
        squares(runs.drop_last()) + (runs.last().hi - runs.last().lo) * (runs.last().hi
            - runs.last().lo)
    }
}

/// In order: by line, then by where a span begins.
spec fn not_behind(a: Span, b: Span) -> bool {
    a.key < b.key || (a.key == b.key && (a.width < b.width || (a.width == b.width && a.lo
        <= b.lo)))
}

spec fn in_line_order(s: Seq<Span>) -> bool {
    forall|i: int, j: int| 0 <= i < j < s.len() ==> not_behind(#[trigger] s[i], #[trigger] s[j])
}

/// The runs of the first `k` spans: the closed ones and the open one.
proof fn lemma_merge(s: Seq<Span>, k: nat) -> (closed: Seq<Span>)
    requires
        1 <= k <= s.len(),
        in_line_order(s),
        upright_spans(s),
    ensures
        ({
            let r = merge_runs(s, k);
            &&& runs_of(s.take(k as int), closed.push(r.open))
            &&& squares(closed) == r.total
            &&& not_behind(r.open, s[k - 1])
            &&& same_line(r.open, s[k - 1])
            &&& forall|c: int|
                0 <= c < closed.len() ==> not_behind(#[trigger] closed[c], r.open)
        }),
    decreases k,
{
    let t = s.take(k as int);
    if k == 1 {
        let closed = Seq::<Span>::empty();
        let runs = closed.push(s[0]);
        assert(t[0] == s[0] && runs[0] == s[0]);
        assert(same_line(t[0], runs[0]));
        assert(in_a_run(runs, t[0]));
        assert(begins_with_one(t, runs[0]));
        assert forall|c: int, x: int|
            0 <= c < runs.len() && runs[c].lo <= x < runs[c].hi implies #[trigger] covered(
            t,
            runs[c],
            x,
        ) by {
            assert(same_line(t[0], runs[c]));
        }
        closed
    } else {
        let m = (k - 1) as nat;
        let before = lemma_merge(s, m);
        let a = merge_runs(s, m);
        let b = merge_runs(s, k);
        let e = s[k - 1];
        let u = s.take(m as int);
        let old_runs = before.push(a.open);
        assert(e.lo <= e.hi);
        assert(not_behind(s[k - 2], e));
        assert forall|i: int| 0 <= i < u.len() implies #[trigger] u[i] == t[i] by {}
        assert(t[k - 1] == e);
        let closed = if !same_line(e, a.open) || e.lo > a.open.hi {
            old_runs
        } else {
            before
        };
        let runs = closed.push(b.open);
        if !same_line(e, a.open) || e.lo > a.open.hi {
            assert(old_runs.drop_last() =~= before);
            assert(runs.len() == old_runs.len() + 1);
            assert(b.open == e);
        } else {
            assert(runs.len() == old_runs.len());
            assert(b.open.lo == a.open.lo && same_line(b.open, a.open));
            assert(b.open.hi >= a.open.hi && b.open.hi >= e.hi);
        }
        let n = old_runs.len() as int;
        assert forall|c: int| 0 <= c < n implies same_line(#[trigger] runs[c], old_runs[c])
            && runs[c].lo == old_runs[c].lo && runs[c].hi >= old_runs[c].hi by {}
        assert forall|i: int| 0 <= i < t.len() implies #[trigger] in_a_run(runs, t[i]) by {
            if i < m {
                assert(u[i] == t[i]);
                assert(in_a_run(old_runs, u[i]));
                let c = choose|c: int|
                    0 <= c < old_runs.len() && same_line(#[trigger] old_runs[c], u[i])
                        && old_runs[c].lo <= u[i].lo && u[i].hi <= old_runs[c].hi;
                assert(same_line(runs[c], t[i]));
            } else {
                let c = runs.len() - 1;
                assert(runs[c] == b.open);
                assert(same_line(runs[c], t[i]));
            }
        }
        assert forall|c: int| 0 <= c < runs.len() implies #[trigger] begins_with_one(
            t,
            runs[c],
        ) by {
            if c < n {
                assert(begins_with_one(u, old_runs[c]));
                let i = choose|i: int|
                    0 <= i < u.len() && same_line(#[trigger] u[i], old_runs[c]) && u[i].lo
                        == old_runs[c].lo;
                assert(t[i] == u[i]);
                assert(same_line(t[i], runs[c]));
            } else {
                assert(same_line(t[k - 1], runs[c]));
            }
        }
        assert forall|c: int, x: int|
            0 <= c < runs.len() && runs[c].lo <= x < runs[c].hi implies #[trigger] covered(
            t,
            runs[c],
            x,
        ) by {
            if c < n && x < old_runs[c].hi {
                assert(covered(u, old_runs[c], x));
                let i = choose|i: int|
                    0 <= i < u.len() && same_line(#[trigger] u[i], old_runs[c]) && u[i].lo <= x
                        < u[i].hi;
                assert(same_line(t[i], runs[c]));
            } else {
                assert(same_line(t[k - 1], runs[c]));
                assert(t[k - 1].lo <= x < t[k - 1].hi);
            }
        }
        assert forall|c: int, l: int|
            0 <= c < l < runs.len() && same_line(#[trigger] runs[c], #[trigger] runs[l]) implies
            runs[c].hi < runs[l].lo by {
            assert(runs[c] == closed[c]);
            if l < n {
                assert(runs[c] == old_runs[c]);
                assert(same_line(old_runs[c], old_runs[l]));
                assert(old_runs[c].hi < old_runs[l].lo);
            } else {
                assert(runs[l] == e);
                assert(runs[c] == old_runs[c]);
                if c < n - 1 {
                    assert(not_behind(before[c], a.open));
                    assert(old_runs[n - 1] == a.open);
                    assert(same_line(old_runs[c], old_runs[n - 1]));
                    assert(old_runs[c].hi < old_runs[n - 1].lo);
                }
            }
        }
        assert forall|c: int| 0 <= c < closed.len() implies not_behind(
            #[trigger] closed[c],
            b.open,
        ) by {
            if c < before.len() {
                assert(closed[c] == before[c]);
                assert(not_behind(before[c], a.open));
            } else {
                assert(closed[c] == a.open);
            }
        }
        closed
    }
}

/// The spans in order are the spans.
proof fn lemma_same_spans(spans: Seq<Span>)
    requires
        spans.len() <= usize::MAX,
    ensures
        sorted_spans(spans).len() == spans.len(),
        in_line_order(sorted_spans(spans)),
        forall|v: Span| #[trigger] sorted_spans(spans).contains(v) <==> spans.contains(v),
{
    let o = SpanOrder { spans };
    let n = spans.len();
    lemma_order_exists(o, n);
    let order = order_of(o, n);
    assert(in_order(o, n, order));
    let s = sorted_spans(spans);
    assert forall|i: int, j: int| 0 <= i < j < s.len() implies not_behind(
        #[trigger] s[i],
        #[trigger] s[j],
    ) by {
        assert(precedes(o, order[i] as int, order[j] as int));
    }
    assert forall|v: Span| #[trigger] s.contains(v) <==> spans.contains(v) by {
        if spans.contains(v) {
            let i = choose|i: int| 0 <= i < n && spans[i] == v;
            lemma_in_order_all(o, n, order, i as usize);
            let j = choose|j: int| 0 <= j < order.len() && order[j] == i;
            assert(s[j] == v);
        }
        if s.contains(v) {
            let j = choose|j: int| 0 <= j < n && s[j] == v;
            assert(spans[order[j] as int] == v);
        }
    }
}

/// What the runs of some spans are depends on which spans there are, not on their order.
proof fn lemma_runs_of_same(s: Seq<Span>, spans: Seq<Span>, runs: Seq<Span>)
    requires
        runs_of(s, runs),
        forall|v: Span| #[trigger] s.contains(v) <==> spans.contains(v),
    ensures
        runs_of(spans, runs),
{
    assert forall|i: int| 0 <= i < spans.len() implies #[trigger] in_a_run(runs, spans[i]) by {
        assert(spans.contains(spans[i]));
        assert(s.contains(spans[i]));
        let j = choose|j: int| 0 <= j < s.len() && s[j] == spans[i];
        assert(in_a_run(runs, s[j]));
    }
    assert forall|k: int| 0 <= k < runs.len() implies #[trigger] begins_with_one(
        spans,
        runs[k],
    ) by {
        assert(begins_with_one(s, runs[k]));
        let j = choose|j: int|
            0 <= j < s.len() && same_line(#[trigger] s[j], runs[k]) && s[j].lo == runs[k].lo;
        assert(s.contains(s[j]));
        let i = choose|i: int| 0 <= i < spans.len() && spans[i] == s[j];
        assert(same_line(spans[i], runs[k]));
    }
    assert forall|k: int, x: int|
        0 <= k < runs.len() && runs[k].lo <= x < runs[k].hi implies #[trigger] covered(
        spans,
        runs[k],
        x,
    ) by {
        assert(covered(s, runs[k], x));
        let j = choose|j: int|
            0 <= j < s.len() && same_line(#[trigger] s[j], runs[k]) && s[j].lo <= x < s[j].hi;
        assert(s.contains(s[j]));
        let i = choose|i: int| 0 <= i < spans.len() && spans[i] == s[j];
        assert(same_line(spans[i], runs[k]));
    }
}

/// The total of some spans is that of the squared lengths of their runs: of what they amount to,
/// line by line, where spans that overlap or touch are one.
pub proof fn law_total_is_of_squared_runs(spans: Seq<Span>)
    requires
        spans.len() <= usize::MAX,
        upright_spans(spans),
    ensures
        exists|runs: Seq<Span>|
            #[trigger] runs_of(spans, runs) && run_total(spans) == squares(runs),
{
    let s = sorted_spans(spans);
    lemma_same_spans(spans);
    if spans.len() == 0 {
        let runs = Seq::<Span>::empty();
        assert(runs_of(spans, runs));
        assert(run_total(spans) == squares(runs));
    } else {
        assert forall|i: int| 0 <= i < s.len() implies (#[trigger] s[i]).lo <= s[i].hi by {
            assert(s.contains(s[i]));
            let j = choose|j: int| 0 <= j < spans.len() && spans[j] == s[i];
            assert(spans[j].lo <= spans[j].hi);
        }
        let closed = lemma_merge(s, s.len());
        let r = merge_runs(s, s.len());
        let runs = closed.push(r.open);
        assert(s.take(s.len() as int) =~= s);
        lemma_runs_of_same(s, spans, runs);
        assert(runs.drop_last() =~= closed);
        assert(run_total(spans) == squares(runs));
    }
}

/// The span is a side of a piece on the sheet that is not a side of the sheet: to the left or
/// right of it, or above or below.
pub open spec fn is_inner_side(
    problem: Problem,
    pl: Placement,
    sheet_idx: int,
    upright: bool,
    s: Span,
) -> bool {
    let c = pl.cell(problem.pieces@);
    let (near, far, lo, hi, end) = if upright {
        (c.x as int, c.x + c.w, c.y as int, c.y + c.h, problem.sheet.width)
    } else {
        (c.y as int, c.y + c.h, c.x as int, c.x + c.w, problem.sheet.height)
    };
    &&& pl.sheet_idx == sheet_idx
    &&& s.width == 0
    &&& s.lo == lo
    &&& s.hi == hi
    &&& (s.key == near && near > 0) || (s.key == far && far < end)
}

/// The span is a piece on the sheet as a member of its column or row: keyed by where that begins
/// and how wide it is, from where the piece begins to where it ends.
pub open spec fn is_member_of_strip(
    problem: Problem,
    pl: Placement,
    sheet_idx: int,
    upright: bool,
    s: Span,
) -> bool {
    let c = pl.cell(problem.pieces@);
    &&& pl.sheet_idx == sheet_idx
    &&& if upright {
        s.key == c.x && s.width == c.w && s.lo == c.y && s.hi == c.y + c.h
    } else {
        s.key == c.y && s.width == c.h && s.lo == c.x && s.hi == c.x + c.w
    }
}

/// The lines that are scored are the inner sides of the pieces.
pub proof fn law_lines_are_inner_sides(
    problem: Problem,
    placements: Seq<Placement>,
    sheet_idx: int,
    upright: bool,
    s: Span,
)
    requires
        forall|i: int|
            0 <= i < placements.len() ==> (#[trigger] placements[i]).cell(problem.pieces@).right()
                <= u32::MAX && placements[i].cell(problem.pieces@).bottom() <= u32::MAX,
    ensures
        side_spans(problem, placements, sheet_idx, upright).contains(s) <==> exists|i: int|
            0 <= i < placements.len() && is_inner_side(
                problem,
                #[trigger] placements[i],
                sheet_idx,
                upright,
                s,
            ),
    decreases placements.len(),
{
    if placements.len() > 0 {
        let rest = placements.drop_last();
        assert forall|i: int| 0 <= i < rest.len() implies (#[trigger] rest[i]).cell(
            problem.pieces@,
        ).right() <= u32::MAX && rest[i].cell(problem.pieces@).bottom() <= u32::MAX by {
            assert(rest[i] == placements[i]);
        }
        law_lines_are_inner_sides(problem, rest, sheet_idx, upright, s);
        let last = placements.last();
        let n = rest.len() as int;
        assert(placements[n] == last);
        let c = last.cell(problem.pieces@);
        let a = side_spans(problem, rest, sheet_idx, upright);
        let b = side_spans(problem, placements, sheet_idx, upright);
        let more = cell_sides(problem.sheet, c, upright);
        assert(is_inner_side(problem, last, sheet_idx, upright, s) <==> last.sheet_idx == sheet_idx
            && more.contains(s)) by {
            if is_inner_side(problem, last, sheet_idx, upright, s) {
                let near = if upright {
                    c.x
                } else {
                    c.y
                };
                if s.key == near && near > 0 {
                    assert(more[0] == s);
                } else {
                    assert(more[more.len() - 1] == s);
                }
            }
        }
        if b.contains(s) {
            let k = choose|k: int| 0 <= k < b.len() && b[k] == s;
            if k < a.len() {
                assert(a[k] == s);
                let i = choose|i: int|
                    0 <= i < rest.len() && is_inner_side(
                        problem,
                        #[trigger] rest[i],
                        sheet_idx,
                        upright,
                        s,
                    );
                assert(placements[i] == rest[i]);
            } else {
                assert(more[k - a.len()] == s);
            }
        }
        if exists|i: int|
            0 <= i < placements.len() && is_inner_side(
                problem,
                #[trigger] placements[i],
                sheet_idx,
                upright,
                s,
            ) {
            let i = choose|i: int|
                0 <= i < placements.len() && is_inner_side(
                    problem,
                    #[trigger] placements[i],
                    sheet_idx,
                    upright,
                    s,
                );
            if i < n {
                assert(rest[i] == placements[i]);
                assert(a.contains(s));
                let k = choose|k: int| 0 <= k < a.len() && a[k] == s;
                assert(b[k] == s);
            } else {
                let k = choose|k: int| 0 <= k < more.len() && more[k] == s;
                assert(b[a.len() + k] == s);
            }
        }
    }
}

/// The members of strips that are scored are the pieces, in their columns and in their rows.
pub proof fn law_strips_are_of_pieces(
    problem: Problem,
    placements: Seq<Placement>,
    sheet_idx: int,
    upright: bool,
    s: Span,
)
    requires
        forall|i: int|
            0 <= i < placements.len() ==> (#[trigger] placements[i]).cell(problem.pieces@).right()
                <= u32::MAX && placements[i].cell(problem.pieces@).bottom() <= u32::MAX,
    ensures
        strip_spans(problem, placements, sheet_idx, upright).contains(s) <==> exists|i: int|
            0 <= i < placements.len() && is_member_of_strip(
                problem,
                #[trigger] placements[i],
                sheet_idx,
                upright,
                s,
            ),
    decreases placements.len(),
{
    if placements.len() > 0 {
        let rest = placements.drop_last();
        assert forall|i: int| 0 <= i < rest.len() implies (#[trigger] rest[i]).cell(
            problem.pieces@,
        ).right() <= u32::MAX && rest[i].cell(problem.pieces@).bottom() <= u32::MAX by {
            assert(rest[i] == placements[i]);
        }
        law_strips_are_of_pieces(problem, rest, sheet_idx, upright, s);
        let last = placements.last();
        let n = rest.len() as int;
        assert(placements[n] == last);
        let a = strip_spans(problem, rest, sheet_idx, upright);
        let b = strip_spans(problem, placements, sheet_idx, upright);
        if b.contains(s) {
            let k = choose|k: int| 0 <= k < b.len() && b[k] == s;
            if k < a.len() {
                assert(a[k] == s);
                let i = choose|i: int|
                    0 <= i < rest.len() && is_member_of_strip(
                        problem,
                        #[trigger] rest[i],
                        sheet_idx,
                        upright,
                        s,
                    );
                assert(placements[i] == rest[i]);
            }
        }
        if exists|i: int|
            0 <= i < placements.len() && is_member_of_strip(
                problem,
                #[trigger] placements[i],
                sheet_idx,
                upright,
                s,
            ) {
            let i = choose|i: int|
                0 <= i < placements.len() && is_member_of_strip(
                    problem,
                    #[trigger] placements[i],
                    sheet_idx,
                    upright,
                    s,
                );
            if i < n {
                assert(rest[i] == placements[i]);
                assert(a.contains(s));
                let k = choose|k: int| 0 <= k < a.len() && a[k] == s;
                assert(b[k] == s);
            } else {
                assert(b[b.len() - 1] == s);
            }
        }
    }
}

/// What an objective says: how many sheets the layout takes, up to the last one that holds a
/// piece, and the area of the pieces on that one. Of nothing it says 0 throughout.
pub proof fn law_objective_counts_sheets(problem: Problem, placements: Seq<Placement>)
    requires
        gradable(problem, placements),
    ensures
        ({
            let o = objective_of(problem, placements);
            &&& placements.len() == 0 ==> o.sheets_used == 0 && o.last_sheet_area == 0
                && o.layout_score == 0 && o.drop_consolidation_score == 0
            &&& placements.len() > 0 ==> {
                &&& forall|i: int|
                    0 <= i < placements.len() ==> (#[trigger] placements[i]).sheet_idx
                        < o.sheets_used
                &&& exists|i: int|
                    0 <= i < placements.len() && (#[trigger] placements[i]).sheet_idx + 1
                        == o.sheets_used
                &&& o.last_sheet_area == crate::tiling::area_on(
                    cells(problem.pieces@, placements),
                    o.sheets_used - 1,
                )
            }
        }),
{
    lemma_sheet_count(placements);
    let n = sheet_count(placements);
    lemma_area_of_cells(problem, placements, n - 1);
    if placements.len() > 0 {
        let i = choose|i: int|
            0 <= i < placements.len() && (#[trigger] placements[i]).sheet_idx + 1 == n;
        assert(placements[i].sheet_idx < usize::MAX);
        crate::offcuts::lemma_area_natural(problem, placements, n - 1);
    }
}

proof fn lemma_area_of_cells(problem: Problem, placements: Seq<Placement>, s: int)
    ensures
        area_on(problem, placements, s) == crate::tiling::area_on(
            cells(problem.pieces@, placements),
            s,
        ),
    decreases placements.len(),
{
    if placements.len() > 0 {
        let rest = placements.drop_last();
        lemma_area_of_cells(problem, rest, s);
        let list = cells(problem.pieces@, placements);
        assert(list.drop_last() =~= cells(problem.pieces@, rest));
        let p = problem.pieces@[placements.last().piece_idx as int];
        assert(p.height * p.width == p.width * p.height) by (nonlinear_arith);
    }
}

/// The next level below `y` is the first on which a rectangle begins or ends, and the end of the
/// sheet where none does before.
pub proof fn law_next_level_is_nearest(rs: Seq<FreeRect>, height: int, y: int)
    requires
        y < height,
    ensures
        y < next_level(rs, height, y) <= height,
        forall|i: int|
            0 <= i < rs.len() ==> {
                &&& (#[trigger] rs[i]).y > y ==> next_level(rs, height, y) <= rs[i].y
                &&& rs[i].y + rs[i].h > y ==> next_level(rs, height, y) <= rs[i].y + rs[i].h
            },
        next_level(rs, height, y) < height ==> exists|i: int|
            0 <= i < rs.len() && ((#[trigger] rs[i]).y == next_level(rs, height, y) || rs[i].y
                + rs[i].h == next_level(rs, height, y)),
    decreases rs.len(),
{
    if rs.len() > 0 {
        let rest = rs.drop_last();
        law_next_level_is_nearest(rest, height, y);
        let z = next_level(rs, height, y);
        assert forall|i: int| 0 <= i < rs.len() implies {
            &&& (#[trigger] rs[i]).y > y ==> z <= rs[i].y
            &&& rs[i].y + rs[i].h > y ==> z <= rs[i].y + rs[i].h
        } by {
            if i < rest.len() {
                assert(rest[i] == rs[i]);
            }
        }
        if z < height {
            if z == next_level(rest, height, y) {
                let i = choose|i: int|
                    0 <= i < rest.len() && ((#[trigger] rest[i]).y == z || rest[i].y + rest[i].h
                        == z);
                assert(rs[i] == rest[i]);
            } else {
                assert(rs[rs.len() - 1].y == z || rs[rs.len() - 1].y + rs[rs.len() - 1].h == z);
            }
        }
    }
}

/// Some rectangle covers the whole height of the band at `x` and right behind it.
pub open spec fn covered_at(rs: Seq<FreeRect>, y0: int, y1: int, x: int) -> bool {
    exists|i: int|
        0 <= i < rs.len() && (#[trigger] rs[i]).y <= y0 && y1 <= rs[i].y + rs[i].h && rs[i].x <= x
            < rs[i].x + rs[i].w
}

/// `x` lies in one of the gaps.
pub open spec fn in_a_gap(gaps: Seq<(int, int)>, x: int) -> bool {
    exists|k: int| 0 <= k < gaps.len() && (#[trigger] gaps[k]).0 <= x < gaps[k].1
}

/// The gaps lie one behind the other, not even touching, and are what is not covered.
pub open spec fn gaps_of(
    rs: Seq<FreeRect>,
    width: int,
    y0: int,
    y1: int,
    gaps: Seq<(int, int)>,
) -> bool {
    &&& forall|k: int|
        0 <= k < gaps.len() ==> 0 <= (#[trigger] gaps[k]).0 < gaps[k].1 <= width
    &&& forall|k: int, l: int|
        0 <= k < l < gaps.len() ==> (#[trigger] gaps[k]).1 < (#[trigger] gaps[l]).0
    &&& forall|x: int|
        0 <= x < width ==> #[trigger] in_a_gap(gaps, x) == !covered_at(rs, y0, y1, x)
}

/// The squared areas of gaps of height `h`.
pub open spec fn gap_squares(gaps: Seq<(int, int)>, h: int) -> int
    decreases gaps.len(),
{
    if gaps.len() == 0 {
        0
    } else {
        gap_squares(gaps.drop_last(), h) + square((gaps.last().1 - gaps.last().0) * h)
    }
}

/// `x` lies in one of the first `k` spans.
spec fn in_spans(s: Seq<Span>, k: int, x: int) -> bool {
    exists|i: int| 0 <= i < k && (#[trigger] s[i]).lo <= x < s[i].hi
}

/// What a sweep over the first `k` spans has found.
spec fn swept(s: Seq<Span>, k: int, gaps: Seq<(int, int)>, cursor: int) -> bool {
    &&& 0 <= cursor
    &&& forall|i: int| 0 <= i < k ==> (#[trigger] s[i]).hi <= cursor
    &&& k > 0 ==> s[k - 1].lo < cursor
    &&& forall|c: int|
        0 <= c < gaps.len() ==> 0 <= (#[trigger] gaps[c]).0 < gaps[c].1 && k > 0 && gaps[c].1
            <= s[k - 1].lo
    &&& forall|c: int, l: int|
        0 <= c < l < gaps.len() ==> (#[trigger] gaps[c]).1 < (#[trigger] gaps[l]).0
    &&& forall|x: int|
        0 <= x < cursor ==> #[trigger] in_a_gap(gaps, x) == !in_spans(s, k, x)
}

proof fn lemma_swept(s: Seq<Span>, h: int, k: nat) -> (gaps: Seq<(int, int)>)
    requires
        k <= s.len(),
        in_line_order(s),
        forall|i: int| 0 <= i < s.len() ==> (#[trigger] s[i]).lo < s[i].hi && s[i].key == 0
            && s[i].width == 0,
    ensures
        swept(s, k as int, gaps, sweep(s, h, k).cursor),
        gap_squares(gaps, h) == sweep(s, h, k).total,
    decreases k,
{
    if k == 0 {
        Seq::empty()
    } else {
        let m = (k - 1) as nat;
        let before = lemma_swept(s, h, m);
        let a = sweep(s, h, m);
        let b = sweep(s, h, k);
        let e = s[k - 1];
        assert(e.lo < e.hi && e.key == 0 && e.width == 0);
        if m > 0 {
            assert(not_behind(s[m - 1], s[k - 1]));
            assert(s[m - 1].key == 0 && s[m - 1].width == 0);
        }
        let new = (a.cursor, e.lo as int);
        let gaps = if e.lo > a.cursor {
            before.push(new)
        } else {
            before
        };
        assert(gap_squares(gaps, h) == b.total) by {
            if e.lo > a.cursor {
                assert(gaps.drop_last() =~= before);
            }
        }
        assert forall|x: int| 0 <= x < b.cursor implies #[trigger] in_a_gap(gaps, x) == !in_spans(
            s,
            k as int,
            x,
        ) by {
            if in_spans(s, m as int, x) {
                let i = choose|i: int| 0 <= i < m && (#[trigger] s[i]).lo <= x < s[i].hi;
                assert(s[i].hi <= a.cursor);
                assert(in_spans(s, k as int, x));
                assert(!in_a_gap(before, x));
                if in_a_gap(gaps, x) {
                    let c = choose|c: int|
                        0 <= c < gaps.len() && (#[trigger] gaps[c]).0 <= x < gaps[c].1;
                    if c < before.len() {
                        assert(before[c] == gaps[c]);
                    }
                }
            } else if e.lo <= x < e.hi {
                assert(s[k - 1].lo <= x < s[k - 1].hi);
                assert(in_spans(s, k as int, x));
                if in_a_gap(gaps, x) {
                    let c = choose|c: int|
                        0 <= c < gaps.len() && (#[trigger] gaps[c]).0 <= x < gaps[c].1;
                    if c < before.len() {
                        assert(before[c] == gaps[c]);
                        assert(before[c].1 <= s[m - 1].lo);
                    }
                }
            } else {
                if in_spans(s, k as int, x) {
                    let i = choose|i: int| 0 <= i < k && (#[trigger] s[i]).lo <= x < s[i].hi;
                    if i < m {
                        assert(in_spans(s, m as int, x));
                    }
                }
                if x < a.cursor {
                    assert(in_a_gap(before, x));
                    let c = choose|c: int|
                        0 <= c < before.len() && (#[trigger] before[c]).0 <= x < before[c].1;
                    assert(gaps[c] == before[c]);
                } else {
                    assert(gaps[gaps.len() - 1] == new);
                }
            }
        }
        assert forall|c: int| 0 <= c < gaps.len() implies 0 <= (#[trigger] gaps[c]).0 < gaps[c].1
            && gaps[c].1 <= s[k - 1].lo by {
            if c < before.len() {
                assert(gaps[c] == before[c]);
            }
        }
        assert forall|c: int, l: int| 0 <= c < l < gaps.len() implies (#[trigger] gaps[c]).1 < (
        #[trigger] gaps[l]).0 by {
            assert(gaps[c] == before[c]);
            if l < before.len() {
                assert(gaps[l] == before[l]);
            }
        }
        gaps
    }
}

/// A span of the band is that of a rectangle that covers its height.
proof fn lemma_band_spans(rs: Seq<FreeRect>, width: int, y0: int, y1: int, x: int)
    requires
        forall|i: int|
            0 <= i < rs.len() ==> (#[trigger] rs[i]).w > 0 && rs[i].x + rs[i].w <= width,
        width <= u32::MAX,
    ensures
        ({
            let s = band_spans(rs, width, y0, y1);
            &&& s.len() <= rs.len()
            &&& forall|i: int|
                0 <= i < s.len() ==> (#[trigger] s[i]).lo < s[i].hi && s[i].hi <= width && s[i].key
                    == 0 && s[i].width == 0
            &&& in_spans(s, s.len() as int, x) == covered_at(rs, y0, y1, x)
        }),
    decreases rs.len(),
{
    let s = band_spans(rs, width, y0, y1);
    if rs.len() > 0 {
        let rest = rs.drop_last();
        assert forall|i: int| 0 <= i < rest.len() implies (#[trigger] rest[i]).w > 0 && rest[i].x
            + rest[i].w <= width by {
            assert(rest[i] == rs[i]);
        }
        lemma_band_spans(rest, width, y0, y1, x);
        let t = band_spans(rest, width, y0, y1);
        let c = rs.last();
        let n = rs.len() - 1;
        assert(rs[n] == c);
        if covered_at(rs, y0, y1, x) {
            let i = choose|i: int|
                0 <= i < rs.len() && (#[trigger] rs[i]).y <= y0 && y1 <= rs[i].y + rs[i].h
                    && rs[i].x <= x < rs[i].x + rs[i].w;
            if i < n {
                assert(rest[i] == rs[i]);
                assert(covered_at(rest, y0, y1, x));
                let j = choose|j: int| 0 <= j < t.len() && (#[trigger] t[j]).lo <= x < t[j].hi;
                assert(s[j] == t[j]);
            } else {
                assert(s[s.len() - 1].lo <= x < s[s.len() - 1].hi);
            }
        }
        if in_spans(s, s.len() as int, x) {
            let j = choose|j: int| 0 <= j < s.len() && (#[trigger] s[j]).lo <= x < s[j].hi;
            if j < t.len() {
                assert(t[j] == s[j]);
                assert(in_spans(t, t.len() as int, x));
                let i = choose|i: int|
                    0 <= i < rest.len() && (#[trigger] rest[i]).y <= y0 && y1 <= rest[i].y
                        + rest[i].h && rest[i].x <= x < rest[i].x + rest[i].w;
                assert(rs[i] == rest[i]);
            } else {
                assert(rs[n].x <= x < rs[n].x + rs[n].w);
            }
        }
        assert forall|i: int| 0 <= i < s.len() implies (#[trigger] s[i]).lo < s[i].hi && s[i].hi
            <= width && s[i].key == 0 && s[i].width == 0 by {
            if i < t.len() {
                assert(s[i] == t[i]);
            }
        }
    }
}

/// What a band scores is the squared areas of its gaps: of what the rectangles that cover its
/// height leave free from side to side, each gap as wide as it can be.
pub proof fn law_band_is_of_squared_gaps(rs: Seq<FreeRect>, width: int, y0: int, y1: int)
    requires
        rs.len() <= usize::MAX,
        0 <= width <= u32::MAX,
        forall|i: int|
            0 <= i < rs.len() ==> (#[trigger] rs[i]).w > 0 && rs[i].x + rs[i].w <= width,
    ensures
        exists|gaps: Seq<(int, int)>|
            #[trigger] gaps_of(rs, width, y0, y1, gaps) && band_total(rs, width, y0, y1)
                == gap_squares(gaps, y1 - y0),
{
    let h = y1 - y0;
    let spans = band_spans(rs, width, y0, y1);
    lemma_band_spans(rs, width, y0, y1, 0);
    let s = sorted_spans(spans);
    lemma_same_spans(spans);
    assert forall|i: int| 0 <= i < s.len() implies (#[trigger] s[i]).lo < s[i].hi && s[i].hi
        <= width && s[i].key == 0 && s[i].width == 0 by {
        assert(s.contains(s[i]));
        let j = choose|j: int| 0 <= j < spans.len() && spans[j] == s[i];
        assert(spans[j].lo < spans[j].hi);
    }
    let found = lemma_swept(s, h, s.len());
    let r = sweep(s, h, s.len());
    let n = s.len() as int;
    assert(r.cursor <= width) by {
        lemma_cursor(s, h, s.len(), width);
    }
    let last = (r.cursor, width);
    let gaps = if width > r.cursor {
        found.push(last)
    } else {
        found
    };
    assert(band_total(rs, width, y0, y1) == gap_squares(gaps, h)) by {
        if width > r.cursor {
            assert(gaps.drop_last() =~= found);
        }
    }
    assert forall|x: int| 0 <= x < width implies #[trigger] in_a_gap(gaps, x) == !covered_at(
        rs,
        y0,
        y1,
        x,
    ) by {
        lemma_band_spans(rs, width, y0, y1, x);
        lemma_in_same_spans(s, spans, x);
        if x < r.cursor {
            assert(in_a_gap(found, x) == !in_spans(s, n, x));
            if in_a_gap(found, x) {
                let c = choose|c: int|
                    0 <= c < found.len() && (#[trigger] found[c]).0 <= x < found[c].1;
                assert(gaps[c] == found[c]);
            }
            if in_a_gap(gaps, x) {
                let c = choose|c: int|
                    0 <= c < gaps.len() && (#[trigger] gaps[c]).0 <= x < gaps[c].1;
                assert(gaps[c] == found[c]);
            }
        } else {
            assert(gaps[gaps.len() - 1] == last);
            if in_spans(s, n, x) {
                let i = choose|i: int| 0 <= i < n && (#[trigger] s[i]).lo <= x < s[i].hi;
                assert(s[i].hi <= r.cursor);
            }
        }
    }
    assert forall|k: int| 0 <= k < gaps.len() implies 0 <= (#[trigger] gaps[k]).0 < gaps[k].1
        <= width by {
        if k < found.len() {
            assert(gaps[k] == found[k]);
        }
    }
    assert forall|k: int, l: int| 0 <= k < l < gaps.len() implies (#[trigger] gaps[k]).1 < (
    #[trigger] gaps[l]).0 by {
        assert(gaps[k] == found[k]);
        if l < found.len() {
            assert(gaps[l] == found[l]);
        }
    }
    assert(gaps_of(rs, width, y0, y1, gaps));
}

proof fn lemma_in_same_spans(s: Seq<Span>, t: Seq<Span>, x: int)
    requires
        s.len() == t.len(),
        forall|v: Span| #[trigger] s.contains(v) <==> t.contains(v),
    ensures
        in_spans(s, s.len() as int, x) == in_spans(t, t.len() as int, x),
{
    if in_spans(s, s.len() as int, x) {
        let i = choose|i: int| 0 <= i < s.len() && (#[trigger] s[i]).lo <= x < s[i].hi;
        assert(s.contains(s[i]));
        let j = choose|j: int| 0 <= j < t.len() && t[j] == s[i];
        assert(t[j].lo <= x < t[j].hi);
    }
    if in_spans(t, t.len() as int, x) {
        let j = choose|j: int| 0 <= j < t.len() && (#[trigger] t[j]).lo <= x < t[j].hi;
        assert(t.contains(t[j]));
        assert(s.contains(t[j]));
        let i = choose|i: int| 0 <= i < s.len() && s[i] == t[j];
        assert(s[i].lo <= x < s[i].hi);
    }
}

proof fn lemma_cursor(s: Seq<Span>, h: int, k: nat, width: int)
    requires
        k <= s.len(),
        width >= 0,
        forall|i: int| 0 <= i < s.len() ==> (#[trigger] s[i]).hi <= width,
    ensures
        sweep(s, h, k).cursor <= width,
    decreases k,
{
    if k > 0 {
        lemma_cursor(s, h, (k - 1) as nat, width);
    }
}

/// Totals are counted in ten-thousandths, to the nearest.
pub proof fn law_scaled_to_the_nearest(total: int)
    ensures
        10_000 * scaled(total) - 5_000 <= total < 10_000 * scaled(total) + 5_000,
{
}

/// The layout score weighs the lines twice and the strips three times. Both are summed over all
/// sheets, for upright lines and level ones, for columns and rows.
pub proof fn law_layout_score_weighs_lines_and_strips(
    problem: Problem,
    placements: Seq<Placement>,
    n: nat,
)
    requires
        gradable(problem, placements),
        placements.len() > 0,
    ensures
        cut_line_total(problem, placements, 0) == 0,
        strip_total(problem, placements, 0) == 0,
        cut_line_total(problem, placements, n + 1) - cut_line_total(problem, placements, n)
            == run_total(side_spans(problem, placements, n as int, true)) + run_total(
            side_spans(problem, placements, n as int, false),
        ),
        strip_total(problem, placements, n + 1) - strip_total(problem, placements, n) == run_total(
            strip_spans(problem, placements, n as int, true),
        ) + run_total(strip_spans(problem, placements, n as int, false)),
        ({
            let sheets = sheet_count(placements) as nat;
            objective_of(problem, placements).layout_score == (2 * scaled(
                cut_line_total(problem, placements, sheets),
            ) + 3 * scaled(strip_total(problem, placements, sheets))) as u64
        }),
{
    lemma_sheet_count(placements);
}

} // verus!
