//! How good a solution is.

use vstd::prelude::*;

use crate::model::{
    count_sheets, in_sheet, placement_rect, sheet_count, FreeRect, Piece, Placement, Problem, Sheet,
    Solution,
};
use crate::sorting::{order_of, ranked, Order, Ranking};

verus! {

/// Weights of the two parts of `layout_score`.
pub const CUT_LINE_WEIGHT: u64 = 2;

pub const STRIP_WEIGHT: u64 = 3;

/// Fitness of a solution, compared level by level: fewer sheets first, then less piece area
/// on the last sheet, then the greater `layout_score`, then the greater
/// `drop_consolidation_score`.
#[derive(Debug, Clone, Copy, PartialEq, Eq, Structural)]
pub struct Objective {
    /// Number of sheets.
    pub sheets_used: usize,
    /// Piece area on the last sheet.
    pub last_sheet_area: u64,
    pub layout_score: u64,
    pub drop_consolidation_score: u64,
}

impl Objective {
    /// `self` is strictly better than `other`.
    pub open spec fn beats(self, other: Objective) -> bool {
        if self.sheets_used != other.sheets_used {
            self.sheets_used < other.sheets_used
        } else if self.last_sheet_area != other.last_sheet_area {
            self.last_sheet_area < other.last_sheet_area
        } else if self.layout_score != other.layout_score {
            self.layout_score > other.layout_score
        } else {
            self.drop_consolidation_score > other.drop_consolidation_score
        }
    }

    /// Whether `self` is strictly better than `other`.
    pub fn is_better(&self, other: &Objective) -> (r: bool)
        ensures
            r == self.beats(*other),
    {
        if self.sheets_used != other.sheets_used {
            self.sheets_used < other.sheets_used
        } else if self.last_sheet_area != other.last_sheet_area {
            self.last_sheet_area < other.last_sheet_area
        } else if self.layout_score != other.layout_score {
            self.layout_score > other.layout_score
        } else {
            self.drop_consolidation_score > other.drop_consolidation_score
        }
    }

    /// Number of sheets.
    pub fn sheets_used_int(&self) -> (r: usize)
        ensures
            r == self.sheets_used,
    {
        self.sheets_used
    }

    /// Metric reported beside the number of sheets.
    pub fn secondary(&self) -> (r: u64)
        ensures
            r == self.layout_score,
    {
        self.layout_score
    }
}

/// Of two objectives one beats the other unless they are equal.
pub proof fn law_objective_total(a: Objective, b: Objective)
    ensures
        a != b ==> a.beats(b) != b.beats(a),
        !a.beats(a),
{
}

/// What beats the better beats the worse.
pub proof fn law_objective_transitive(a: Objective, b: Objective, c: Objective)
    requires
        a.beats(b),
        b.beats(c),
    ensures
        a.beats(c),
{
}

/// A solution on fewer sheets is better, whatever else is said of it.
pub proof fn law_fewer_sheets_win(a: Objective, b: Objective)
    requires
        a.sheets_used < b.sheets_used,
    ensures
        a.beats(b),
{
}

/// The best of the first `n` objectives; the earliest where several are best.
pub open spec fn best_index(list: Seq<Objective>, n: nat) -> int
    decreases n,
{
    if n <= 1 {
        0
    } else {
        let b = best_index(list, (n - 1) as nat);
        if list[n - 1].beats(list[b]) {
            n - 1
        } else {
            b
        }
    }
}

/// Nothing in the list beats the best, which beats all in front of it.
pub proof fn law_best_index(list: Seq<Objective>, n: nat, c: int)
    requires
        0 <= c < n <= list.len(),
    ensures
        0 <= best_index(list, n) < n,
        !list[c].beats(list[best_index(list, n)]),
        c < best_index(list, n) ==> list[best_index(list, n)].beats(list[c]),
    decreases n,
{
    if n > 1 {
        law_best_index(list, (n - 1) as nat, 0);
        if c < n - 1 {
            law_best_index(list, (n - 1) as nat, c);
        }
    }
}

/// An interval along a line; the line is told from others by its key.
#[derive(Debug, Clone, Copy, PartialEq, Eq, Structural)]
pub struct Span {
    pub key: u32,
    pub width: u32,
    pub lo: u32,
    pub hi: u32,
}

/// By key, then by interval.
pub struct SpanOrder {
    pub spans: Seq<Span>,
}

impl Order for SpanOrder {
    open spec fn ranks(self, i: int) -> bool {
        0 <= i < self.spans.len()
    }

    open spec fn leq(self, a: int, b: int) -> bool {
        let p = self.spans[a];
        let q = self.spans[b];
        if p.key != q.key {
            p.key < q.key
        } else if p.width != q.width {
            p.width < q.width
        } else if p.lo != q.lo {
            p.lo < q.lo
        } else {
            p.hi <= q.hi
        }
    }

    proof fn leq_total(self, a: int, b: int) {
    }

    proof fn leq_trans(self, a: int, b: int, c: int) {
    }
}

struct SpanRanking<'a> {
    spans: &'a Vec<Span>,
}

impl<'a> Ranking for SpanRanking<'a> {
    type Of = SpanOrder;

    closed spec fn order(&self) -> SpanOrder {
        SpanOrder { spans: self.spans@ }
    }

    fn at_most(&self, a: usize, b: usize) -> (r: bool) {
        let p = self.spans[a];
        let q = self.spans[b];
        if p.key != q.key {
            p.key < q.key
        } else if p.width != q.width {
            p.width < q.width
        } else if p.lo != q.lo {
            p.lo < q.lo
        } else {
            p.hi <= q.hi
        }
    }
}

/// The spans in order.
pub open spec fn sorted_spans(spans: Seq<Span>) -> Seq<Span> {
    let order = order_of(SpanOrder { spans }, spans.len());
    Seq::new(spans.len(), |i: int| spans[order[i] as int])
}

pub fn sort_spans(spans: &Vec<Span>) -> (out: Vec<Span>)
    ensures
        out@ == sorted_spans(spans@),
        forall|i: int| 0 <= i < out.len() ==> spans@.contains(#[trigger] out@[i]),
{
    let rank = SpanRanking { spans };
    let order = ranked(&rank, spans.len());
    let mut out: Vec<Span> = Vec::new();
    let mut k: usize = 0;
    while k < spans.len()
        invariant
            k <= spans.len(),
            out.len() == k,
            order.len() == spans.len(),
            forall|i: int| 0 <= i < order.len() ==> #[trigger] order[i] < spans.len(),
            forall|i: int| 0 <= i < k ==> out@[i] == spans@[order@[i] as int],
        decreases spans.len() - k,
    {
        out.push(spans[order[k]]);
        k += 1;
    }
    assert(out@ =~= sorted_spans(spans@));
    assert forall|i: int| 0 <= i < out.len() implies spans@.contains(#[trigger] out@[i]) by {
        assert(spans@[order@[i] as int] == out@[i]);
    }
    out
}

pub open spec fn square(n: int) -> int {
    n * n
}

/// Merging of spans: what the closed runs add up to, and the run that is still open.
pub struct Runs {
    pub total: int,
    pub open: Span,
}

/// Merges the first `k` of the ordered spans: a span that has the key of the open run and
/// touches it extends it, any other closes it and opens a new one.
pub open spec fn merge_runs(s: Seq<Span>, k: nat) -> Runs
    decreases k,
{
    if k <= 1 {
        Runs { total: 0, open: s[0] }
    } else {
        let r = merge_runs(s, (k - 1) as nat);
        let e = s[k - 1];
        if e.key != r.open.key || e.width != r.open.width || e.lo > r.open.hi {
            Runs { total: r.total + square(r.open.hi - r.open.lo), open: e }
        } else if e.hi > r.open.hi {
            Runs { total: r.total, open: Span { hi: e.hi, ..r.open } }
        } else {
            r
        }
    }
}

/// Sum of the squared run lengths of spans in order.
pub open spec fn merged_total(s: Seq<Span>) -> int {
    if s.len() == 0 {
        0
    } else {
        let r = merge_runs(s, s.len());
        r.total + square(r.open.hi - r.open.lo)
    }
}

/// Spans of one key that overlap or touch are merged to runs; the squared lengths of all
/// runs are added up.
pub open spec fn run_total(spans: Seq<Span>) -> int {
    merged_total(sorted_spans(spans))
}

pub open spec fn upright_spans(spans: Seq<Span>) -> bool {
    forall|i: int| 0 <= i < spans.len() ==> (#[trigger] spans[i]).lo <= spans[i].hi
}

proof fn lemma_merge_runs(s: Seq<Span>, k: nat, d: int)
    requires
        1 <= k <= s.len(),
        upright_spans(s),
        forall|i: int| 0 <= i < s.len() ==> (#[trigger] s[i]).hi <= d,
    ensures
        merge_runs(s, k).open.lo <= merge_runs(s, k).open.hi <= d,
        0 <= merge_runs(s, k).total <= (k - 1) * square(d),
        d >= 0,
    decreases k,
{
    if k > 1 {
        lemma_merge_runs(s, (k - 1) as nat, d);
        let r = merge_runs(s, (k - 1) as nat);
        let len = r.open.hi - r.open.lo;
        assert(square(len) <= square(d)) by (nonlinear_arith)
            requires
                0 <= len <= d,
        ;
        assert(square(len) >= 0) by (nonlinear_arith);
        assert((k - 1) * square(d) == (k - 2) * square(d) + square(d)) by (nonlinear_arith);
        assert(s[k - 1].lo <= s[k - 1].hi);
        assert(square(d) >= 0) by (nonlinear_arith);
    } else {
        assert(s[0].lo <= s[0].hi);
    }
}

proof fn lemma_merge_grows(s: Seq<Span>, k: nat)
    requires
        1 <= k <= s.len(),
        upright_spans(s),
    ensures
        merge_runs(s, k).total <= merged_total(s),
    decreases s.len() - k,
{
    if k < s.len() {
        lemma_merge_grows(s, k + 1);
        lemma_merge_runs(s, k, u32::MAX as int);
        let r = merge_runs(s, k);
        assert(square(r.open.hi - r.open.lo) >= 0) by (nonlinear_arith);
    } else {
        let r = merge_runs(s, k);
        assert(square(r.open.hi - r.open.lo) >= 0) by (nonlinear_arith);
    }
}

pub proof fn lemma_sorted_spans(spans: Seq<Span>)
    requires
        spans.len() <= usize::MAX,
    ensures
        forall|i: int|
            0 <= i < spans.len() ==> spans.contains(#[trigger] sorted_spans(spans)[i]),
{
    let o = SpanOrder { spans };
    let order = order_of(o, spans.len());
    crate::sorting::lemma_order_exists(o, spans.len());
    assert forall|i: int| 0 <= i < spans.len() implies spans.contains(
        #[trigger] sorted_spans(spans)[i],
    ) by {
        assert(spans[order[i] as int] == sorted_spans(spans)[i]);
    }
}

/// Runs are no more than spans, and none is longer than the line.
proof fn lemma_run_total(spans: Seq<Span>, d: int)
    requires
        spans.len() <= usize::MAX,
        upright_spans(spans),
        forall|i: int| 0 <= i < spans.len() ==> (#[trigger] spans[i]).hi <= d,
    ensures
        0 <= run_total(spans) <= spans.len() * square(d),
{
    let s = sorted_spans(spans);
    if s.len() > 0 {
        lemma_sorted_spans(spans);
        assert forall|i: int| 0 <= i < s.len() implies (#[trigger] s[i]).lo <= s[i].hi
            && s[i].hi <= d by {
            assert(spans.contains(s[i]));
        }
        lemma_merge_runs(s, s.len(), d);
        let r = merge_runs(s, s.len());
        let len = r.open.hi - r.open.lo;
        assert(0 <= square(len) <= square(d)) by (nonlinear_arith)
            requires
                0 <= len <= d,
        ;
        assert((s.len() - 1) * square(d) + square(d) == s.len() * square(d)) by (nonlinear_arith);
    } else {
        assert(spans.len() * square(d) == 0) by (nonlinear_arith)
            requires
                spans.len() == 0,
        ;
    }
}

/// Groups the spans by key, merges those that overlap or touch into runs, and sums the
/// squared run lengths.
fn sum_squared_runs_by_coordinate(spans: &Vec<Span>) -> (total: u64)
    requires
        upright_spans(spans@),
        run_total(spans@) <= u64::MAX,
    ensures
        total == run_total(spans@),
{
    let s = sort_spans(spans);
    if s.len() == 0 {
        return 0;
    }
    assert forall|i: int| 0 <= i < s.len() implies (#[trigger] s@[i]).lo <= s@[i].hi by {
        assert(spans@.contains(s@[i]));
    }
    let mut total: u64 = 0;
    let mut cur: Span = s[0];
    let mut k: usize = 1;
    while k < s.len()
        invariant
            1 <= k <= s.len(),
            upright_spans(s@),
            merged_total(s@) <= u64::MAX,
            total == merge_runs(s@, k as nat).total,
            cur == merge_runs(s@, k as nat).open,
        decreases s.len() - k,
    {
        let e = s[k];
        proof {
            lemma_merge_runs(s@, k as nat, u32::MAX as int);
            lemma_merge_grows(s@, (k + 1) as nat);
        }
        if e.key != cur.key || e.width != cur.width || e.lo > cur.hi {
            let len: u64 = (cur.hi - cur.lo) as u64;
            assert(square(len as int) <= 0xffff_ffff * 0xffff_ffff) by (nonlinear_arith)
                requires
                    0 <= len <= 0xffff_ffff,
            ;
            total = total + len * len;
            cur = e;
        } else if e.hi > cur.hi {
            cur.hi = e.hi;
        }
        k += 1;
    }
    proof {
        lemma_merge_runs(s@, k as nat, u32::MAX as int);
    }
    let len: u64 = (cur.hi - cur.lo) as u64;
    assert(square(len as int) <= 0xffff_ffff * 0xffff_ffff) by (nonlinear_arith)
        requires
            0 <= len <= 0xffff_ffff,
    ;
    total + len * len
}


/// Sides of the pieces on one sheet that are not sides of the sheet: upright ones keyed by
/// `x`, level ones keyed by `y`.
pub open spec fn side_spans(
    problem: Problem,
    placements: Seq<Placement>,
    sheet_idx: int,
    upright: bool,
) -> Seq<Span>
    decreases placements.len(),
{
    if placements.len() == 0 {
        Seq::empty()
    } else {
        let rest = side_spans(problem, placements.drop_last(), sheet_idx, upright);
        let c = placements.last().cell(problem.pieces@);
        if c.sheet_idx != sheet_idx {
            rest
        } else {
            rest + cell_sides(problem.sheet, c, upright)
        }
    }
}

/// The sides of one rectangle that are not sides of the sheet.
pub open spec fn cell_sides(sheet: Sheet, c: FreeRect, upright: bool) -> Seq<Span> {
    let (near, far, lo, hi, end) = if upright {
        (c.x, c.right(), c.y, c.bottom(), sheet.width)
    } else {
        (c.y, c.bottom(), c.x, c.right(), sheet.height)
    };
    let first = if near > 0 {
        seq![Span { key: near, width: 0, lo, hi: hi as u32 }]
    } else {
        Seq::empty()
    };
    if far < end {
        first.push(Span { key: far as u32, width: 0, lo, hi: hi as u32 })
    } else {
        first
    }
}

/// The pieces on one sheet as members of strips: of columns keyed by `x` and width, or of
/// rows keyed by `y` and height.
pub open spec fn strip_spans(
    problem: Problem,
    placements: Seq<Placement>,
    sheet_idx: int,
    upright: bool,
) -> Seq<Span>
    decreases placements.len(),
{
    if placements.len() == 0 {
        Seq::empty()
    } else {
        let rest = strip_spans(problem, placements.drop_last(), sheet_idx, upright);
        let c = placements.last().cell(problem.pieces@);
        if c.sheet_idx != sheet_idx {
            rest
        } else if upright {
            rest.push(Span { key: c.x, width: c.w, lo: c.y, hi: c.bottom() as u32 })
        } else {
            rest.push(Span { key: c.y, width: c.h, lo: c.x, hi: c.right() as u32 })
        }
    }
}

/// Squared run lengths of the cut lines of the first `n` sheets.
pub open spec fn cut_line_total(problem: Problem, placements: Seq<Placement>, n: nat) -> int
    decreases n,
{
    if n == 0 {
        0
    } else {
        cut_line_total(problem, placements, (n - 1) as nat) + run_total(
            side_spans(problem, placements, n - 1, true),
        ) + run_total(side_spans(problem, placements, n - 1, false))
    }
}

/// Squared run lengths of the strips of the first `n` sheets.
pub open spec fn strip_total(problem: Problem, placements: Seq<Placement>, n: nat) -> int
    decreases n,
{
    if n == 0 {
        0
    } else {
        strip_total(problem, placements, (n - 1) as nat) + run_total(
            strip_spans(problem, placements, n - 1, true),
        ) + run_total(strip_spans(problem, placements, n - 1, false))
    }
}

/// Ten-thousandths, rounded to the nearest.
pub open spec fn scaled(total: int) -> int {
    (total + 5_000) / 10_000
}

/// Placements that scores can be computed of: they name pieces and sheets, and no corner is
/// out of range.
pub open spec fn readable(problem: Problem, placements: Seq<Placement>) -> bool {
    forall|i: int|
        0 <= i < placements.len() ==> {
            &&& (#[trigger] placements[i]).piece_idx < problem.pieces.len()
            &&& placements[i].sheet_idx < usize::MAX
            &&& placements[i].cell(problem.pieces@).right() <= u32::MAX
            &&& placements[i].cell(problem.pieces@).bottom() <= u32::MAX
        }
}

proof fn lemma_spans_upright(
    problem: Problem,
    placements: Seq<Placement>,
    sheet_idx: int,
    upright: bool,
    d: int,
)
    requires
        readable(problem, placements),
        forall|i: int|
            0 <= i < placements.len() ==> if upright {
                (#[trigger] placements[i]).cell(problem.pieces@).bottom() <= d
            } else {
                placements[i].cell(problem.pieces@).right() <= d
            },
    ensures
        upright_spans(side_spans(problem, placements, sheet_idx, upright)),
        upright_spans(strip_spans(problem, placements, sheet_idx, upright)),
        side_spans(problem, placements, sheet_idx, upright).len() <= 2 * strip_spans(
            problem,
            placements,
            sheet_idx,
            upright,
        ).len(),
        strip_spans(problem, placements, sheet_idx, upright).len() <= placements.len(),
        forall|i: int|
            0 <= i < side_spans(problem, placements, sheet_idx, upright).len() ==> (
            #[trigger] side_spans(problem, placements, sheet_idx, upright)[i]).hi <= d,
        forall|i: int|
            0 <= i < strip_spans(problem, placements, sheet_idx, upright).len() ==> (
            #[trigger] strip_spans(problem, placements, sheet_idx, upright)[i]).hi <= d,
    decreases placements.len(),
{
    if placements.len() > 0 {
        let q = placements.drop_last();
        assert forall|i: int| 0 <= i < q.len() implies #[trigger] q[i] == placements[i] by {}
        lemma_spans_upright(problem, q, sheet_idx, upright, d);
        assert(placements[placements.len() - 1] == placements.last());
        let c = placements.last().cell(problem.pieces@);
        let s1 = side_spans(problem, q, sheet_idx, upright);
        let s2 = side_spans(problem, placements, sheet_idx, upright);
        let t1 = strip_spans(problem, q, sheet_idx, upright);
        let t2 = strip_spans(problem, placements, sheet_idx, upright);
        assert forall|i: int| 0 <= i < s2.len() implies (#[trigger] s2[i]).lo <= s2[i].hi
            && s2[i].hi <= d by {
            if i < s1.len() {
                assert(s2[i] == s1[i]);
            }
        }
        assert forall|i: int| 0 <= i < t2.len() implies (#[trigger] t2[i]).lo <= t2[i].hi
            && t2[i].hi <= d by {
            if i < t1.len() {
                assert(t2[i] == t1[i]);
            }
        }
    }
}

fn collect_spans(
    problem: &Problem,
    placements: &Vec<Placement>,
    sheet_idx: usize,
    upright: bool,
    strips: bool,
) -> (out: Vec<Span>)
    requires
        readable(*problem, placements@),
    ensures
        strips ==> out@ == strip_spans(*problem, placements@, sheet_idx as int, upright),
        !strips ==> out@ == side_spans(*problem, placements@, sheet_idx as int, upright),
        upright_spans(out@),
{
    let mut out: Vec<Span> = Vec::new();
    let mut k: usize = 0;
    assert(placements@.take(0) =~= Seq::empty());
    while k < placements.len()
        invariant
            k <= placements.len(),
            readable(*problem, placements@),
            strips ==> out@ == strip_spans(
                *problem,
                placements@.take(k as int),
                sheet_idx as int,
                upright,
            ),
            !strips ==> out@ == side_spans(
                *problem,
                placements@.take(k as int),
                sheet_idx as int,
                upright,
            ),
        decreases placements.len() - k,
    {
        let pl = placements[k];
        let ghost before = out@;
        assert(placements@.take(k + 1).drop_last() =~= placements@.take(k as int));
        assert(placements@.take(k + 1).last() == pl);
        let c = placement_rect(&pl, problem);
        if c.sheet_idx == sheet_idx {
            let right: u32 = c.x + c.w;
            let bottom: u32 = c.y + c.h;
            if strips {
                if upright {
                    out.push(Span { key: c.x, width: c.w, lo: c.y, hi: bottom });
                } else {
                    out.push(Span { key: c.y, width: c.h, lo: c.x, hi: right });
                }
            } else {
                let (near, far, lo, hi, end) = if upright {
                    (c.x, right, c.y, bottom, problem.sheet.width)
                } else {
                    (c.y, bottom, c.x, right, problem.sheet.height)
                };
                if near > 0 {
                    out.push(Span { key: near, width: 0, lo, hi });
                }
                if far < end {
                    out.push(Span { key: far, width: 0, lo, hi });
                }
                assert(out@ =~= before + cell_sides(problem.sheet, c, upright));
            }
        }
        k += 1;
    }
    assert(placements@.take(k as int) =~= placements@);
    proof {
        lemma_spans_upright(
            *problem,
            placements@,
            sheet_idx as int,
            upright,
            u32::MAX as int,
        );
    }
    out
}

proof fn lemma_totals_grow(problem: Problem, placements: Seq<Placement>, k: nat, n: nat)
    requires
        readable(problem, placements),
        2 * placements.len() <= usize::MAX,
        k <= n,
    ensures
        0 <= cut_line_total(problem, placements, k) <= cut_line_total(problem, placements, n),
        0 <= strip_total(problem, placements, k) <= strip_total(problem, placements, n),
    decreases n,
{
    if n > 0 {
        let d = u32::MAX as int;
        lemma_spans_upright(problem, placements, n - 1, true, d);
        lemma_spans_upright(problem, placements, n - 1, false, d);
        lemma_run_total(side_spans(problem, placements, n - 1, true), d);
        lemma_run_total(side_spans(problem, placements, n - 1, false), d);
        lemma_run_total(strip_spans(problem, placements, n - 1, true), d);
        lemma_run_total(strip_spans(problem, placements, n - 1, false), d);
        if k < n {
            lemma_totals_grow(problem, placements, k, (n - 1) as nat);
        } else {
            lemma_totals_grow(problem, placements, (n - 1) as nat, (n - 1) as nat);
        }
    }
}

/// Spans of all sheets together are no more than placements allow.
proof fn lemma_span_numbers(problem: Problem, placements: Seq<Placement>, n: nat, upright: bool)
    ensures
        strip_number(problem, placements, n, upright) <= placements.len(),
    decreases placements.len(),
{
    if placements.len() > 0 {
        let q = placements.drop_last();
        lemma_span_numbers(problem, q, n, upright);
        lemma_strip_number_step(problem, placements, n, upright);
    } else {
        lemma_strip_number_none(problem, placements, n, upright);
    }
}

/// Number of strip members on the first `n` sheets.
spec fn strip_number(problem: Problem, placements: Seq<Placement>, n: nat, upright: bool) -> nat
    decreases n,
{
    if n == 0 {
        0
    } else {
        strip_number(problem, placements, (n - 1) as nat, upright) + strip_spans(
            problem,
            placements,
            n - 1,
            upright,
        ).len()
    }
}

proof fn lemma_strip_number_none(problem: Problem, placements: Seq<Placement>, n: nat, upright: bool)
    requires
        placements.len() == 0,
    ensures
        strip_number(problem, placements, n, upright) == 0,
    decreases n,
{
    if n > 0 {
        lemma_strip_number_none(problem, placements, (n - 1) as nat, upright);
    }
}

proof fn lemma_strip_number_step(problem: Problem, placements: Seq<Placement>, n: nat, upright: bool)
    requires
        placements.len() > 0,
    ensures
        strip_number(problem, placements, n, upright) == strip_number(
            problem,
            placements.drop_last(),
            n,
            upright,
        ) + if placements.last().sheet_idx < n {
            1nat
        } else {
            0nat
        },
    decreases n,
{
    if n > 0 {
        lemma_strip_number_step(problem, placements, (n - 1) as nat, upright);
    }
}

/// Layouts inside the sheets: no run is longer than the sheet.
proof fn lemma_totals_by_number(problem: Problem, placements: Seq<Placement>, n: nat)
    requires
        readable(problem, placements),
        2 * placements.len() <= usize::MAX,
        forall|i: int|
            0 <= i < placements.len() ==> in_sheet(problem, #[trigger] placements[i]),
    ensures
        0 <= cut_line_total(problem, placements, n) <= 2 * strip_number(
            problem,
            placements,
            n,
            true,
        ) * square(problem.sheet.height as int) + 2 * strip_number(problem, placements, n, false)
            * square(problem.sheet.width as int),
        0 <= strip_total(problem, placements, n) <= strip_number(problem, placements, n, true)
            * square(problem.sheet.height as int) + strip_number(problem, placements, n, false)
            * square(problem.sheet.width as int),
    decreases n,
{
    let w = problem.sheet.width as int;
    let h = problem.sheet.height as int;
    if n > 0 {
        lemma_totals_by_number(problem, placements, (n - 1) as nat);
        assert forall|i: int| 0 <= i < placements.len() implies (#[trigger] placements[i]).cell(
            problem.pieces@,
        ).bottom() <= h && placements[i].cell(problem.pieces@).right() <= w by {
            assert(in_sheet(problem, placements[i]));
        }
        lemma_spans_upright(problem, placements, n - 1, true, h);
        lemma_spans_upright(problem, placements, n - 1, false, w);
        let a = side_spans(problem, placements, n - 1, true);
        let b = side_spans(problem, placements, n - 1, false);
        let c = strip_spans(problem, placements, n - 1, true);
        let d = strip_spans(problem, placements, n - 1, false);
        lemma_run_total(a, h);
        lemma_run_total(b, w);
        lemma_run_total(c, h);
        lemma_run_total(d, w);
        let hh = square(h);
        let ww = square(w);
        assert(hh >= 0 && ww >= 0) by (nonlinear_arith)
            requires
                hh == square(h),
                ww == square(w),
        ;
        let (al, bl, cl, dl) = (a.len() as int, b.len() as int, c.len() as int, d.len() as int);
        assert(al * hh <= 2 * cl * hh) by (nonlinear_arith)
            requires
                al <= 2 * cl,
                hh >= 0,
        ;
        assert(bl * ww <= 2 * dl * ww) by (nonlinear_arith)
            requires
                bl <= 2 * dl,
                ww >= 0,
        ;
        let m = strip_number(problem, placements, (n - 1) as nat, true) as int;
        let k = strip_number(problem, placements, (n - 1) as nat, false) as int;
        assert(2 * (m + cl) * hh == 2 * m * hh + 2 * cl * hh) by (nonlinear_arith);
        assert(2 * (k + dl) * ww == 2 * k * ww + 2 * dl * ww) by (nonlinear_arith);
        assert((m + cl) * hh == m * hh + cl * hh) by (nonlinear_arith);
        assert((k + dl) * ww == k * ww + dl * ww) by (nonlinear_arith);
    } else {
        assert(2 * 0 * square(h) == 0 && 2 * 0 * square(w) == 0 && 0 * square(h) == 0 && 0
            * square(w) == 0);
    }
}

/// Upper bounds of both totals for layouts inside the sheets.
pub proof fn lemma_totals_bound(problem: Problem, placements: Seq<Placement>, n: nat)
    requires
        readable(problem, placements),
        2 * placements.len() <= usize::MAX,
        forall|i: int|
            0 <= i < placements.len() ==> in_sheet(problem, #[trigger] placements[i]),
    ensures
        0 <= cut_line_total(problem, placements, n) <= 2 * placements.len() * (square(
            problem.sheet.width as int,
        ) + square(problem.sheet.height as int)),
        0 <= strip_total(problem, placements, n) <= 2 * placements.len() * (square(
            problem.sheet.width as int,
        ) + square(problem.sheet.height as int)),
{
    lemma_totals_by_number(problem, placements, n);
    lemma_span_numbers(problem, placements, n, true);
    lemma_span_numbers(problem, placements, n, false);
    let a = strip_number(problem, placements, n, true) as int;
    let b = strip_number(problem, placements, n, false) as int;
    let hh = square(problem.sheet.height as int);
    let ww = square(problem.sheet.width as int);
    let k = placements.len() as int;
    assert(hh >= 0 && ww >= 0) by (nonlinear_arith)
        requires
            hh == square(problem.sheet.height as int),
            ww == square(problem.sheet.width as int),
    ;
    assert(2 * a * hh + 2 * b * ww <= 2 * k * (ww + hh)) by (nonlinear_arith)
        requires
            0 <= a <= k,
            0 <= b <= k,
            hh >= 0,
            ww >= 0,
    ;
    assert(a * hh + b * ww <= 2 * k * (ww + hh)) by (nonlinear_arith)
        requires
            0 <= a <= k,
            0 <= b <= k,
            hh >= 0,
            ww >= 0,
    ;
}

impl Solution {
    /// Number of sheets that the solution uses.
    pub fn sheets_used(&self) -> (n: usize)
        requires
            forall|i: int|
                0 <= i < self.placements@.len() ==> (#[trigger] self.placements@[i]).sheet_idx
                    < usize::MAX,
        ensures
            n == sheet_count(self.placements@),
    {
        count_sheets(self.placements.as_slice())
    }

    /// Cut-line concentration score, higher is better: rewards layouts whose inner piece
    /// sides align into few long cut lines. The sum of squared run lengths in
    /// ten-thousandths, rounded.
    pub fn cut_line_concentration_score(&self, problem: &Problem) -> (r: u64)
        requires
            readable(*problem, self.placements@),
            2 * self.placements@.len() <= usize::MAX,
            cut_line_total(*problem, self.placements@, sheet_count(self.placements@) as nat) + 5_000
                <= u64::MAX,
        ensures
            r == scaled(
                cut_line_total(*problem, self.placements@, sheet_count(self.placements@) as nat),
            ),
    {
        let n: usize = self.sheets_used();
        let mut total: u64 = 0;
        let mut s: usize = 0;
        while s < n
            invariant
                s <= n,
                readable(*problem, self.placements@),
                2 * self.placements@.len() <= usize::MAX,
                cut_line_total(*problem, self.placements@, n as nat) + 5_000 <= u64::MAX,
                total == cut_line_total(*problem, self.placements@, s as nat),
            decreases n - s,
        {
            let up = collect_spans(problem, &self.placements, s, true, false);
            let level = collect_spans(problem, &self.placements, s, false, false);
            proof {
                let d = u32::MAX as int;
                lemma_totals_grow(*problem, self.placements@, (s + 1) as nat, n as nat);
                lemma_totals_grow(*problem, self.placements@, s as nat, s as nat);
                lemma_spans_upright(*problem, self.placements@, s as int, true, d);
                lemma_spans_upright(*problem, self.placements@, s as int, false, d);
                lemma_run_total(up@, d);
                lemma_run_total(level@, d);
            }
            total = total + sum_squared_runs_by_coordinate(&up) + sum_squared_runs_by_coordinate(
                &level,
            );
            s += 1;
        }
        (total + 5_000) / 10_000
    }

    /// Strip-structure score, higher is better: rewards stacks of pieces that share one
    /// width (and rows that share one height) laid flush. The sum of squared run lengths in
    /// ten-thousandths, rounded.
    pub fn strip_structure_score(&self, problem: &Problem) -> (r: u64)
        requires
            readable(*problem, self.placements@),
            2 * self.placements@.len() <= usize::MAX,
            strip_total(*problem, self.placements@, sheet_count(self.placements@) as nat) + 5_000
                <= u64::MAX,
        ensures
            r == scaled(
                strip_total(*problem, self.placements@, sheet_count(self.placements@) as nat),
            ),
    {
        let n: usize = self.sheets_used();
        let mut total: u64 = 0;
        let mut s: usize = 0;
        while s < n
            invariant
                s <= n,
                readable(*problem, self.placements@),
                2 * self.placements@.len() <= usize::MAX,
                strip_total(*problem, self.placements@, n as nat) + 5_000 <= u64::MAX,
                total == strip_total(*problem, self.placements@, s as nat),
            decreases n - s,
        {
            let up = collect_spans(problem, &self.placements, s, true, true);
            let level = collect_spans(problem, &self.placements, s, false, true);
            proof {
                let d = u32::MAX as int;
                lemma_totals_grow(*problem, self.placements@, (s + 1) as nat, n as nat);
                lemma_totals_grow(*problem, self.placements@, s as nat, s as nat);
                lemma_spans_upright(*problem, self.placements@, s as int, true, d);
                lemma_spans_upright(*problem, self.placements@, s as int, false, d);
                lemma_run_total(up@, d);
                lemma_run_total(level@, d);
            }
            total = total + sum_squared_runs_by_coordinate(&up) + sum_squared_runs_by_coordinate(
                &level,
            );
            s += 1;
        }
        (total + 5_000) / 10_000
    }
}

} // verus!
