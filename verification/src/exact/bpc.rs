//! Branch and price: the decisions of the search tree.
//!
//! A node of the tree has constraints on patterns and a pool of patterns; its linear program is
//! solved outside. What comes back, the value and the basic patterns with their weights, is
//! counted in parts of `UNIT`.

use vstd::prelude::*;

use super::pricing::{has_copy, BranchConstraints, Pricer, THRESHOLD, UNIT};
use crate::heuristic::common::{PieceOrder, SortDir, SortKey};
use crate::heuristic::gbaf::{all_fit, by_area, gbaf_solve, gbaf_state};
use crate::heuristic::jylanki::{best_pass, extended, jylanki_result, strategy, STRATEGIES};
use crate::heuristic::shelf::{all_stand, by_height};
use crate::heuristic::{bfdh_solve, jylanki_solve};
use crate::layout::packed;
use crate::model::{
    cells, count_sheets, lemma_sheet_count, sheet_cell, sheet_count, FreeRect, Piece, Placement,
    Problem, Solution,
};
use crate::offcuts::scorable;
use crate::packing::{all_cells, complete, known_pieces, placed_indices, sliced, sliced_sheets};
use crate::sheets::{all_moved, lemma_packed_concat};
use crate::slas::decoder::fits_sheet;
use crate::runner::is_standing;
use crate::sorting::{lemma_order_exists, order_of, ranked, Order, Ranking};
use crate::turning::{
    law_best_area_turns_as_allowed, law_portfolio_turns_as_allowed, law_shelves_turn_as_allowed,
    turned_as_allowed,
};

verus! {

/// A set of pieces that go on one sheet together, and how.
#[derive(Debug)]
pub struct Pattern {
    /// Indices of the pieces.
    pub items: Vec<usize>,
    pub placements: Vec<Placement>,
}

/// Parameters of the solver.
#[derive(Debug, Clone, Copy, PartialEq, Eq, Structural)]
pub struct BpcConfig {
    /// Number of rounds of column generation, over the whole tree, from one report to the next.
    pub progress_interval: usize,
    /// Number of nodes after which the search gives up.
    pub max_tree_nodes: usize,
}

impl Default for BpcConfig {
    fn default() -> (r: Self)
        ensures
            r == (BpcConfig { progress_interval: 10, max_tree_nodes: 10_000 }),
    {
        BpcConfig { progress_interval: 10, max_tree_nodes: 10_000 }
    }
}

/// How the solver ended.
#[derive(Debug, Clone, Copy, PartialEq, Eq, Structural)]
pub enum BpcStatus {
    /// The best solution is optimal.
    Optimal { sheets: usize },
    /// The search ended with a gap.
    Gap { lb: usize, ub: usize },
    /// The search was stopped.
    Stopped { lb: usize, ub: usize },
}

impl BpcStatus {
    /// The bounds are in order: the lower one below the upper one where a gap is left, and never
    /// above it.
    pub open spec fn in_order(self) -> bool {
        match self {
            BpcStatus::Optimal { sheets } => true,
            BpcStatus::Gap { lb, ub } => lb < ub,
            BpcStatus::Stopped { lb, ub } => lb <= ub,
        }
    }
}

/// What is subtracted from the value of a linear program before it is rounded up, at least.
pub const EPS_ROUND: u64 = 100_000_000;

/// The pieces of a pattern are different, known, and placed on one sheet as they can be cut,
/// turned only where they may be.
pub open spec fn pattern_ok(problem: Problem, p: Pattern) -> bool {
    &&& p.items@.no_duplicates()
    &&& p.items@.len() == p.placements@.len()
    &&& forall|i: int|
        0 <= i < p.items@.len() ==> {
            &&& (#[trigger] p.items@[i]) < problem.pieces@.len()
            &&& p.placements@[i].piece_idx == p.items@[i]
            &&& p.placements@[i].sheet_idx == 0
        }
    &&& turned_as_allowed(problem, p.placements@)
    &&& packed(problem.sheet, 1, cells(problem.pieces@, p.placements@).to_multiset())
}

fn copy_pattern(p: &Pattern) -> (r: Pattern)
    ensures
        r.items@ == p.items@,
        r.placements@ == p.placements@,
{
    let mut items: Vec<usize> = Vec::new();
    while items.len() < p.items.len()
        invariant
            items@.len() <= p.items@.len(),
            items@ =~= p.items@.take(items@.len() as int),
        decreases p.items@.len() - items@.len(),
    {
        items.push(p.items[items.len()]);
    }
    let mut placements: Vec<Placement> = Vec::new();
    while placements.len() < p.placements.len()
        invariant
            placements@.len() <= p.placements@.len(),
            placements@ =~= p.placements@.take(placements@.len() as int),
        decreases p.placements@.len() - placements@.len(),
    {
        placements.push(p.placements[placements.len()]);
    }
    assert(items@ =~= p.items@);
    assert(placements@ =~= p.placements@);
    Pattern { items, placements }
}

/// Where the only piece of a sheet goes: in the corner, rotated only where it does not fit as it
/// is.
pub open spec fn alone(problem: Problem, piece_idx: usize) -> Placement {
    let p = problem.pieces@[piece_idx as int];
    let (w, h) = (problem.sheet.width, problem.sheet.height);
    Placement {
        sheet_idx: 0,
        piece_idx,
        x: 0,
        y: 0,
        rotated: !(p.width <= w && p.height <= h) && p.can_rotate && p.height <= w && p.width <= h,
    }
}

/// A pattern of one piece.
pub fn singleton_pattern(piece_idx: usize, problem: &Problem) -> (r: Pattern)
    requires
        piece_idx < problem.pieces@.len(),
    ensures
        r.items@ == seq![piece_idx],
        r.placements@ == seq![alone(*problem, piece_idx)],
        fits_sheet(*problem, piece_idx as int) ==> pattern_ok(*problem, r),
{
    let p = &problem.pieces[piece_idx];
    let (w, h) = (problem.sheet.width, problem.sheet.height);
    let rotated = !(p.width <= w && p.height <= h) && p.can_rotate && p.height <= w && p.width <= h;
    let mut items: Vec<usize> = Vec::new();
    items.push(piece_idx);
    let mut placements: Vec<Placement> = Vec::new();
    placements.push(Placement { sheet_idx: 0, piece_idx, x: 0, y: 0, rotated });
    let r = Pattern { items, placements };
    proof {
        assert(r.items@ =~= seq![piece_idx]);
        assert(r.placements@ =~= seq![alone(*problem, piece_idx)]);
        if fits_sheet(*problem, piece_idx as int) {
            lemma_alone_packed(*problem, piece_idx);
        }
    }
    r
}

/// One piece alone is cut from the sheet.
proof fn lemma_alone_packed(problem: Problem, i: usize)
    requires
        i < problem.pieces@.len(),
        fits_sheet(problem, i as int),
    ensures
        packed(
            problem.sheet,
            1,
            cells(problem.pieces@, seq![alone(problem, i)]).to_multiset(),
        ),
{
    let pl = alone(problem, i);
    let cell = pl.cell(problem.pieces@);
    let whole = sheet_cell(problem.sheet, 0);
    let list = cells(problem.pieces@, seq![pl]);
    let e = Seq::<FreeRect>::empty();
    e.to_multiset_ensures();
    assert(list =~= e.push(cell));
    let u = crate::packing::corner_slicing(cell.w, cell.h, true);
    crate::packing::lemma_corner_slicing(whole, cell.w, cell.h, true);
    assert(crate::packing::corner(whole, cell.w, cell.h) == cell);
    let f = seq![u];
    assert(f.drop_last() =~= Seq::empty());
    assert(crate::layout::forest_slices(f.drop_last(), problem.sheet)
        =~= vstd::multiset::Multiset::empty());
    assert(crate::layout::forest_ok(f, problem.sheet));
    assert forall|v: FreeRect| list.to_multiset().count(v) <= crate::layout::forest_slices(
        f,
        problem.sheet,
    ).count(v) by {
        let parts = crate::packing::split_parts(whole, cell.w, cell.h, true);
        assert(parts.to_multiset().insert(cell).count(v) <= crate::layout::slices(u, whole).count(
            v,
        ));
    }
}

/// The least whole number that is no less than `a / b`.
pub open spec fn round_up(a: int, b: int) -> int {
    (a + b - 1) / b
}

/// Rounds the value of a linear program down to a lower bound: up to the next whole number of
/// sheets, after the margin is subtracted. A sheet may be worth as much as the threshold of
/// pricing, so that the margin grows with the number of sheets where the fixed one is too small.
pub open spec fn rounded_bound(z: u64) -> int {
    if z <= EPS_ROUND {
        0
    } else {
        let a = round_up(z - EPS_ROUND, UNIT as int);
        let b = round_up(z as int, THRESHOLD as int);
        if a <= b {
            a
        } else {
            b
        }
    }
}

fn divide_up(a: u64, b: u64) -> (r: u64)
    requires
        b > 0,
    ensures
        r == round_up(a as int, b as int),
{
    let (q, m): (u64, u64) = (a / b, a % b);
    proof {
        let (x, y) = (a as int, b as int);
        vstd::arithmetic::div_mod::lemma_fundamental_div_mod(x, y);
        let e = if m == 0 {
            y - 1
        } else {
            m - 1
        };
        let w = if m == 0 {
            q as int
        } else {
            q + 1
        };
        assert(x + y - 1 == w * y + e) by (nonlinear_arith)
            requires
                x == y * q + m,
                m == 0 ==> w == q && e == y - 1,
                m != 0 ==> w == q + 1 && e == m - 1,
        ;
        vstd::arithmetic::div_mod::lemma_fundamental_div_mod_converse(x + y - 1, y, w, e);
        assert(q < a || m == 0 || b > a) by (nonlinear_arith)
            requires
                x == y * q + m,
                x == a,
                y == b,
                y > 0,
                q >= 0,
                m >= 0,
        ;
    }
    if m == 0 {
        q
    } else {
        q + 1
    }
}

/// Rounds the value of a linear program down to a lower bound.
pub fn round_down_lb(z: u64) -> (r: usize)
    ensures
        r == rounded_bound(z),
{
    if z <= EPS_ROUND {
        return 0;
    }
    let a: u64 = divide_up(z - EPS_ROUND, UNIT);
    let b: u64 = divide_up(z, THRESHOLD);
    if a <= b {
        a as usize
    } else {
        b as usize
    }
}

/// Total area of the first `k` pieces.
pub open spec fn piece_area(pieces: Seq<Piece>, k: nat) -> int
    decreases k,
{
    if k == 0 {
        0
    } else {
        piece_area(pieces, (k - 1) as nat) + pieces[k - 1].width * pieces[k - 1].height
    }
}

/// The number of sheets that the area of the pieces needs at least; 0 for a sheet without area.
pub open spec fn area_sheets(problem: Problem) -> int {
    let sheet = problem.sheet.width * problem.sheet.height;
    if sheet == 0 {
        0
    } else {
        (piece_area(problem.pieces@, problem.pieces@.len()) + sheet - 1) / sheet
    }
}

/// The number of sheets that the area of the pieces needs at least.
pub fn area_bound(problem: &Problem) -> (r: usize)
    requires
        problem.pieces@.len() <= u32::MAX,
        area_sheets(*problem) <= usize::MAX,
    ensures
        r == area_sheets(*problem),
{
    let mut total: u128 = 0;
    let mut k: usize = 0;
    while k < problem.pieces.len()
        invariant
            k <= problem.pieces@.len(),
            problem.pieces@.len() <= u32::MAX,
            total == piece_area(problem.pieces@, k as nat),
            total <= k * 0xffff_ffff_ffff_ffff,
        decreases problem.pieces@.len() - k,
    {
        let p = &problem.pieces[k];
        assert(p.width * p.height <= 0xffff_ffff * 0xffff_ffff) by (nonlinear_arith)
            requires
                0 <= p.width <= 0xffff_ffff,
                0 <= p.height <= 0xffff_ffff,
        ;
        assert((k + 1) * 0xffff_ffff_ffff_ffff <= 0xffff_ffff * 0xffff_ffff_ffff_ffff)
            by (nonlinear_arith)
            requires
                0 <= k < 0xffff_ffff,
        ;
        total = total + (p.width as u64 * p.height as u64) as u128;
        k += 1;
    }
    let (w, h) = (problem.sheet.width, problem.sheet.height);
    assert(w * h <= 0xffff_ffff * 0xffff_ffff) by (nonlinear_arith)
        requires
            0 <= w <= 0xffff_ffff,
            0 <= h <= 0xffff_ffff,
    ;
    let sheet: u128 = (w as u64 * h as u64) as u128;
    if sheet == 0 {
        return 0;
    }
    assert(total <= 0xffff_ffff * 0xffff_ffff_ffff_ffff) by (nonlinear_arith)
        requires
            0 <= k <= 0xffff_ffff,
            total <= k * 0xffff_ffff_ffff_ffff,
    ;
    ((total + sheet - 1) / sheet) as usize
}

/// Basic patterns by weight, the heaviest first.
pub struct WeightOrder {
    pub basic: Seq<(usize, u64)>,
}

impl Order for WeightOrder {
    open spec fn ranks(self, i: int) -> bool {
        0 <= i < self.basic.len()
    }

    open spec fn leq(self, a: int, b: int) -> bool {
        self.basic[a].1 >= self.basic[b].1
    }

    proof fn leq_total(self, a: int, b: int) {
    }

    proof fn leq_trans(self, a: int, b: int, c: int) {
    }
}

struct WeightRanking<'a> {
    basic: &'a Vec<(usize, u64)>,
}

impl<'a> Ranking for WeightRanking<'a> {
    type Of = WeightOrder;

    closed spec fn order(&self) -> WeightOrder {
        WeightOrder { basic: self.basic@ }
    }

    fn at_most(&self, a: usize, b: usize) -> (r: bool) {
        self.basic[a].1 >= self.basic[b].1
    }
}

/// A solution while patterns are taken over.
pub struct Rounding {
    pub covered: Seq<bool>,
    pub placements: Seq<Placement>,
    pub sheets: nat,
}

/// Some piece of the list is covered.
pub open spec fn any_covered(items: Seq<usize>, covered: Seq<bool>) -> bool {
    exists|i: int| 0 <= i < items.len() && covered[(#[trigger] items[i]) as int]
}

/// The placements on sheet `s`.
pub open spec fn put_on(placements: Seq<Placement>, s: int) -> Seq<Placement> {
    Seq::new(placements.len(), |i: int| Placement { sheet_idx: s as usize, ..placements[i] })
}

/// Takes a pattern over on a sheet of its own, unless one of its pieces is covered.
pub open spec fn take_over(st: Rounding, p: Pattern) -> Rounding {
    if any_covered(p.items@, st.covered) {
        st
    } else {
        Rounding {
            covered: Seq::new(
                st.covered.len(),
                |i: int| st.covered[i] || p.items@.contains(i as usize),
            ),
            placements: st.placements + put_on(p.placements@, st.sheets as int),
            sheets: st.sheets + 1,
        }
    }
}

/// Takes the first `k` patterns of an order over.
pub open spec fn taken(
    patterns: Seq<Pattern>,
    basic: Seq<(usize, u64)>,
    order: Seq<usize>,
    n: nat,
    k: nat,
) -> Rounding
    decreases k,
{
    if k == 0 {
        Rounding {
            covered: Seq::new(n, |i: int| false),
            placements: Seq::empty(),
            sheets: 0,
        }
    } else {
        take_over(
            taken(patterns, basic, order, n, (k - 1) as nat),
            patterns[basic[order[k - 1] as int].0 as int],
        )
    }
}

/// The pieces among the first `k` that are not covered.
pub open spec fn uncovered(covered: Seq<bool>, k: nat) -> Seq<usize>
    decreases k,
{
    if k == 0 {
        Seq::empty()
    } else if covered[k - 1] {
        uncovered(covered, (k - 1) as nat)
    } else {
        uncovered(covered, (k - 1) as nat).push((k - 1) as usize)
    }
}

/// The problem of some of the pieces.
pub open spec fn restricted(problem: Problem, list: Seq<usize>, sub: Problem) -> bool {
    &&& sub.sheet == problem.sheet
    &&& sub.pieces@ == Seq::new(list.len(), |i: int| problem.pieces@[list[i] as int])
}

/// The placements of a restricted problem, behind `s` sheets of the whole one.
pub open spec fn lifted(placements: Seq<Placement>, list: Seq<usize>, s: int) -> Seq<Placement> {
    Seq::new(
        placements.len(),
        |i: int|
            Placement {
                sheet_idx: (placements[i].sheet_idx + s) as usize,
                piece_idx: list[placements[i].piece_idx as int],
                ..placements[i]
            },
    )
}

/// Pieces are covered exactly where they are placed, each once, as they can be cut.
spec fn rounding_ok(problem: Problem, st: Rounding) -> bool {
    &&& st.covered.len() == problem.pieces@.len()
    &&& known_pieces(problem, st.placements)
    &&& placed_indices(st.placements).no_duplicates()
    &&& forall|i: int|
        0 <= i < st.covered.len() ==> (#[trigger] st.covered[i] <==> placed_indices(
            st.placements,
        ).contains(i as usize))
    &&& turned_as_allowed(problem, st.placements)
    &&& packed(problem.sheet, st.sheets, cells(problem.pieces@, st.placements).to_multiset())
}

proof fn lemma_take_over(problem: Problem, st: Rounding, p: Pattern)
    requires
        rounding_ok(problem, st),
        pattern_ok(problem, p),
        st.sheets < usize::MAX,
        problem.pieces@.len() <= usize::MAX,
    ensures
        rounding_ok(problem, take_over(st, p)),
{
    let now = take_over(st, p);
    if !any_covered(p.items@, st.covered) {
        let s = st.sheets as int;
        let more = put_on(p.placements@, s);
        let (a, b) = (placed_indices(st.placements), placed_indices(now.placements));
        let items = p.items@;
        assert(b =~= a + items) by {
            assert forall|i: int| 0 <= i < b.len() implies b[i] == (a + items)[i] by {
                if i >= a.len() {
                    assert(items[i - a.len()] < problem.pieces@.len());
                }
            }
        }
        assert forall|i: int| 0 <= i < items.len() implies !a.contains(#[trigger] items[i]) by {
            assert(items[i] < problem.pieces@.len());
            assert(!st.covered[items[i] as int]);
        }
        assert(b.no_duplicates()) by {
            assert forall|i: int, j: int| 0 <= i < b.len() && 0 <= j < b.len() && i != j implies b[i]
                != b[j] by {
                if i < a.len() && j >= a.len() {
                    assert(!a.contains(items[j - a.len()]));
                } else if j < a.len() && i >= a.len() {
                    assert(!a.contains(items[i - a.len()]));
                } else if i < a.len() {
                    assert(a[i] != a[j]);
                } else {
                    assert(items[i - a.len()] != items[j - a.len()]);
                }
            }
        }
        assert forall|i: int| 0 <= i < now.covered.len() implies (#[trigger] now.covered[i]
            <==> b.contains(i as usize)) by {
            assert(st.covered[i] <==> a.contains(i as usize));
            if a.contains(i as usize) {
                let k = choose|k: int| 0 <= k < a.len() && a[k] == i as usize;
                assert(b[k] == i as usize);
            }
            if items.contains(i as usize) {
                let k = choose|k: int| 0 <= k < items.len() && items[k] == i as usize;
                assert(b[a.len() + k] == i as usize);
            }
            if b.contains(i as usize) {
                let k = choose|k: int| 0 <= k < b.len() && b[k] == i as usize;
                if k < a.len() {
                    assert(a[k] == i as usize);
                } else {
                    assert(items[k - a.len()] == i as usize);
                }
            }
        }
        assert forall|i: int| 0 <= i < now.placements.len() implies (
        #[trigger] now.placements[i]).piece_idx < problem.pieces.len() by {
            if i >= st.placements.len() {
                assert(items[i - st.placements.len()] < problem.pieces@.len());
            } else {
                assert(st.placements[i].piece_idx < problem.pieces.len());
            }
        }
        assert forall|i: int|
            0 <= i < now.placements.len() && (#[trigger] now.placements[i]).rotated implies
            problem.pieces@[now.placements[i].piece_idx as int].can_rotate by {
            if i < st.placements.len() {
                assert(now.placements[i] == st.placements[i]);
            } else {
                assert(p.placements@[i - st.placements.len()].rotated);
            }
        }
        let (ca, cb) = (
            cells(problem.pieces@, st.placements),
            cells(problem.pieces@, p.placements@),
        );
        lemma_packed_concat(problem.sheet, st.sheets, ca, 1, cb);
        assert(cells(problem.pieces@, now.placements) =~= ca + all_moved(cb, s)) by {
            assert forall|i: int| 0 <= i < now.placements.len() implies cells(
                problem.pieces@,
                now.placements,
            )[i] == (ca + all_moved(cb, s))[i] by {
                if i >= st.placements.len() {
                    let k = i - st.placements.len();
                    assert(items[k] < problem.pieces@.len());
                    assert(p.placements@[k].sheet_idx == 0);
                }
            }
        }
    }
}

proof fn lemma_taken(
    problem: Problem,
    patterns: Seq<Pattern>,
    basic: Seq<(usize, u64)>,
    order: Seq<usize>,
    k: nat,
)
    requires
        k <= order.len() < usize::MAX,
        problem.pieces@.len() <= usize::MAX,
        forall|i: int| 0 <= i < order.len() ==> (#[trigger] order[i]) < basic.len(),
        forall|i: int| 0 <= i < basic.len() ==> (#[trigger] basic[i]).0 < patterns.len(),
        forall|i: int| 0 <= i < patterns.len() ==> pattern_ok(problem, #[trigger] patterns[i]),
    ensures
        rounding_ok(problem, taken(patterns, basic, order, problem.pieces@.len(), k)),
        taken(patterns, basic, order, problem.pieces@.len(), k).sheets <= k,
    decreases k,
{
    let n = problem.pieces@.len();
    if k == 0 {
        let st = taken(patterns, basic, order, n, 0);
        crate::layout::lemma_packed_none(problem.sheet);
        assert(cells(problem.pieces@, st.placements) =~= Seq::empty());
        let e = Seq::<FreeRect>::empty();
        e.to_multiset_ensures();
        assert(e.to_multiset() =~= vstd::multiset::Multiset::empty());
        assert forall|i: int| 0 <= i < n implies (#[trigger] st.covered[i] <==> placed_indices(
            st.placements,
        ).contains(i as usize)) by {}
    } else {
        lemma_taken(problem, patterns, basic, order, (k - 1) as nat);
        let st = taken(patterns, basic, order, n, (k - 1) as nat);
        let col = basic[order[k - 1] as int].0 as int;
        assert(order[k - 1] < basic.len());
        assert(basic[order[k - 1] as int].0 < patterns.len());
        lemma_take_over(problem, st, patterns[col]);
    }
}

proof fn lemma_uncovered(covered: Seq<bool>, k: nat)
    requires
        k <= covered.len() <= usize::MAX,
    ensures
        forall|i: int|
            0 <= i < uncovered(covered, k).len() ==> (#[trigger] uncovered(covered, k)[i]) < k
                && !covered[uncovered(covered, k)[i] as int],
        forall|i: int|
            0 <= i < k && !#[trigger] covered[i] ==> uncovered(covered, k).contains(i as usize),
        uncovered(covered, k).no_duplicates(),
        uncovered(covered, k).len() <= k,
    decreases k,
{
    if k > 0 {
        let m = (k - 1) as nat;
        lemma_uncovered(covered, m);
        let (a, b) = (uncovered(covered, m), uncovered(covered, k));
        assert forall|i: int| 0 <= i < k && !#[trigger] covered[i] implies b.contains(
            i as usize,
        ) by {
            if i < m {
                let j = choose|j: int| 0 <= j < a.len() && a[j] == i as usize;
                assert(b[j] == i as usize);
            } else {
                assert(b[b.len() - 1] == i as usize);
            }
        }
        assert forall|i: int| 0 <= i < b.len() implies (#[trigger] b[i]) < k
            && !covered[b[i] as int] by {
            if i < a.len() {
                assert(a[i] < m);
            }
        }
    }
}

/// The number of sheets is known by one on the last of them.
proof fn lemma_count_is(placements: Seq<Placement>, m: int, i: int)
    requires
        0 <= i < placements.len(),
        placements[i].sheet_idx + 1 == m,
        forall|j: int| 0 <= j < placements.len() ==> (#[trigger] placements[j]).sheet_idx < m,
    ensures
        sheet_count(placements) == m,
{
    lemma_sheet_count(placements);
    let j = choose|j: int|
        0 <= j < placements.len() && (#[trigger] placements[j]).sheet_idx + 1 == sheet_count(
            placements,
        );
    assert(placements[j].sheet_idx < m);
    assert(placements[i].sheet_idx < sheet_count(placements));
}

/// No pattern is empty.
pub open spec fn none_empty(patterns: Seq<Pattern>) -> bool {
    forall|i: int| 0 <= i < patterns.len() ==> (#[trigger] patterns[i]).items@.len() > 0
}

/// Patterns that are not empty use every sheet that they are put on.
proof fn lemma_taken_sheets(
    problem: Problem,
    patterns: Seq<Pattern>,
    basic: Seq<(usize, u64)>,
    order: Seq<usize>,
    k: nat,
)
    requires
        k <= order.len() < usize::MAX,
        problem.pieces@.len() <= usize::MAX,
        forall|i: int| 0 <= i < order.len() ==> (#[trigger] order[i]) < basic.len(),
        forall|i: int| 0 <= i < basic.len() ==> (#[trigger] basic[i]).0 < patterns.len(),
        forall|i: int| 0 <= i < patterns.len() ==> pattern_ok(problem, #[trigger] patterns[i]),
        none_empty(patterns),
    ensures
        ({
            let st = taken(patterns, basic, order, problem.pieces@.len(), k);
            st.sheets == sheet_count(st.placements)
        }),
    decreases k,
{
    if k > 0 {
        let n = problem.pieces@.len();
        lemma_taken_sheets(problem, patterns, basic, order, (k - 1) as nat);
        lemma_taken(problem, patterns, basic, order, (k - 1) as nat);
        let st = taken(patterns, basic, order, n, (k - 1) as nat);
        let now = taken(patterns, basic, order, n, k);
        assert(order[k - 1] < basic.len());
        assert(basic[order[k - 1] as int].0 < patterns.len());
        let p = patterns[basic[order[k - 1] as int].0 as int];
        if !any_covered(p.items@, st.covered) {
            lemma_sheet_count(st.placements);
            let m = st.sheets + 1;
            assert forall|j: int| 0 <= j < now.placements.len() implies (
            #[trigger] now.placements[j]).sheet_idx < m by {
                if j < st.placements.len() {
                    assert(now.placements[j] == st.placements[j]);
                }
            }
            assert(pattern_ok(problem, p));
            lemma_count_is(now.placements, m as int, st.placements.len() as int);
        }
    }
}

/// What is put behind some sheets adds its own to them.
proof fn lemma_lifted_sheets(
    a: Seq<Placement>,
    b: Seq<Placement>,
    list: Seq<usize>,
    s: int,
)
    requires
        sheet_count(a) == s,
        b.len() > 0,
        s + sheet_count(b) <= usize::MAX,
    ensures
        sheet_count(a + lifted(b, list, s)) == s + sheet_count(b),
{
    lemma_sheet_count(a);
    lemma_sheet_count(b);
    let all = a + lifted(b, list, s);
    let m = s + sheet_count(b);
    let j = choose|j: int|
        0 <= j < b.len() && (#[trigger] b[j]).sheet_idx + 1 == sheet_count(b);
    assert forall|i: int| 0 <= i < all.len() implies (#[trigger] all[i]).sheet_idx < m by {
        if i < a.len() {
            assert(all[i] == a[i]);
        } else {
            assert(b[i - a.len()].sheet_idx < sheet_count(b));
        }
    }
    lemma_count_is(all, m, a.len() + j);
}

/// The pieces left over, placed behind what was taken over, complete the solution.
proof fn lemma_rounded(
    problem: Problem,
    st: Rounding,
    list: Seq<usize>,
    sub: Problem,
    placements: Seq<Placement>,
    sheets: nat,
)
    requires
        rounding_ok(problem, st),
        problem.pieces@.len() <= usize::MAX,
        list == uncovered(st.covered, st.covered.len()),
        restricted(problem, list, sub),
        complete(sub, placements),
        st.sheets + sheets <= usize::MAX,
        forall|i: int|
            0 <= i < placements.len() ==> (#[trigger] placements[i]).sheet_idx < sheets,
    ensures
        complete(problem, st.placements + lifted(placements, list, st.sheets as int)),
        turned_as_allowed(sub, placements) ==> turned_as_allowed(
            problem,
            st.placements + lifted(placements, list, st.sheets as int),
        ),
        packed(problem.sheet, sheets, cells(sub.pieces@, placements).to_multiset()) ==> packed(
            problem.sheet,
            st.sheets + sheets,
            cells(
                problem.pieces@,
                st.placements + lifted(placements, list, st.sheets as int),
            ).to_multiset(),
        ),
{
    let n = problem.pieces@.len();
    let s = st.sheets as int;
    let more = lifted(placements, list, s);
    let all = st.placements + more;
    lemma_uncovered(st.covered, st.covered.len());
    let a = placed_indices(st.placements);
    let b = placed_indices(placements);
    let c = placed_indices(more);
    let d = placed_indices(all);
    assert(d =~= a + c);
    assert forall|i: int| 0 <= i < placements.len() implies (#[trigger] placements[i]).piece_idx
        < list.len() by {
        assert(placements[i].piece_idx < sub.pieces.len());
    }
    assert forall|i: int| 0 <= i < c.len() implies #[trigger] c[i] == list[b[i] as int] && b[i]
        < list.len() && c[i] < n && !st.covered[c[i] as int] by {
        assert(placements[i].piece_idx < list.len());
        assert(list[b[i] as int] < n);
    }
    assert(d.no_duplicates()) by {
        assert forall|i: int, j: int| 0 <= i < d.len() && 0 <= j < d.len() && i != j implies d[i]
            != d[j] by {
            if i < a.len() && j < a.len() {
                assert(a[i] != a[j]);
            } else if i >= a.len() && j >= a.len() {
                let (x, y) = (i - a.len(), j - a.len());
                assert(b[x] != b[y]);
                assert(c[x] == list[b[x] as int] && c[y] == list[b[y] as int]);
            } else if i < a.len() {
                let y = j - a.len();
                assert(!st.covered[c[y] as int]);
                assert(a.contains(a[i]));
                if a[i] == c[y] {
                    assert(st.covered[c[y] as int]);
                }
            } else {
                let x = i - a.len();
                assert(!st.covered[c[x] as int]);
                assert(a.contains(a[j]));
                if a[j] == c[x] {
                    assert(st.covered[c[x] as int]);
                }
            }
        }
    }
    assert(known_pieces(problem, all)) by {
        assert forall|i: int| 0 <= i < all.len() implies (#[trigger] all[i]).piece_idx
            < problem.pieces.len() by {
            if i < st.placements.len() {
                assert(st.placements[i].piece_idx < problem.pieces.len());
            } else {
                assert(c[i - st.placements.len()] < n);
            }
        }
    }
    if turned_as_allowed(sub, placements) {
        assert forall|i: int| 0 <= i < all.len() && (#[trigger] all[i]).rotated implies
            problem.pieces@[all[i].piece_idx as int].can_rotate by {
            if i < st.placements.len() {
                assert(all[i] == st.placements[i]);
            } else {
                let k = i - st.placements.len();
                assert(placements[k].rotated);
                assert(placements[k].piece_idx < list.len());
                assert(sub.pieces@[placements[k].piece_idx as int]
                    == problem.pieces@[list[placements[k].piece_idx as int] as int]);
            }
        }
    }
    let full = Seq::new(n, |i: int| i as usize);
    assert(full.no_duplicates());
    assert forall|v: usize| d.contains(v) <==> full.contains(v) by {
        if d.contains(v) {
            let i = choose|i: int| 0 <= i < d.len() && d[i] == v;
            assert(all[i].piece_idx < problem.pieces.len());
            assert(full[v as int] == v);
        }
        if full.contains(v) {
            if st.covered[v as int] {
                assert(a.contains(v));
                let i = choose|i: int| 0 <= i < a.len() && a[i] == v;
                assert(d[i] == v);
            } else {
                assert(list.contains(v));
                let q = choose|q: int| 0 <= q < list.len() && list[q] == v;
                assert(list.len() == sub.pieces@.len());
                crate::sorting::lemma_all_present(b, list.len(), q as usize);
                let i = choose|i: int| 0 <= i < b.len() && b[i] == q as usize;
                assert(c[i] == v);
                assert(d[a.len() + i] == v);
            }
        }
    }
    d.unique_seq_to_set();
    full.unique_seq_to_set();
    assert(d.to_set() =~= full.to_set());
    if packed(problem.sheet, sheets, cells(sub.pieces@, placements).to_multiset()) {
        let (ca, cb) = (
            cells(problem.pieces@, st.placements),
            cells(sub.pieces@, placements),
        );
        lemma_packed_concat(problem.sheet, st.sheets, ca, sheets, cb);
        assert(cells(problem.pieces@, all) =~= ca + all_moved(cb, s)) by {
            assert forall|i: int| 0 <= i < all.len() implies cells(problem.pieces@, all)[i] == (ca
                + all_moved(cb, s))[i] by {
                if i >= st.placements.len() {
                    let k = i - st.placements.len();
                    assert(placements[k].piece_idx < list.len());
                    assert(placements[k].sheet_idx < sheets);
                    assert(sub.pieces@[placements[k].piece_idx as int]
                        == problem.pieces@[list[placements[k].piece_idx as int] as int]);
                }
            }
        }
    }
}

/// The basic patterns, heaviest first, taken over where none of their pieces is covered.
pub open spec fn rounding_of(
    problem: Problem,
    patterns: Seq<Pattern>,
    basic: Seq<(usize, u64)>,
) -> Rounding {
    taken(
        patterns,
        basic,
        order_of(WeightOrder { basic }, basic.len()),
        problem.pieces@.len(),
        basic.len(),
    )
}

/// How pieces that are left over are laid out: by best-fit decreasing height where all of them
/// stand on a sheet, else by best-area fit, which turns pieces.
pub open spec fn rest_layout(sub: Problem) -> Seq<Placement> {
    if all_stand(sub) {
        crate::heuristic::sheet_state(sub, by_height(sub), sub.pieces@.len()).placements
    } else {
        gbaf_state(sub, by_area(sub), sub.pieces@.len()).placements
    }
}

/// A rounded solution: what was taken over, and the pieces left over, on sheets of their own.
pub open spec fn rounded_as(
    problem: Problem,
    st: Rounding,
    sheets: int,
    placements: Seq<Placement>,
) -> bool {
    let list = uncovered(st.covered, st.covered.len());
    if list.len() == 0 {
        sheets == st.sheets && placements == st.placements
    } else {
        exists|sub: Problem| #[trigger]
            restricted(problem, list, sub) && ({
                let rest = rest_layout(sub);
                &&& sheets == st.sheets + sheet_count(rest)
                &&& placements == st.placements + lifted(rest, list, st.sheets as int)
            })
    }
}

fn takes_over(items: &Vec<usize>, covered: &Vec<bool>) -> (r: bool)
    requires
        forall|i: int| 0 <= i < items@.len() ==> (#[trigger] items@[i]) < covered@.len(),
    ensures
        r == !any_covered(items@, covered@),
{
    let mut k: usize = 0;
    while k < items.len()
        invariant
            k <= items@.len(),
            forall|i: int| 0 <= i < items@.len() ==> (#[trigger] items@[i]) < covered@.len(),
            forall|i: int| 0 <= i < k ==> !covered@[(#[trigger] items@[i]) as int],
        decreases items@.len() - k,
    {
        if covered[items[k]] {
            assert(covered@[items@[k as int] as int]);
            return false;
        }
        k += 1;
    }
    true
}

/// Lays out pieces that are left over.
fn lay_rest(sub: &Problem) -> (r: Vec<Placement>)
    requires
        all_fit(*sub),
        0 < sub.pieces@.len() < usize::MAX,
    ensures
        r@ == rest_layout(*sub),
        complete(*sub, r@),
        turned_as_allowed(*sub, r@),
        forall|i: int| 0 <= i < r@.len() ==> (#[trigger] r@[i]).sheet_idx <= sub.pieces@.len(),
        packed(sub.sheet, sheet_count(r@) as nat, cells(sub.pieces@, r@).to_multiset()),
{
    let n: usize = sub.pieces.len();
    let sol = if is_standing(sub) {
        let sol = bfdh_solve(sub);
        proof {
            let o = crate::heuristic::shelf::TallOrder { pieces: sub.pieces@ };
            lemma_order_exists(o, n as nat);
            law_shelves_turn_as_allowed(*sub, by_height(*sub), n as nat);
        }
        sol
    } else {
        let sol = gbaf_solve(sub);
        proof {
            let o = PieceOrder { pieces: sub.pieces@, key: SortKey::Area, dir: SortDir::Desc };
            lemma_order_exists(o, n as nat);
            law_best_area_turns_as_allowed(*sub, by_area(*sub), n as nat);
        }
        sol
    };
    proof {
        lemma_sheet_count(sol.placements@);
        lemma_best_packed(*sub, sol);
    }
    sol.placements
}

/// Rounds the solution of a linear program: basic patterns are taken over by weight, each on a
/// sheet of its own, as long as their pieces are not covered yet; what is left over is laid out
/// by best-fit decreasing height, or by best-area fit where a piece does not stand on a sheet.
/// None where that is no better than `incumbent` sheets.
pub fn round_gap(
    basic: &Vec<(usize, u64)>,
    patterns: &Vec<Pattern>,
    problem: &Problem,
    incumbent: usize,
) -> (r: Option<(usize, Vec<Placement>)>)
    requires
        basic@.len() + problem.pieces@.len() + 1 < usize::MAX,
        forall|i: int| 0 <= i < basic@.len() ==> (#[trigger] basic@[i]).0 < patterns@.len(),
        forall|i: int| 0 <= i < patterns@.len() ==> pattern_ok(*problem, #[trigger] patterns@[i]),
        all_fit(*problem),
    ensures
        exists|sheets: int, placements: Seq<Placement>|
            #![trigger rounded_as(*problem, rounding_of(*problem, patterns@, basic@), sheets, placements)]
            rounded_as(*problem, rounding_of(*problem, patterns@, basic@), sheets, placements)
                && (match r {
                Some(s) => s.0 == sheets && s.1@ == placements && sheets < incumbent,
                None => sheets >= incumbent,
            }),
        r matches Some(s) ==> {
            &&& complete(*problem, s.1@)
            &&& turned_as_allowed(*problem, s.1@)
            &&& packed(problem.sheet, s.0 as nat, cells(problem.pieces@, s.1@).to_multiset())
            &&& none_empty(patterns@) ==> s.0 == sheet_count(s.1@)
        },
{
    let n: usize = problem.pieces.len();
    let ranking = WeightRanking { basic };
    assert(ranking.order() == (WeightOrder { basic: basic@ }));
    let order = ranked(&ranking, basic.len());
    let mut covered: Vec<bool> = vec![false; n];
    let mut placements: Vec<Placement> = Vec::new();
    let mut sheets: usize = 0;
    let mut k: usize = 0;
    let ghost first = taken(patterns@, basic@, order@, n as nat, 0);
    assert(covered@ =~= first.covered);
    assert(placements@ =~= first.placements);
    while k < order.len()
        invariant
            k <= order@.len(),
            order@.len() == basic@.len(),
            basic@.len() + problem.pieces@.len() + 1 < usize::MAX,
            n == problem.pieces@.len(),
            forall|i: int| 0 <= i < order@.len() ==> (#[trigger] order@[i]) < basic@.len(),
            forall|i: int| 0 <= i < basic@.len() ==> (#[trigger] basic@[i]).0 < patterns@.len(),
            forall|i: int|
                0 <= i < patterns@.len() ==> pattern_ok(*problem, #[trigger] patterns@[i]),
            covered@ == taken(patterns@, basic@, order@, n as nat, k as nat).covered,
            placements@ == taken(patterns@, basic@, order@, n as nat, k as nat).placements,
            sheets == taken(patterns@, basic@, order@, n as nat, k as nat).sheets,
        decreases order@.len() - k,
    {
        assert(order@[k as int] < basic@.len());
        assert(basic@[order@[k as int] as int].0 < patterns@.len());
        let ghost st = taken(patterns@, basic@, order@, n as nat, k as nat);
        proof {
            lemma_taken(*problem, patterns@, basic@, order@, k as nat);
        }
        let p = &patterns[basic[order[k]].0];
        assert(pattern_ok(*problem, *p));
        if takes_over(&p.items, &covered) {
            let ghost before = covered@;
            let mut i: usize = 0;
            while i < p.items.len()
                invariant
                    i <= p.items@.len(),
                    n == problem.pieces@.len(),
                    pattern_ok(*problem, *p),
                    covered@.len() == n,
                    before.len() == n,
                    forall|q: int|
                        0 <= q < n ==> (#[trigger] covered@[q] == (before[q] || p.items@.take(
                            i as int,
                        ).contains(q as usize))),
                decreases p.items@.len() - i,
            {
                assert(p.items@[i as int] < n);
                let ghost now = covered@;
                covered.set(p.items[i], true);
                proof {
                    let (a, b) = (p.items@.take(i as int), p.items@.take(i + 1));
                    assert(b =~= a.push(p.items@[i as int]));
                    assert forall|q: int| 0 <= q < n implies (#[trigger] covered@[q] == (before[q]
                        || b.contains(q as usize))) by {
                        assert(now[q] == (before[q] || a.contains(q as usize)));
                        if a.contains(q as usize) {
                            let j = choose|j: int| 0 <= j < a.len() && a[j] == q as usize;
                            assert(b[j] == q as usize);
                        }
                        if q == p.items@[i as int] {
                            assert(b[i as int] == q as usize);
                        }
                        if b.contains(q as usize) {
                            let j = choose|j: int| 0 <= j < b.len() && b[j] == q as usize;
                            if j < i {
                                assert(a[j] == q as usize);
                            }
                        }
                    }
                }
                i += 1;
            }
            assert(p.items@.take(i as int) =~= p.items@);
            let ghost base = placements@;
            let mut j: usize = 0;
            assert(placements@ =~= base + put_on(p.placements@, sheets as int).take(0));
            while j < p.placements.len()
                invariant
                    j <= p.placements@.len(),
                    placements@ == base + put_on(p.placements@, sheets as int).take(j as int),
                decreases p.placements@.len() - j,
            {
                let pl = p.placements[j];
                placements.push(
                    Placement {
                        sheet_idx: sheets,
                        piece_idx: pl.piece_idx,
                        x: pl.x,
                        y: pl.y,
                        rotated: pl.rotated,
                    },
                );
                j += 1;
                assert(placements@ =~= base + put_on(p.placements@, sheets as int).take(j as int));
            }
            assert(put_on(p.placements@, sheets as int).take(j as int) =~= put_on(
                p.placements@,
                sheets as int,
            ));
            assert(covered@ =~= take_over(st, *p).covered);
            sheets += 1;
        }
        k += 1;
    }
    let ghost st = rounding_of(*problem, patterns@, basic@);
    proof {
        lemma_taken(*problem, patterns@, basic@, order@, order@.len());
        lemma_uncovered(st.covered, st.covered.len());
        if none_empty(patterns@) {
            lemma_taken_sheets(*problem, patterns@, basic@, order@, order@.len());
        }
    }
    let ghost list = uncovered(st.covered, n as nat);
    let mut remaining: Vec<usize> = Vec::new();
    let mut pieces: Vec<Piece> = Vec::new();
    let mut q: usize = 0;
    while q < n
        invariant
            q <= n,
            n == problem.pieces@.len(),
            covered@.len() == n,
            remaining@ == uncovered(covered@, q as nat),
            pieces@.len() == remaining@.len(),
            forall|i: int|
                0 <= i < remaining@.len() ==> (#[trigger] remaining@[i]) < n && pieces@[i]
                    == problem.pieces@[remaining@[i] as int],
        decreases n - q,
    {
        if !covered[q] {
            remaining.push(q);
            pieces.push(problem.pieces[q].clone());
        }
        q += 1;
    }
    if remaining.len() > 0 {
        let sub = Problem { sheet: problem.sheet, pieces };
        proof {
            assert(sub.pieces@ =~= Seq::new(
                list.len(),
                |i: int| problem.pieces@[list[i] as int],
            ));
            assert(restricted(*problem, list, sub));
            assert forall|i: int| 0 <= i < sub.pieces.len() implies #[trigger] fits_sheet(
                sub,
                i,
            ) by {
                assert(remaining@[i] < n);
                assert(fits_sheet(*problem, remaining@[i] as int));
            }
        }
        let rest = lay_rest(&sub);
        let more: usize = count_sheets(&rest);
        proof {
            lemma_sheet_count(rest@);
            assert(more <= sub.pieces@.len() + 1);
            lemma_rounded(*problem, st, list, sub, rest@, more as nat);
            if none_empty(patterns@) {
                assert(rest@.len() > 0);
                lemma_lifted_sheets(st.placements, rest@, list, st.sheets as int);
            }
        }
        let ghost base = placements@;
        let ghost goal = lifted(rest@, list, sheets as int);
        let mut j: usize = 0;
        assert(placements@ =~= base + goal.take(0));
        while j < rest.len()
            invariant
                j <= rest@.len(),
                remaining@ == list,
                complete(sub, rest@),
                list.len() == sub.pieces@.len(),
                goal == lifted(rest@, list, sheets as int),
                forall|i: int|
                    0 <= i < rest@.len() ==> (#[trigger] rest@[i]).sheet_idx <= sub.pieces@.len(),
                sheets + sub.pieces@.len() < usize::MAX,
                placements@ == base + goal.take(j as int),
            decreases rest@.len() - j,
        {
            let pl = rest[j];
            assert(rest@[j as int].piece_idx < sub.pieces.len());
            placements.push(
                Placement {
                    sheet_idx: pl.sheet_idx + sheets,
                    piece_idx: remaining[pl.piece_idx],
                    x: pl.x,
                    y: pl.y,
                    rotated: pl.rotated,
                },
            );
            j += 1;
            assert(placements@ =~= base + goal.take(j as int));
        }
        assert(goal.take(j as int) =~= goal);
        sheets = sheets + more;
    } else {
        proof {
            lemma_nothing_left(*problem, st);
        }
    }
    assert(rounded_as(*problem, st, sheets as int, placements@));
    if sheets < incumbent {
        Some((sheets, placements))
    } else {
        None
    }
}

/// Where every piece is covered, what was taken over is the whole solution.
proof fn lemma_nothing_left(problem: Problem, st: Rounding)
    requires
        rounding_ok(problem, st),
        problem.pieces@.len() <= usize::MAX,
        uncovered(st.covered, st.covered.len()).len() == 0,
    ensures
        complete(problem, st.placements),
{
    let n = problem.pieces@.len();
    lemma_uncovered(st.covered, st.covered.len());
    let a = placed_indices(st.placements);
    let full = Seq::new(n, |i: int| i as usize);
    assert(full.no_duplicates());
    assert forall|v: usize| a.contains(v) <==> full.contains(v) by {
        if a.contains(v) {
            let i = choose|i: int| 0 <= i < a.len() && a[i] == v;
            assert(st.placements[i].piece_idx < problem.pieces.len());
            assert(full[v as int] == v);
        }
        if full.contains(v) {
            if !st.covered[v as int] {
                assert(uncovered(st.covered, st.covered.len()).contains(v));
            }
            assert(a.contains(v));
        }
    }
    a.unique_seq_to_set();
    full.unique_seq_to_set();
    assert(a.to_set() =~= full.to_set());
}

/// The pattern has a copy of type `t`.
pub open spec fn has_type(pr: Pricer, p: Pattern, t: int) -> bool {
    exists|i: int|
        0 <= i < p.items@.len() && pr.ptypes@[t].copies@.contains(#[trigger] p.items@[i])
}

fn pattern_has_type(pr: &Pricer, p: &Pattern, t: usize) -> (r: bool)
    requires
        t < pr.ptypes@.len(),
    ensures
        r == has_type(*pr, *p, t as int),
{
    let copies = &pr.ptypes[t].copies;
    let mut k: usize = 0;
    while k < p.items.len()
        invariant
            k <= p.items@.len(),
            t < pr.ptypes@.len(),
            copies@ == pr.ptypes@[t as int].copies@,
            forall|i: int| 0 <= i < k ==> !copies@.contains(#[trigger] p.items@[i]),
        decreases p.items@.len() - k,
    {
        if has_copy(copies, p.items[k]) {
            assert(copies@.contains(p.items@[k as int]));
            return true;
        }
        k += 1;
    }
    false
}

/// The weight of the first `k` basic patterns that have copies of both types.
pub open spec fn pair_weight(
    pr: Pricer,
    patterns: Seq<Pattern>,
    basic: Seq<(usize, u64)>,
    t: int,
    u: int,
    k: nat,
) -> int
    decreases k,
{
    if k == 0 {
        0
    } else {
        let p = patterns[basic[k - 1].0 as int];
        pair_weight(pr, patterns, basic, t, u, (k - 1) as nat) + if has_type(pr, p, t) && has_type(
            pr,
            p,
            u,
        ) {
            basic[k - 1].1 as int
        } else {
            0
        }
    }
}

/// The weight is further than the margin from any whole number.
pub open spec fn fractional(v: int) -> bool {
    v % (UNIT as int) > EPS_ROUND && UNIT - v % (UNIT as int) > EPS_ROUND
}

/// The distance of a weight from one half.
pub open spec fn off_half(v: int) -> int {
    if v >= UNIT / 2 {
        v - UNIT / 2
    } else {
        UNIT / 2 - v
    }
}

fn weight_of_pair(
    pr: &Pricer,
    patterns: &Vec<Pattern>,
    basic: &Vec<(usize, u64)>,
    t: usize,
    u: usize,
) -> (r: u128)
    requires
        t < pr.ptypes@.len(),
        u < pr.ptypes@.len(),
        basic@.len() <= u32::MAX,
        forall|i: int| 0 <= i < basic@.len() ==> (#[trigger] basic@[i]).0 < patterns@.len(),
    ensures
        r == pair_weight(*pr, patterns@, basic@, t as int, u as int, basic@.len()),
{
    let mut sum: u128 = 0;
    let mut k: usize = 0;
    while k < basic.len()
        invariant
            k <= basic@.len(),
            t < pr.ptypes@.len(),
            u < pr.ptypes@.len(),
            basic@.len() <= u32::MAX,
            forall|i: int| 0 <= i < basic@.len() ==> (#[trigger] basic@[i]).0 < patterns@.len(),
            sum == pair_weight(*pr, patterns@, basic@, t as int, u as int, k as nat),
            sum <= k * 0xffff_ffff_ffff_ffff,
        decreases basic@.len() - k,
    {
        assert(basic@[k as int].0 < patterns@.len());
        assert((k + 1) * 0xffff_ffff_ffff_ffff <= 0xffff_ffff * 0xffff_ffff_ffff_ffff)
            by (nonlinear_arith)
            requires
                0 <= k < 0xffff_ffff,
        ;
        let p = &patterns[basic[k].0];
        if pattern_has_type(pr, p, t) && pattern_has_type(pr, p, u) {
            sum = sum + basic[k].1 as u128;
        }
        k += 1;
    }
    sum
}

/// A pair of types whose weight is fractional, as near to one half as any; none where no pair
/// has a fractional weight.
pub fn pick_fractional_type_pair(
    pr: &Pricer,
    patterns: &Vec<Pattern>,
    basic: &Vec<(usize, u64)>,
) -> (r: Option<(usize, usize)>)
    requires
        basic@.len() <= u32::MAX,
        forall|i: int| 0 <= i < basic@.len() ==> (#[trigger] basic@[i]).0 < patterns@.len(),
    ensures
        match r {
            Some(pair) => {
                let v = pair_weight(
                    *pr,
                    patterns@,
                    basic@,
                    pair.0 as int,
                    pair.1 as int,
                    basic@.len(),
                );
                &&& pair.0 < pair.1 < pr.ptypes@.len()
                &&& fractional(v)
                &&& forall|a: int, b: int|
                    0 <= a < b < pr.ptypes@.len() && fractional(
                        #[trigger] pair_weight(*pr, patterns@, basic@, a, b, basic@.len()),
                    ) ==> off_half(v) <= off_half(
                        pair_weight(*pr, patterns@, basic@, a, b, basic@.len()),
                    )
            },
            None => forall|a: int, b: int|
                0 <= a < b < pr.ptypes@.len() ==> !fractional(
                    #[trigger] pair_weight(*pr, patterns@, basic@, a, b, basic@.len()),
                ),
        },
{
    let n: usize = pr.ptypes.len();
    let mut best: Option<(usize, usize)> = None;
    let mut distance: u128 = 0;
    let mut t: usize = 0;
    while t < n
        invariant
            t <= n,
            n == pr.ptypes@.len(),
            basic@.len() <= u32::MAX,
            forall|i: int| 0 <= i < basic@.len() ==> (#[trigger] basic@[i]).0 < patterns@.len(),
            best_pair(*pr, patterns@, basic@, best, distance as int, t as int, t + 1),
        decreases n - t,
    {
        let mut u: usize = t + 1;
        while u < n
            invariant
                t < n,
                t + 1 <= u <= n,
                n == pr.ptypes@.len(),
                basic@.len() <= u32::MAX,
                forall|i: int|
                    0 <= i < basic@.len() ==> (#[trigger] basic@[i]).0 < patterns@.len(),
                best_pair(*pr, patterns@, basic@, best, distance as int, t as int, u as int),
            decreases n - u,
        {
            let v: u128 = weight_of_pair(pr, patterns, basic, t, u);
            let f: u128 = v % (UNIT as u128);
            if f > EPS_ROUND as u128 && UNIT as u128 - f > EPS_ROUND as u128 {
                let half: u128 = UNIT as u128 / 2;
                let d: u128 = if v >= half {
                    v - half
                } else {
                    half - v
                };
                if best.is_none() || d < distance {
                    best = Some((t, u));
                    distance = d;
                }
            }
            u += 1;
        }
        t += 1;
    }
    best
}

/// The best pair among those in front of `(t, u)` in order, with its distance from one half.
spec fn best_pair(
    pr: Pricer,
    patterns: Seq<Pattern>,
    basic: Seq<(usize, u64)>,
    best: Option<(usize, usize)>,
    distance: int,
    t: int,
    u: int,
) -> bool {
    &&& best matches Some(pair) ==> {
        let v = pair_weight(pr, patterns, basic, pair.0 as int, pair.1 as int, basic.len());
        &&& pair.0 < pair.1 < pr.ptypes@.len()
        &&& fractional(v)
        &&& distance == off_half(v)
    }
    &&& forall|a: int, b: int|
        0 <= a < b < pr.ptypes@.len() && (a < t || (a == t && b < u)) && fractional(
            #[trigger] pair_weight(pr, patterns, basic, a, b, basic.len()),
        ) ==> best is Some && distance <= off_half(
            pair_weight(pr, patterns, basic, a, b, basic.len()),
        )
}

/// Some basic pattern has a fractional weight.
pub open spec fn any_fractional(basic: Seq<(usize, u64)>) -> bool {
    exists|i: int| 0 <= i < basic.len() && fractional((#[trigger] basic[i]).1 as int)
}

/// Whether some basic pattern has a fractional weight.
pub fn node_has_fractional_lambda(basic: &Vec<(usize, u64)>) -> (r: bool)
    ensures
        r == any_fractional(basic@),
{
    let mut k: usize = 0;
    while k < basic.len()
        invariant
            k <= basic@.len(),
            forall|i: int| 0 <= i < k ==> !fractional((#[trigger] basic@[i]).1 as int),
        decreases basic@.len() - k,
    {
        let f: u64 = basic[k].1 % UNIT;
        if f > EPS_ROUND && UNIT - f > EPS_ROUND {
            assert(fractional(basic@[k as int].1 as int));
            return true;
        }
        k += 1;
    }
    false
}

/// A node of the search tree.
pub struct BpcNode {
    pub constraints: BranchConstraints,
    /// The pool of patterns: one for each piece alone, then the others.
    pub patterns: Vec<Pattern>,
    /// A lower bound for the nodes below, from the node above.
    pub pending_lb: usize,
}

/// What a pattern says.
pub open spec fn pattern_view(p: Pattern) -> (Seq<usize>, Seq<Placement>) {
    (p.items@, p.placements@)
}

/// A pattern stays in the pool of a child: with both types or neither, or not with both.
pub open spec fn stays(pr: Pricer, p: Pattern, t: int, u: int, together: bool) -> bool {
    if together {
        has_type(pr, p, t) == has_type(pr, p, u)
    } else {
        !(has_type(pr, p, t) && has_type(pr, p, u))
    }
}

/// The pool of a child: each piece alone, and those of the first `k` patterns behind them that
/// stay.
pub open spec fn child_pool(
    problem: Problem,
    pr: Pricer,
    patterns: Seq<Pattern>,
    t: int,
    u: int,
    together: bool,
    k: nat,
) -> Seq<(Seq<usize>, Seq<Placement>)>
    decreases k,
{
    let n = problem.pieces@.len();
    if k <= n {
        Seq::new(k, |i: int| (seq![i as usize], seq![alone(problem, i as usize)]))
    } else {
        let rest = child_pool(problem, pr, patterns, t, u, together, (k - 1) as nat);
        if stays(pr, patterns[k - 1], t, u, together) {
            rest.push(pattern_view(patterns[k - 1]))
        } else {
            rest
        }
    }
}

/// What the patterns of a pool say.
pub open spec fn pool_view(patterns: Seq<Pattern>) -> Seq<(Seq<usize>, Seq<Placement>)> {
    Seq::new(patterns.len(), |i: int| pattern_view(patterns[i]))
}

/// A pool has a pattern for each piece, and all its patterns can be cut.
pub open spec fn pool_ok(problem: Problem, patterns: Seq<Pattern>) -> bool {
    &&& patterns.len() >= problem.pieces@.len()
    &&& none_empty(patterns)
    &&& forall|i: int| 0 <= i < patterns.len() ==> pattern_ok(problem, #[trigger] patterns[i])
}

/// The pool of a child node.
pub fn child_patterns(
    problem: &Problem,
    pr: &Pricer,
    patterns: &Vec<Pattern>,
    t: usize,
    u: usize,
    together: bool,
) -> (r: Vec<Pattern>)
    requires
        t < pr.ptypes@.len(),
        u < pr.ptypes@.len(),
        pool_ok(*problem, patterns@),
        forall|i: int| 0 <= i < problem.pieces@.len() ==> #[trigger] fits_sheet(*problem, i),
    ensures
        pool_view(r@) == child_pool(
            *problem,
            *pr,
            patterns@,
            t as int,
            u as int,
            together,
            patterns@.len(),
        ),
        pool_ok(*problem, r@),
{
    let n: usize = problem.pieces.len();
    let mut out: Vec<Pattern> = Vec::new();
    while out.len() < n
        invariant
            out@.len() <= n,
            n == problem.pieces@.len(),
            forall|i: int| 0 <= i < problem.pieces@.len() ==> #[trigger] fits_sheet(*problem, i),
            forall|i: int| 0 <= i < out@.len() ==> pattern_ok(*problem, #[trigger] out@[i]),
            none_empty(out@),
            pool_view(out@) =~= child_pool(
                *problem,
                *pr,
                patterns@,
                t as int,
                u as int,
                together,
                out@.len(),
            ),
        decreases n - out@.len(),
    {
        let i: usize = out.len();
        let ghost before = pool_view(out@);
        assert(fits_sheet(*problem, i as int));
        let p = singleton_pattern(i, problem);
        out.push(p);
        assert(pool_view(out@) =~= before.push(pattern_view(p)));
    }
    let mut k: usize = n;
    while k < patterns.len()
        invariant
            n == problem.pieces@.len(),
            n <= k <= patterns@.len(),
            t < pr.ptypes@.len(),
            u < pr.ptypes@.len(),
            pool_ok(*problem, patterns@),
            out@.len() >= n,
            forall|i: int| 0 <= i < out@.len() ==> pattern_ok(*problem, #[trigger] out@[i]),
            none_empty(out@),
            pool_view(out@) == child_pool(
                *problem,
                *pr,
                patterns@,
                t as int,
                u as int,
                together,
                k as nat,
            ),
        decreases patterns@.len() - k,
    {
        let p = &patterns[k];
        let (a, b) = (pattern_has_type(pr, p, t), pattern_has_type(pr, p, u));
        let keep = if together {
            a == b
        } else {
            !(a && b)
        };
        if keep {
            let ghost before = pool_view(out@);
            let c = copy_pattern(p);
            proof {
                assert(pattern_ok(*problem, patterns@[k as int]));
                assert(pattern_view(c) == pattern_view(*p));
            }
            out.push(c);
            assert(pool_view(out@) =~= before.push(pattern_view(c)));
        }
        k += 1;
    }
    out
}

/// The search tree: nodes that wait, and the best solution so far.
pub struct Tree {
    pub open: Vec<BpcNode>,
    /// The lower bound by area.
    pub lb0: usize,
    /// Number of sheets of the best solution.
    pub global_ub: usize,
    pub best: Solution,
    /// Number of nodes worked on.
    pub processed: usize,
    /// Part of the tree was left out.
    pub incomplete: bool,
}

/// What comes next.
pub enum TreeStep {
    /// Work on this node.
    Work(BpcNode),
    /// The search is over.
    Done(BpcStatus),
}

/// The lesser of two numbers.
pub open spec fn least(a: usize, b: usize) -> usize {
    if a <= b {
        a
    } else {
        b
    }
}

/// The least lower bound of the waiting nodes, `fallback` where none waits.
pub open spec fn frontier(open: Seq<BpcNode>, fallback: usize) -> usize
    decreases open.len(),
{
    if open.len() == 0 {
        fallback
    } else if open.len() == 1 {
        open[0].pending_lb
    } else {
        least(frontier(open.drop_last(), fallback), open.last().pending_lb)
    }
}

/// The least lower bound of the waiting nodes.
pub fn frontier_lb(open: &Vec<BpcNode>, fallback: usize) -> (r: usize)
    ensures
        r == frontier(open@, fallback),
{
    if open.len() == 0 {
        return fallback;
    }
    let mut r: usize = open[0].pending_lb;
    let mut k: usize = 1;
    assert(open@.take(1).len() == 1);
    while k < open.len()
        invariant
            1 <= k <= open@.len(),
            r == frontier(open@.take(k as int), fallback),
        decreases open@.len() - k,
    {
        let v: usize = open[k].pending_lb;
        if v < r {
            r = v;
        }
        assert(open@.take(k + 1).drop_last() =~= open@.take(k as int));
        k += 1;
    }
    assert(open@.take(k as int) =~= open@);
    r
}

/// A node whose patterns can be cut and whose constraints speak of known types.
pub open spec fn node_ok(problem: Problem, pr: Pricer, node: BpcNode) -> bool {
    pool_ok(problem, node.patterns@) && node.constraints.about(pr.ptypes@.len())
}

/// The best solution has all pieces, turned only where they may be, and can be cut from as many
/// sheets as are said; the nodes are in order.
pub open spec fn tree_ok(problem: Problem, pr: Pricer, tree: Tree) -> bool {
    &&& complete(problem, tree.best.placements@)
    &&& tree.global_ub == sheet_count(tree.best.placements@)
    &&& turned_as_allowed(problem, tree.best.placements@)
    &&& packed(
        problem.sheet,
        tree.global_ub as nat,
        cells(problem.pieces@, tree.best.placements@).to_multiset(),
    )
    &&& forall|i: int| 0 <= i < tree.open@.len() ==> node_ok(problem, pr, #[trigger] tree.open@[i])
}

impl Tree {
    /// The lower bound that is reported for one of the nodes: no more than the number of sheets
    /// of the best solution, and the bound by area once part of the tree was left out.
    pub open spec fn sound_bound(self, bound: usize) -> usize {
        if self.incomplete {
            least(self.lb0, self.global_ub)
        } else {
            least(bound, self.global_ub)
        }
    }

    /// The lower bound between two nodes.
    pub open spec fn lower_bound(self) -> usize {
        self.sound_bound(frontier(self.open@, self.lb0))
    }

    /// The lower bound while a node is worked on.
    pub open spec fn bound_with(self, node: BpcNode) -> usize {
        self.sound_bound(least(frontier(self.open@, self.lb0), node.pending_lb))
    }

    /// The status when the search ends by itself: the best solution is optimal where no node
    /// waits and nothing was left out, or where the lower bound is reached.
    pub open spec fn finished(self) -> BpcStatus {
        if (self.open@.len() == 0 && !self.incomplete) || self.lower_bound() == self.global_ub {
            BpcStatus::Optimal { sheets: self.global_ub }
        } else {
            BpcStatus::Gap { lb: self.lower_bound(), ub: self.global_ub }
        }
    }

    fn reported(&self, bound: usize) -> (r: usize)
        ensures
            r == self.sound_bound(bound),
    {
        let v: usize = if self.incomplete {
            self.lb0
        } else {
            bound
        };
        if v <= self.global_ub {
            v
        } else {
            self.global_ub
        }
    }

    /// The lower bound while a node is worked on.
    pub fn progress_lb(&self, node: &BpcNode) -> (r: usize)
        ensures
            r == self.bound_with(*node),
            r <= self.global_ub,
    {
        let f: usize = frontier_lb(&self.open, self.lb0);
        self.reported(
            if f <= node.pending_lb {
                f
            } else {
                node.pending_lb
            },
        )
    }

    /// The status when the search ends by itself.
    fn end(&self) -> (r: BpcStatus)
        ensures
            r == self.finished(),
            r.in_order(),
    {
        let lb: usize = self.reported(frontier_lb(&self.open, self.lb0));
        if (self.open.len() == 0 && !self.incomplete) || lb == self.global_ub {
            BpcStatus::Optimal { sheets: self.global_ub }
        } else {
            BpcStatus::Gap { lb, ub: self.global_ub }
        }
    }

    /// The status when the search is stopped while a node is worked on.
    pub fn stopped_at(&self, node: &BpcNode) -> (r: BpcStatus)
        ensures
            r == (BpcStatus::Stopped { lb: self.bound_with(*node), ub: self.global_ub }),
            r.in_order(),
    {
        BpcStatus::Stopped { lb: self.progress_lb(node), ub: self.global_ub }
    }

    /// The tree while its last node is worked on.
    pub open spec fn takes(self, after: Tree, node: BpcNode) -> bool {
        &&& self.open@.len() > 0
        &&& node == self.open@.last()
        &&& after == (Tree { open: after.open, processed: after.processed, ..self })
        &&& after.open@ == self.open@.drop_last()
        &&& after.processed == self.processed + 1
    }

    /// The tree when a node was given up.
    pub open spec fn gives_up(self) -> Tree {
        Tree { incomplete: true, ..self }
    }

    /// Takes the next node, the last that came. The search is over when none waits, when it is
    /// stopped, or when too many nodes have been worked on.
    pub fn next(&mut self, stopped: bool, max_tree_nodes: usize) -> (r: TreeStep)
        ensures
            *final(self) == (Tree {
                open: final(self).open,
                processed: final(self).processed,
                ..*old(self)
            }),
            match r {
                TreeStep::Work(node) => {
                    &&& !stopped
                    &&& old(self).processed < max_tree_nodes
                    &&& old(self).takes(*final(self), node)
                },
                TreeStep::Done(status) => {
                    &&& status.in_order()
                    &&& if old(self).open@.len() > 0 && stopped {
                        &&& final(self).open@ == old(self).open@.drop_last()
                        &&& status == (BpcStatus::Stopped {
                            lb: final(self).bound_with(old(self).open@.last()),
                            ub: old(self).global_ub,
                        })
                    } else {
                        &&& old(self).open@.len() == 0 || old(self).processed >= max_tree_nodes
                        &&& final(self).open@ == old(self).open@
                        &&& status == old(self).finished()
                    }
                },
            },
    {
        match self.open.pop() {
            None => TreeStep::Done(self.end()),
            Some(node) => {
                if stopped {
                    return TreeStep::Done(self.stopped_at(&node));
                }
                if self.processed >= max_tree_nodes {
                    self.open.push(node);
                    assert(self.open@ =~= old(self).open@);
                    return TreeStep::Done(self.end());
                }
                self.processed = self.processed + 1;
                TreeStep::Work(node)
            },
        }
    }

    /// A node was given up before its bound was known.
    pub fn aborted(&mut self)
        ensures
            *final(self) == old(self).gives_up(),
    {
        self.incomplete = true;
    }
}

/// Each piece alone.
pub open spec fn alone_pool(problem: Problem) -> Seq<(Seq<usize>, Seq<Placement>)> {
    Seq::new(
        problem.pieces@.len(),
        |i: int| (seq![i as usize], seq![alone(problem, i as usize)]),
    )
}

/// A tree whose only node is its root: each piece alone, no constraints, the bound by area.
pub open spec fn planted(problem: Problem, tree: Tree) -> bool {
    &&& tree.lb0 == area_sheets(problem)
    &&& tree.processed == 0
    &&& !tree.incomplete
    &&& tree.open@.len() == 1
    &&& pool_view(tree.open@[0].patterns@) == alone_pool(problem)
    &&& tree.open@[0].pending_lb == tree.lb0
    &&& tree.open@[0].constraints.forbidden@.len() == 0
    &&& tree.open@[0].constraints.forced_together@.len() == 0
}

fn singletons(problem: &Problem) -> (r: Vec<Pattern>)
    requires
        all_fit(*problem),
    ensures
        pool_view(r@) == alone_pool(*problem),
        pool_ok(*problem, r@),
{
    let n: usize = problem.pieces.len();
    let mut out: Vec<Pattern> = Vec::new();
    while out.len() < n
        invariant
            out@.len() <= n,
            n == problem.pieces@.len(),
            all_fit(*problem),
            forall|i: int| 0 <= i < out@.len() ==> pattern_ok(*problem, #[trigger] out@[i]),
            none_empty(out@),
            pool_view(out@) =~= alone_pool(*problem).take(out@.len() as int),
        decreases n - out@.len(),
    {
        let i: usize = out.len();
        let ghost before = pool_view(out@);
        assert(fits_sheet(*problem, i as int));
        let p = singleton_pattern(i, problem);
        out.push(p);
        assert(pool_view(out@) =~= before.push(pattern_view(p)));
    }
    assert(pool_view(out@) =~= alone_pool(*problem));
    out
}

impl Tree {
    /// A tree with its root: the bound by area, the best of the greedy portfolio, and a pool of
    /// each piece alone.
    pub fn plant(problem: &Problem) -> (r: Tree)
        requires
            all_fit(*problem),
            extended(*problem),
            problem.pieces@.len() <= u32::MAX,
            problem.pieces@.len() < usize::MAX,
            scorable(problem.sheet, problem.pieces@.len()),
            area_sheets(*problem) <= usize::MAX,
        ensures
            planted(*problem, r),
            r.lb0 <= r.global_ub,
            r.best.placements@ == jylanki_result(
                *problem,
                strategy(best_pass(*problem, STRATEGIES as nat)),
            ).placements,
            r.best.leftovers@ == jylanki_result(
                *problem,
                strategy(best_pass(*problem, STRATEGIES as nat)),
            ).free,
            r.global_ub == sheet_count(r.best.placements@),
            forall|pr: Pricer| #[trigger] tree_ok(*problem, pr, r),
    {
        let lb0: usize = area_bound(problem);
        let best = jylanki_solve(problem);
        let global_ub: usize = best.sheets_used();
        let node = BpcNode {
            constraints: BranchConstraints::default(),
            patterns: singletons(problem),
            pending_lb: lb0,
        };
        let mut open: Vec<BpcNode> = Vec::new();
        open.push(node);
        proof {
            lemma_sheet_count(best.placements@);
            lemma_best_packed(*problem, best);
            crate::bounds::law_area_bound(*problem, best.placements@, global_ub as nat);
            law_portfolio_turns_as_allowed(
                *problem,
                strategy(best_pass(*problem, STRATEGIES as nat)),
            );
        }
        Tree { open, lb0, global_ub, best, processed: 0, incomplete: false }
    }

    /// The bound by area is reached already.
    pub fn is_closed(&self) -> (r: bool)
        ensures
            r == (self.lb0 >= self.global_ub),
    {
        self.lb0 >= self.global_ub
    }

    /// The linear program of a node is solved for good: `z` is its value, `basic` its basic
    /// patterns with their weights. The solution is rounded where that may be better than the
    /// best one; where the bound still leaves room below it, the node branches on a pair of
    /// types, into one child with both on a sheet or neither and one with not both. With one
    /// copy of each type every cutting is in one of the two; with more, cuttings may be left
    /// out, as they are where there is no pair to branch on.
    pub fn converged(
        &mut self,
        problem: &Problem,
        pr: &Pricer,
        node: BpcNode,
        z: u64,
        basic: &Vec<(usize, u64)>,
    )
        requires
            all_fit(*problem),
            tree_ok(*problem, *pr, *old(self)),
            node_ok(*problem, *pr, node),
            basic@.len() <= u32::MAX,
            basic@.len() + problem.pieces@.len() + 1 < usize::MAX,
            forall|i: int|
                0 <= i < basic@.len() ==> (#[trigger] basic@[i]).0 < node.patterns@.len(),
        ensures
            tree_ok(*problem, *pr, *final(self)),
            converges(*problem, *pr, *old(self), *final(self), node, z, basic@),
    {
        let z_lb: usize = round_down_lb(z);
        let node_lb: usize = if self.lb0 >= z_lb {
            self.lb0
        } else {
            z_lb
        };
        if node_lb >= self.global_ub {
            return;
        }
        let ghost st = rounding_of(*problem, node.patterns@, basic@);
        let rounded = round_gap(basic, &node.patterns, problem, self.global_ub);
        let ghost (gs, gp) = choose|sheets: int, placements: Seq<Placement>|
            #![trigger rounded_as(*problem, st, sheets, placements)]
            rounded_as(*problem, st, sheets, placements) && (match rounded {
                Some(s) => s.0 == sheets && s.1@ == placements && sheets < old(self).global_ub,
                None => sheets >= old(self).global_ub,
            });
        if let Some((sheets, placements)) = rounded {
            self.global_ub = sheets;
            self.best = Solution { placements, leftovers: Vec::new() };
        }
        assert(rounded_as(*problem, st, gs, gp) && (if gs < old(self).global_ub {
            &&& self.global_ub == gs
            &&& self.best.placements@ == gp
            &&& self.best.leftovers@.len() == 0
        } else {
            &&& self.global_ub == old(self).global_ub
            &&& self.best == old(self).best
        }));
        if node_lb >= self.global_ub {
            return;
        }
        match pick_fractional_type_pair(pr, &node.patterns, basic) {
            Some((t, u)) => {
                let ghost open0 = self.open@;
                let both = BpcNode {
                    constraints: node.constraints.with_forced_together(t, u),
                    patterns: child_patterns(problem, pr, &node.patterns, t, u, true),
                    pending_lb: node_lb,
                };
                let apart = BpcNode {
                    constraints: node.constraints.with_forbidden(t, u),
                    patterns: child_patterns(problem, pr, &node.patterns, t, u, false),
                    pending_lb: node_lb,
                };
                proof {
                    lemma_about_more(node.constraints, both.constraints, pr.ptypes@.len(), t, u);
                    lemma_about_more(node.constraints, apart.constraints, pr.ptypes@.len(), t, u);
                }
                self.open.push(both);
                self.open.push(apart);
                if pr.ptypes[t].copies.len() > 1 || pr.ptypes[u].copies.len() > 1 {
                    self.incomplete = true;
                }
                proof {
                    assert forall|i: int| 0 <= i < self.open@.len() implies node_ok(
                        *problem,
                        *pr,
                        #[trigger] self.open@[i],
                    ) by {
                        if i < open0.len() {
                            assert(self.open@[i] == open0[i]);
                        }
                    }
                    assert(self.open@ =~= open0.push(both).push(apart));
                    assert(splits_into(
                        *problem,
                        *pr,
                        node,
                        node_lb,
                        (t, u),
                        both,
                        apart,
                    ));
                    assert(is_branch_pair(*pr, node.patterns@, basic@, (t, u)));
                    let v = pair_weight(
                        *pr,
                        node.patterns@,
                        basic@,
                        t as int,
                        u as int,
                        basic@.len(),
                    );
                    assert(fractional(v));
                    assert(self.open@ == old(self).open@.push(both).push(apart));
                    let lb = node_lb as int;
                    assert(splits_into(
                        *problem,
                        *pr,
                        node,
                        lb as usize,
                        (t, u),
                        both,
                        apart,
                    ));
                    assert(branched(
                        *problem,
                        *pr,
                        *old(self),
                        *self,
                        node,
                        node_lb as int,
                        basic@,
                    ));
                }
            },
            None => {
                self.incomplete = true;
            },
        }
    }
}

/// The lower bound of a node.
pub open spec fn node_bound(lb0: usize, z: u64) -> int {
    if lb0 >= rounded_bound(z) {
        lb0 as int
    } else {
        rounded_bound(z)
    }
}

/// A pair of types to branch on: of fractional weight, as near to one half as any.
pub open spec fn is_branch_pair(
    pr: Pricer,
    patterns: Seq<Pattern>,
    basic: Seq<(usize, u64)>,
    pair: (usize, usize),
) -> bool {
    let v = pair_weight(pr, patterns, basic, pair.0 as int, pair.1 as int, basic.len());
    &&& pair.0 < pair.1 < pr.ptypes@.len()
    &&& fractional(v)
    &&& forall|a: int, b: int|
        0 <= a < b < pr.ptypes@.len() && fractional(
            #[trigger] pair_weight(pr, patterns, basic, a, b, basic.len()),
        ) ==> off_half(v) <= off_half(pair_weight(pr, patterns, basic, a, b, basic.len()))
}

/// The two children of a node that branches on a pair of types.
pub open spec fn splits_into(
    problem: Problem,
    pr: Pricer,
    node: BpcNode,
    lb: usize,
    pair: (usize, usize),
    both: BpcNode,
    apart: BpcNode,
) -> bool {
    &&& both.constraints.forbidden@ == node.constraints.forbidden@
    &&& both.constraints.forced_together@ == node.constraints.forced_together@.push(pair)
    &&& apart.constraints.forbidden@ == node.constraints.forbidden@.push(pair)
    &&& apart.constraints.forced_together@ == node.constraints.forced_together@
    &&& both.pending_lb == lb
    &&& apart.pending_lb == lb
    &&& pool_view(both.patterns@) == child_pool(
        problem,
        pr,
        node.patterns@,
        pair.0 as int,
        pair.1 as int,
        true,
        node.patterns@.len(),
    )
    &&& pool_view(apart.patterns@) == child_pool(
        problem,
        pr,
        node.patterns@,
        pair.0 as int,
        pair.1 as int,
        false,
        node.patterns@.len(),
    )
}

/// Both types of a pair have one copy only.
pub open spec fn single_pair(pr: Pricer, pair: (usize, usize)) -> bool {
    pr.ptypes@[pair.0 as int].copies@.len() <= 1 && pr.ptypes@[pair.1 as int].copies@.len() <= 1
}

/// What comes of a node whose linear program has the value `z` and the basic patterns `basic`.
pub open spec fn converges(
    problem: Problem,
    pr: Pricer,
    before: Tree,
    after: Tree,
    node: BpcNode,
    z: u64,
    basic: Seq<(usize, u64)>,
) -> bool {
    let lb = node_bound(before.lb0, z);
    let st = rounding_of(problem, node.patterns@, basic);
    &&& after.lb0 == before.lb0
    &&& after.processed == before.processed
    &&& after.global_ub <= before.global_ub
    &&& lb >= before.global_ub ==> after == before
    &&& lb < before.global_ub ==> exists|sheets: int, placements: Seq<Placement>|
        #![trigger rounded_as(problem, st, sheets, placements)]
        rounded_as(problem, st, sheets, placements) && (if sheets < before.global_ub {
            &&& after.global_ub == sheets
            &&& after.best.placements@ == placements
            &&& after.best.leftovers@.len() == 0
        } else {
            &&& after.global_ub == before.global_ub
            &&& after.best == before.best
        })
    &&& lb < before.global_ub && lb >= after.global_ub ==> {
        &&& after.open@ == before.open@
        &&& after.incomplete == before.incomplete
    }
    &&& lb < after.global_ub ==> branched(problem, pr, before, after, node, lb, basic)
}

/// What comes of a node that has room below the best solution: two children where a pair of
/// types has a fractional weight, else none. Part of the tree is left out where the two children
/// are not sure to cover all of it.
pub open spec fn branched(
    problem: Problem,
    pr: Pricer,
    before: Tree,
    after: Tree,
    node: BpcNode,
    lb: int,
    basic: Seq<(usize, u64)>,
) -> bool {
    if exists|a: int, b: int|
        0 <= a < b < pr.ptypes@.len() && fractional(
            #[trigger] pair_weight(pr, node.patterns@, basic, a, b, basic.len()),
        ) {
        exists|pair: (usize, usize), both: BpcNode, apart: BpcNode|
            {
                &&& is_branch_pair(pr, node.patterns@, basic, pair)
                &&& #[trigger] splits_into(problem, pr, node, lb as usize, pair, both, apart)
                &&& after.open@ == before.open@.push(both).push(apart)
                &&& after.incomplete == (before.incomplete || !single_pair(pr, pair))
            }
    } else {
        &&& after.open@ == before.open@
        &&& after.incomplete
    }
}

pub(crate) proof fn lemma_about_more(
    a: BranchConstraints,
    b: BranchConstraints,
    n: nat,
    t: usize,
    u: usize,
)
    requires
        a.about(n),
        t < u < n,
        b.forbidden@ == a.forbidden@ || b.forbidden@ == a.forbidden@.push((t, u)),
        b.forced_together@ == a.forced_together@ || b.forced_together@
            == a.forced_together@.push((t, u)),
    ensures
        b.about(n),
{
    assert forall|k: int| 0 <= k < b.forbidden@.len() implies (#[trigger] b.forbidden@[k]).0
        < b.forbidden@[k].1 < n by {
        if k < a.forbidden@.len() {
            assert(a.forbidden@[k].0 < a.forbidden@[k].1 < n);
        }
    }
    assert forall|k: int| 0 <= k < b.forced_together@.len() implies (
    #[trigger] b.forced_together@[k]).0 < b.forced_together@[k].1 < n by {
        if k < a.forced_together@.len() {
            assert(a.forced_together@[k].0 < a.forced_together@[k].1 < n);
        }
    }
}

/// A sliced solution lies on the sheets that it uses.
proof fn lemma_best_packed(problem: Problem, sol: Solution)
    requires
        sliced(problem, sol.placements@, sol.leftovers@),
        sheet_count(sol.placements@) <= usize::MAX,
    ensures
        packed(
            problem.sheet,
            sheet_count(sol.placements@) as nat,
            cells(problem.pieces@, sol.placements@).to_multiset(),
        ),
{
    let n = choose|n: nat| #[trigger]
        sliced_sheets(problem, sol.placements@, sol.leftovers@, n);
    let list = cells(problem.pieces@, sol.placements@);
    lemma_sheet_count(sol.placements@);
    crate::layout::lemma_packed_fewer(
        problem.sheet,
        n,
        all_cells(problem.pieces@, sol.placements@, sol.leftovers@),
        list.to_multiset(),
    );
    assert forall|i: int| 0 <= i < list.len() implies (#[trigger] list[i]).sheet_idx
        < sheet_count(sol.placements@) by {
        assert(sol.placements@[i].sheet_idx < sheet_count(sol.placements@));
    }
    crate::sheets::lemma_packed_resize(
        problem.sheet,
        n,
        list,
        sheet_count(sol.placements@) as nat,
    );
}

} // verus!
