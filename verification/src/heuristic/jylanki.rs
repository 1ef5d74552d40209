use vstd::prelude::*;

use super::common::{
    place_into, score_of, selection_score, PieceOrder, PieceRanking, SelectionRule, SortDir,
    SortKey, SplitRule,
};
use super::gbaf::{all_fit, lemma_order_complete, place_of, waste_of};
use crate::model::{sheet_cell, FreeRect, Piece, Placement, Problem, Solution};
use crate::offcuts::{gradable, objective_of, scorable};
use crate::packing::{
    coherent, complete, few_sheets, fresh, lemma_coherent_gradable, lemma_coherent_sliced,
    lemma_free_within, lemma_fresh, lemma_opened, lemma_placed, opened, pack_of, placed,
    placed_indices, sliced, Pack,
};
use crate::score::{best_index, law_best_index, Objective};
use crate::slas::decoder::{fits_sheet, sheet_rect, spot_of};
use crate::sorting::{order_of, ranked, Order, Ranking};

verus! {

/// A scored place: score, index of the free rectangle, width, height, whether rotated.
pub type Scored = Option<(int, int, u32, u32, bool)>;

/// The better of the best place so far and free rectangle `i` in one orientation; the former
/// where they are equal.
pub open spec fn better_place(
    best: Scored,
    fr: FreeRect,
    i: int,
    piece: Piece,
    rotated: bool,
    sel: SelectionRule,
) -> Scored {
    let pw = piece.placed_w(rotated);
    let ph = piece.placed_h(rotated);
    if pw <= fr.w && ph <= fr.h && (best is None || score_of(sel, fr, pw, ph) < waste_of(best)) {
        Some((score_of(sel, fr, pw, ph), i, pw, ph, rotated))
    } else {
        best
    }
}

/// The orientation matters.
pub open spec fn turns(piece: Piece) -> bool {
    piece.can_rotate && piece.width != piece.height
}

/// The best place among the free rectangles from `skip` up to `n`: least score, then earlier
/// rectangle, then not rotated.
pub open spec fn best_scored(
    free: Seq<FreeRect>,
    piece: Piece,
    sel: SelectionRule,
    skip: int,
    n: int,
) -> Scored
    decreases n - skip,
{
    if n <= skip {
        None
    } else {
        let best = best_scored(free, piece, sel, skip, n - 1);
        let fr = free[n - 1];
        let upright = better_place(best, fr, n - 1, piece, false, sel);
        if turns(piece) {
            better_place(upright, fr, n - 1, piece, true, sel)
        } else {
            upright
        }
    }
}

/// The chosen place has room, and no other place has a smaller score.
pub proof fn lemma_best_scored(
    free: Seq<FreeRect>,
    piece: Piece,
    sel: SelectionRule,
    skip: int,
    n: int,
)
    requires
        0 <= skip <= n <= free.len(),
    ensures
        best_scored(free, piece, sel, skip, n) matches Some(b) ==> {
            &&& skip <= b.1 < n
            &&& b.2 == piece.placed_w(b.4)
            &&& b.3 == piece.placed_h(b.4)
            &&& b.4 ==> turns(piece)
            &&& b.2 <= free[b.1].w
            &&& b.3 <= free[b.1].h
            &&& b.0 == score_of(sel, free[b.1], b.2, b.3)
        },
        forall|i: int, rotated: bool|
            #![trigger free[i], piece.placed_w(rotated)]
            skip <= i < n && (rotated ==> turns(piece)) && piece.placed_w(rotated) <= free[i].w
                && piece.placed_h(rotated) <= free[i].h ==> {
                &&& best_scored(free, piece, sel, skip, n) is Some
                &&& waste_of(best_scored(free, piece, sel, skip, n)) <= score_of(
                    sel,
                    free[i],
                    piece.placed_w(rotated),
                    piece.placed_h(rotated),
                )
            },
    decreases n - skip,
{
    if skip < n {
        lemma_best_scored(free, piece, sel, skip, n - 1);
    }
}

fn try_place(
    best: Option<(usize, u32, u32, bool)>,
    best_score: u64,
    fr: &FreeRect,
    i: usize,
    piece: &Piece,
    rotated: bool,
    sel: SelectionRule,
    Ghost(so_far): Ghost<Scored>,
) -> (r: (Option<(usize, u32, u32, bool)>, u64))
    requires
        spot_of(best) == place_of(so_far),
        best is Some ==> best_score == waste_of(so_far),
    ensures
        spot_of(r.0) == place_of(better_place(so_far, *fr, i as int, *piece, rotated, sel)),
        r.0 is Some ==> r.1 == waste_of(
            better_place(so_far, *fr, i as int, *piece, rotated, sel),
        ),
{
    let (pw, ph) = if rotated {
        (piece.height, piece.width)
    } else {
        (piece.width, piece.height)
    };
    if pw <= fr.w && ph <= fr.h {
        let score: u64 = selection_score(sel, fr, pw, ph);
        if best.is_none() || score < best_score {
            return (Some((i, pw, ph, rotated)), score);
        }
    }
    (best, best_score)
}

/// Finds the best place among the free rectangles from `skip` on.
fn find_best(free: &Vec<FreeRect>, piece: &Piece, sel: SelectionRule, skip: usize) -> (r: Option<
    (usize, u32, u32, bool),
>)
    requires
        skip <= free@.len(),
    ensures
        spot_of(r) == place_of(
            best_scored(free@, *piece, sel, skip as int, free@.len() as int),
        ),
{
    let mut best: Option<(usize, u32, u32, bool)> = None;
    let mut best_score: u64 = 0;
    let mut k: usize = skip;
    while k < free.len()
        invariant
            skip <= k <= free.len(),
            spot_of(best) == place_of(
                best_scored(free@, *piece, sel, skip as int, k as int),
            ),
            best is Some ==> best_score == waste_of(
                best_scored(free@, *piece, sel, skip as int, k as int),
            ),
        decreases free.len() - k,
    {
        let fr = free[k];
        let ghost so_far = best_scored(free@, *piece, sel, skip as int, k as int);
        let (b1, s1) = try_place(best, best_score, &fr, k, piece, false, sel, Ghost(so_far));
        best = b1;
        best_score = s1;
        if piece.can_rotate && piece.width != piece.height {
            let ghost upright = better_place(so_far, fr, k as int, *piece, false, sel);
            let (b2, s2) = try_place(best, best_score, &fr, k, piece, true, sel, Ghost(upright));
            best = b2;
            best_score = s2;
        }
        k += 1;
    }
    best
}

/// Direction of the full cut.
pub open spec fn rule_direction(rule: SplitRule, fr: FreeRect, pw: u32, ph: u32) -> bool {
    match rule {
        SplitRule::ShorterLeftover => fr.w - pw <= fr.h - ph,
        SplitRule::LongerLeftover => fr.w - pw > fr.h - ph,
        SplitRule::ShortAxis => fr.w < fr.h,
        SplitRule::LongAxis => fr.w > fr.h,
    }
}

/// A combination of rules.
#[derive(Debug, Clone, Copy)]
pub struct Strategy {
    pub key: SortKey,
    pub dir: SortDir,
    pub sel: SelectionRule,
    pub rule: SplitRule,
}

/// The place of piece `i`: the best one among the free rectangles, else a new sheet.
pub open spec fn scored_place(problem: Problem, st: Pack, i: int, sel: SelectionRule) -> (
    Pack,
    (int, u32, u32, bool),
) {
    let piece = problem.pieces[i];
    match place_of(best_scored(st.free, piece, sel, 0, st.free.len() as int)) {
        Some(b) => (st, b),
        None => {
            let st2 = opened(problem.sheet, st);
            let n = st2.free.len() as int;
            (st2, place_of(best_scored(st2.free, piece, sel, n - 1, n))->0)
        },
    }
}

pub open spec fn jylanki_step(problem: Problem, st: Pack, i: usize, how: Strategy) -> Pack {
    let (st2, spot) = scored_place(problem, st, i as int, how.sel);
    placed(
        st2,
        spot.0,
        i,
        spot.1,
        spot.2,
        spot.3,
        rule_direction(how.rule, st2.free[spot.0], spot.1, spot.2),
    )
}

/// The first `k` pieces of the order are placed.
pub open spec fn jylanki_state(problem: Problem, order: Seq<usize>, how: Strategy, k: nat) -> Pack
    decreases k,
{
    if k == 0 {
        fresh(problem.sheet)
    } else {
        jylanki_step(
            problem,
            jylanki_state(problem, order, how, (k - 1) as nat),
            order[k - 1],
            how,
        )
    }
}

/// The pieces in the order of a key.
pub open spec fn keyed_order(problem: Problem, key: SortKey, dir: SortDir) -> Seq<usize> {
    order_of(PieceOrder { pieces: problem.pieces@, key, dir }, problem.pieces@.len())
}

/// The result of one pass.
#[verifier::opaque]
pub open spec fn jylanki_result(problem: Problem, how: Strategy) -> Pack {
    jylanki_state(
        problem,
        keyed_order(problem, how.key, how.dir),
        how,
        problem.pieces@.len(),
    )
}

/// No piece is without any extent.
pub open spec fn extended(problem: Problem) -> bool {
    forall|i: int|
        0 <= i < problem.pieces.len() ==> (#[trigger] problem.pieces[i]).width > 0
            || problem.pieces[i].height > 0
}

proof fn lemma_scored_place(problem: Problem, st: Pack, i: int, sel: SelectionRule)
    requires
        coherent(problem, st),
        0 <= i < problem.pieces.len(),
        fits_sheet(problem, i),
        st.sheets <= usize::MAX,
    ensures
        ({
            let (st2, spot) = scored_place(problem, st, i, sel);
            &&& coherent(problem, st2)
            &&& st2.placements == st.placements
            &&& st.sheets <= st2.sheets <= st.sheets + 1
            &&& 0 <= spot.0 < st2.free.len()
            &&& spot.1 == problem.pieces[i].placed_w(spot.3)
            &&& spot.2 == problem.pieces[i].placed_h(spot.3)
            &&& spot.1 <= st2.free[spot.0].w
            &&& spot.2 <= st2.free[spot.0].h
            &&& st == fresh(problem.sheet) ==> st2.sheets == 1
            &&& st2 != st ==> {
                &&& st2 == opened(problem.sheet, st)
                &&& best_scored(
                    st2.free,
                    problem.pieces[i],
                    sel,
                    st2.free.len() - 1,
                    st2.free.len() as int,
                ) is Some
            }
        }),
{
    let piece = problem.pieces[i];
    let whole = sheet_cell(problem.sheet, 0);
    let turned = !(piece.width <= whole.w && piece.height <= whole.h);
    lemma_best_scored(st.free, piece, sel, 0, st.free.len() as int);
    if best_scored(st.free, piece, sel, 0, st.free.len() as int) is None {
        lemma_opened(problem, st);
        let st2 = opened(problem.sheet, st);
        let n = st2.free.len() as int;
        lemma_best_scored(st2.free, piece, sel, n - 1, n);
        assert(piece.placed_w(turned) <= st2.free[n - 1].w);
        if st == fresh(problem.sheet) {
            assert(piece.placed_w(turned) <= st.free[0].w);
        }
    }
}

pub proof fn lemma_jylanki_state(problem: Problem, order: Seq<usize>, how: Strategy, k: nat)
    requires
        all_fit(problem),
        k <= order.len() <= usize::MAX,
        forall|i: int| 0 <= i < order.len() ==> #[trigger] order[i] < problem.pieces.len(),
    ensures
        coherent(problem, jylanki_state(problem, order, how, k)),
        jylanki_state(problem, order, how, k).sheets <= (if k == 0 {
            1int
        } else {
            k as int
        }),
        placed_indices(jylanki_state(problem, order, how, k).placements) =~= order.take(k as int),
    decreases k,
{
    if k == 0 {
        lemma_fresh(problem);
    } else {
        lemma_jylanki_state(problem, order, how, (k - 1) as nat);
        let st = jylanki_state(problem, order, how, (k - 1) as nat);
        let i = order[k - 1];
        assert(fits_sheet(problem, i as int));
        lemma_scored_place(problem, st, i as int, how.sel);
        let (st2, spot) = scored_place(problem, st, i as int, how.sel);
        let dir = rule_direction(how.rule, st2.free[spot.0], spot.1, spot.2);
        lemma_placed(problem, st2, spot.0, i, spot.1, spot.2, spot.3, dir);
        let now = jylanki_state(problem, order, how, k);
        let p0 = placed_indices(st.placements);
        let p1 = placed_indices(now.placements);
        assert forall|j: int| 0 <= j < k implies p1[j] == order[j] by {
            if j < k - 1 {
                assert(now.placements[j] == st.placements[j]);
                assert(p0[j] == order.take(k - 1)[j]);
            }
        }
    }
}

/// Places one piece.
fn place_next(
    problem: &Problem,
    free: &mut Vec<FreeRect>,
    placements: &mut Vec<Placement>,
    sheets_open: usize,
    i: usize,
    how: Strategy,
) -> (sheets: usize)
    requires
        i < problem.pieces.len(),
        fits_sheet(*problem, i as int),
        sheets_open < usize::MAX,
        coherent(*problem, pack_of(old(free)@, old(placements)@, sheets_open as int)),
    ensures
        pack_of(final(free)@, final(placements)@, sheets as int) == jylanki_step(
            *problem,
            pack_of(old(free)@, old(placements)@, sheets_open as int),
            i,
            how,
        ),
{
    let piece = &problem.pieces[i];
    let ghost st = pack_of(free@, placements@, sheets_open as int);
    proof {
        lemma_scored_place(*problem, st, i as int, how.sel);
    }
    let mut sheets: usize = sheets_open;
    let mut found = find_best(free, piece, how.sel, 0);
    if found.is_none() {
        free.push(sheet_rect(problem, sheets_open));
        sheets = sheets_open + 1;
        found = find_best(free, piece, how.sel, free.len() - 1);
    }
    let ghost st2 = pack_of(free@, placements@, sheets as int);
    assert(st2 == scored_place(*problem, st, i as int, how.sel).0);
    if let Some(spot) = found {
        proof {
            lemma_free_within(*problem, st2, spot.0 as int);
        }
        let fr = free[spot.0];
        let lw: u32 = fr.w - spot.1;
        let lh: u32 = fr.h - spot.2;
        let horizontal = match how.rule {
            SplitRule::ShorterLeftover => lw <= lh,
            SplitRule::LongerLeftover => lw > lh,
            SplitRule::ShortAxis => fr.w < fr.h,
            SplitRule::LongAxis => fr.w > fr.h,
        };
        place_into(free, placements, spot, i, horizontal);
        assert(pack_of(free@, placements@, sheets as int) == jylanki_step(
            *problem,
            st,
            i,
            how,
        ));
    }
    sheets
}

/// One deterministic greedy pass with a fixed combination of rules.
pub fn jylanki_pass(
    problem: &Problem,
    key: SortKey,
    dir: SortDir,
    sel: SelectionRule,
    rule: SplitRule,
) -> (r: Solution)
    requires
        all_fit(*problem),
        extended(*problem),
        problem.pieces@.len() < usize::MAX,
    ensures
        r.placements@ == jylanki_result(*problem, (Strategy { key, dir, sel, rule })).placements,
        r.leftovers@ == jylanki_result(*problem, (Strategy { key, dir, sel, rule })).free,
        complete(*problem, r.placements@),
        few_sheets(r.placements@, problem.pieces@.len()),
        sliced(*problem, r.placements@, r.leftovers@),
{
    let how = Strategy { key, dir, sel, rule };
    let n: usize = problem.pieces.len();
    let rank = PieceRanking { problem, key, dir };
    let order = ranked(&rank, n);
    let mut placements: Vec<Placement> = Vec::new();
    let mut free: Vec<FreeRect> = vec![sheet_rect(problem, 0)];
    let mut sheets_open: usize = 1;
    let mut k: usize = 0;
    assert(free@ =~= fresh(problem.sheet).free);
    while k < n
        invariant
            k <= n,
            n == problem.pieces@.len(),
            n < usize::MAX,
            order@.len() == n,
            forall|i: int| 0 <= i < order.len() ==> #[trigger] order@[i] < n,
            all_fit(*problem),
            pack_of(free@, placements@, sheets_open as int) == jylanki_state(
                *problem,
                order@,
                how,
                k as nat,
            ),
        decreases n - k,
    {
        let i: usize = order[k];
        proof {
            lemma_jylanki_state(*problem, order@, how, k as nat);
            assert(fits_sheet(*problem, i as int));
        }
        sheets_open = place_next(problem, &mut free, &mut placements, sheets_open, i, how);
        k += 1;
    }
    proof {
        reveal(jylanki_result);
        lemma_jylanki_state(*problem, order@, how, n as nat);
        lemma_coherent_sliced(*problem, jylanki_state(*problem, order@, how, n as nat));
        assert(order@.take(n as int) =~= order@);
        lemma_order_complete(rank.order(), *problem, order@, placements@);
    }
    Solution { placements, leftovers: free }
}

/// Sort key number `i`.
pub open spec fn sort_key(i: int) -> SortKey {
    if i == 0 {
        SortKey::Area
    } else if i == 1 {
        SortKey::ShortSide
    } else if i == 2 {
        SortKey::LongSide
    } else if i == 3 {
        SortKey::Perimeter
    } else if i == 4 {
        SortKey::Diff
    } else {
        SortKey::Ratio
    }
}

/// Number of combinations of rules.
pub const STRATEGIES: usize = 144;

/// Combination number `c`: the sort keys vary slowest, then directions, selection rules and
/// split rules.
pub open spec fn strategy(c: int) -> Strategy {
    Strategy {
        key: sort_key(c / 24),
        dir: if (c / 12) % 2 == 0 {
            SortDir::Asc
        } else {
            SortDir::Desc
        },
        sel: if (c / 4) % 3 == 0 {
            SelectionRule::Area
        } else if (c / 4) % 3 == 1 {
            SelectionRule::ShortSide
        } else {
            SelectionRule::LongSide
        },
        rule: if c % 4 == 0 {
            SplitRule::ShorterLeftover
        } else if c % 4 == 1 {
            SplitRule::LongerLeftover
        } else if c % 4 == 2 {
            SplitRule::ShortAxis
        } else {
            SplitRule::LongAxis
        },
    }
}

pub fn nth_sort_key(i: usize) -> (r: SortKey)
    ensures
        r == sort_key(i as int),
{
    match i {
        0 => SortKey::Area,
        1 => SortKey::ShortSide,
        2 => SortKey::LongSide,
        3 => SortKey::Perimeter,
        4 => SortKey::Diff,
        _ => SortKey::Ratio,
    }
}

fn nth_strategy(c: usize) -> (r: Strategy)
    ensures
        r == strategy(c as int),
{
    let key = nth_sort_key(c / 24);
    let dir = if (c / 12) % 2 == 0 {
        SortDir::Asc
    } else {
        SortDir::Desc
    };
    let sel = match (c / 4) % 3 {
        0 => SelectionRule::Area,
        1 => SelectionRule::ShortSide,
        _ => SelectionRule::LongSide,
    };
    let rule = match c % 4 {
        0 => SplitRule::ShorterLeftover,
        1 => SplitRule::LongerLeftover,
        2 => SplitRule::ShortAxis,
        _ => SplitRule::LongAxis,
    };
    Strategy { key, dir, sel, rule }
}

/// The objectives of all passes.
pub open spec fn pass_objectives(problem: Problem) -> Seq<Objective> {
    Seq::new(
        STRATEGIES as nat,
        |c: int| objective_of(problem, jylanki_result(problem, strategy(c)).placements),
    )
}

/// The best of the first `n` passes; the earliest where several are best.
pub open spec fn best_pass(problem: Problem, n: nat) -> int {
    best_index(pass_objectives(problem), n)
}

/// No pass of the portfolio beats the one that is returned.
pub proof fn law_portfolio_is_best(problem: Problem, c: int)
    requires
        0 <= c < STRATEGIES,
    ensures
        0 <= best_pass(problem, STRATEGIES as nat) < STRATEGIES,
        !objective_of(problem, jylanki_result(problem, strategy(c)).placements).beats(
            objective_of(
                problem,
                jylanki_result(
                    problem,
                    strategy(best_pass(problem, STRATEGIES as nat)),
                ).placements,
            ),
        ),
{
    law_best_index(pass_objectives(problem), STRATEGIES as nat, c);
}

proof fn lemma_pass_gradable(problem: Problem, how: Strategy)
    requires
        all_fit(problem),
        extended(problem),
        problem.pieces@.len() < usize::MAX,
        scorable(problem.sheet, problem.pieces@.len()),
    ensures
        gradable(problem, jylanki_result(problem, how).placements),
{
    reveal(jylanki_result);
    let o = PieceOrder { pieces: problem.pieces@, key: how.key, dir: how.dir };
    let n = problem.pieces@.len();
    assert forall|i: int| 0 <= i < n implies #[trigger] o.ranks(i) by {
        assert(problem.pieces[i].width > 0 || problem.pieces[i].height > 0);
    }
    crate::sorting::lemma_order_exists(o, n);
    let order = order_of(o, n);
    lemma_jylanki_state(problem, order, how, n);
    let st = jylanki_state(problem, order, how, n);
    assert(placed_indices(st.placements).len() == n);
    lemma_coherent_gradable(problem, st);
}

/// The results of all passes can be scored.
pub open spec fn passes_gradable(problem: Problem) -> bool {
    forall|c: int|
        0 <= c < STRATEGIES ==> gradable(
            problem,
            (#[trigger] jylanki_result(problem, strategy(c))).placements,
        )
}

/// Portfolio guillotine packer: runs a greedy pass for every combination of rules and returns
/// the result with the best objective, the earliest one where several are best.
pub fn jylanki_solve(problem: &Problem) -> (r: Solution)
    requires
        all_fit(*problem),
        extended(*problem),
        problem.pieces@.len() < usize::MAX,
        scorable(problem.sheet, problem.pieces@.len()) || passes_gradable(*problem),
    ensures
        r.placements@ == jylanki_result(
            *problem,
            strategy(best_pass(*problem, STRATEGIES as nat)),
        ).placements,
        r.leftovers@ == jylanki_result(
            *problem,
            strategy(best_pass(*problem, STRATEGIES as nat)),
        ).free,
        complete(*problem, r.placements@),
        few_sheets(r.placements@, problem.pieces@.len()),
        sliced(*problem, r.placements@, r.leftovers@),
        gradable(*problem, r.placements@),
{
    let first = nth_strategy(0);
    let mut best = jylanki_pass(problem, first.key, first.dir, first.sel, first.rule);
    proof {
        if scorable(problem.sheet, problem.pieces@.len()) {
            assert forall|c: int| 0 <= c < STRATEGIES implies gradable(
                *problem,
                (#[trigger] jylanki_result(*problem, strategy(c))).placements,
            ) by {
                lemma_pass_gradable(*problem, strategy(c));
            }
        }
        assert(first == strategy(0));
    }
    let mut best_obj: Objective = best.eval(problem);
    let mut c: usize = 1;
    while c < STRATEGIES
        invariant
            1 <= c <= STRATEGIES,
            all_fit(*problem),
            extended(*problem),
            problem.pieces@.len() < usize::MAX,
            passes_gradable(*problem),
            best.placements@ == jylanki_result(
                *problem,
                strategy(best_pass(*problem, c as nat)),
            ).placements,
            best.leftovers@ == jylanki_result(
                *problem,
                strategy(best_pass(*problem, c as nat)),
            ).free,
            best_obj == pass_objectives(*problem)[best_pass(*problem, c as nat)],
            0 <= best_pass(*problem, c as nat) < c,
            complete(*problem, best.placements@),
            few_sheets(best.placements@, problem.pieces@.len()),
            sliced(*problem, best.placements@, best.leftovers@),
        decreases STRATEGIES - c,
    {
        let how = nth_strategy(c);
        let sol = jylanki_pass(problem, how.key, how.dir, how.sel, how.rule);
        assert(how == strategy(c as int));
        let obj = sol.eval(problem);
        assert(obj == pass_objectives(*problem)[c as int]);
        if obj.is_better(&best_obj) {
            best = sol;
            best_obj = obj;
        }
        c += 1;
    }
    best
}

/// The portfolio tries every combination of a sort key, a direction, a selection rule and a split
/// rule.
pub proof fn law_every_combination_is_tried(how: Strategy)
    ensures
        exists|c: int|
            {
                &&& 0 <= c < STRATEGIES
                &&& (#[trigger] strategy(c)).key == how.key
                &&& strategy(c).dir == how.dir
                &&& strategy(c).sel == how.sel
                &&& strategy(c).rule == how.rule
            },
{
    let k: int = match how.key {
        SortKey::Area => 0,
        SortKey::ShortSide => 1,
        SortKey::LongSide => 2,
        SortKey::Perimeter => 3,
        SortKey::Diff => 4,
        SortKey::Ratio => 5,
    };
    let d: int = match how.dir {
        SortDir::Asc => 0,
        SortDir::Desc => 1,
    };
    let s: int = match how.sel {
        SelectionRule::Area => 0,
        SelectionRule::ShortSide => 1,
        SelectionRule::LongSide => 2,
    };
    let r: int = match how.rule {
        SplitRule::ShorterLeftover => 0,
        SplitRule::LongerLeftover => 1,
        SplitRule::ShortAxis => 2,
        SplitRule::LongAxis => 3,
    };
    let c = 24 * k + 12 * d + 4 * s + r;
    assert(strategy(c).key == how.key);
}

} // verus!
