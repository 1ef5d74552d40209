use vstd::prelude::*;

use super::common::{place_into, product, PieceOrder, PieceRanking, SortDir, SortKey};
use crate::model::{sheet_cell, FreeRect, Piece, Placement, Problem, Solution};
use crate::packing::{
    coherent, complete, few_sheets, fresh, lemma_coherent_sliced, lemma_free_within, lemma_fresh,
    lemma_opened, lemma_placed, opened, pack_of, placed, placed_indices, sliced, split_parts, Pack,
};
use crate::slas::decoder::{
    fit, fits_in, fits_sheet, guillotine_split, sheet_rect, slas_direction, spot_of,
};
use crate::small::FreePair;
use crate::sorting::{in_order, lemma_in_order_all, order_of, ranked, Ranking};
use crate::tiling::{
    lemma_tiles_fresh, lemma_tiles_opened, lemma_tiles_placed, tiled, tiles,
};

verus! {

/// The score of a scored place.
pub open spec fn waste_of(b: Option<(int, int, u32, u32, bool)>) -> int {
    match b {
        Some(v) => v.0,
        None => 0,
    }
}

/// The place of a scored place.
pub open spec fn place_of(b: Option<(int, int, u32, u32, bool)>) -> Option<
    (int, u32, u32, bool),
> {
    match b {
        Some(v) => Some((v.1, v.2, v.3, v.4)),
        None => None,
    }
}

/// Area that is left of `fr` when the piece is in it.
pub open spec fn wasted(fr: FreeRect, piece: Piece) -> int {
    match fit(fr, piece, false) {
        Some(f) => fr.area() - f.0 * f.1,
        None => 0,
    }
}

/// The rectangle among the first `n` that the piece wastes least of, with the waste: the first
/// one where several are equal.
pub open spec fn least_waste(free: Seq<FreeRect>, piece: Piece, n: nat) -> Option<
    (int, int, u32, u32, bool),
>
    decreases n,
{
    if n == 0 {
        None
    } else {
        let best = least_waste(free, piece, (n - 1) as nat);
        let fr = free[n - 1];
        match fit(fr, piece, false) {
            None => best,
            Some(f) => {
                let waste = fr.area() - f.0 * f.1;
                if best is None || waste < waste_of(best) {
                    Some((waste, n - 1, f.0, f.1, f.2))
                } else {
                    best
                }
            },
        }
    }
}

/// The best-area-fit choice fits, and no rectangle that fits wastes less.
pub proof fn lemma_least_waste(free: Seq<FreeRect>, piece: Piece, n: nat)
    requires
        n <= free.len(),
    ensures
        least_waste(free, piece, n) matches Some(b) ==> {
            &&& 0 <= b.1 < n
            &&& fit(free[b.1], piece, false) == Some((b.2, b.3, b.4))
            &&& b.0 == free[b.1].area() - b.2 * b.3
        },
        forall|i: int|
            0 <= i < n && fit(#[trigger] free[i], piece, false) is Some ==> {
                &&& least_waste(free, piece, n) is Some
                &&& waste_of(least_waste(free, piece, n)) <= wasted(free[i], piece)
            },
    decreases n,
{
    if n > 0 {
        lemma_least_waste(free, piece, (n - 1) as nat);
    }
}

pub fn find_least_waste(free: &Vec<FreeRect>, piece: &Piece) -> (r: Option<
    (usize, u32, u32, bool),
>)
    ensures
        spot_of(r) == place_of(least_waste(free@, *piece, free@.len())),
{
    let mut best: Option<(usize, u32, u32, bool)> = None;
    let mut best_waste: u64 = 0;
    let mut k: usize = 0;
    while k < free.len()
        invariant
            k <= free.len(),
            spot_of(best) == place_of(least_waste(free@, *piece, k as nat)),
            best is Some ==> best_waste == waste_of(least_waste(free@, *piece, k as nat)),
        decreases free.len() - k,
    {
        let fr = free[k];
        if let Some((pw, ph, rotated)) = fits_in(&fr, piece, false) {
            assert(pw * ph <= fr.w * fr.h) by (nonlinear_arith)
                requires
                    0 <= pw <= fr.w,
                    0 <= ph <= fr.h,
            ;
            let waste: u64 = product(fr.w, fr.h) - product(pw, ph);
            if best.is_none() || waste < best_waste {
                best = Some((k, pw, ph, rotated));
                best_waste = waste;
            }
        }
        k += 1;
    }
    best
}

/// Greatest area among at most two leftovers, 0 without any.
pub open spec fn largest(parts: Seq<FreeRect>) -> int {
    if parts.len() == 0 {
        0
    } else if parts.len() == 1 || parts[0].area() >= parts[1].area() {
        parts[0].area()
    } else {
        parts[1].area()
    }
}

fn largest_area(parts: &FreePair) -> (r: u64)
    requires
        parts@.len() <= 2,
    ensures
        r == largest(parts@),
{
    if parts.len() == 0 {
        return 0;
    }
    let a = parts.at(0);
    let first: u64 = product(a.w, a.h);
    if parts.len() == 1 {
        return first;
    }
    let b = parts.at(1);
    let second: u64 = product(b.w, b.h);
    if first >= second {
        first
    } else {
        second
    }
}

/// Direction of the cut whose largest leftover is the larger; the one that leaves the longer
/// strip whole where they are equal.
pub open spec fn roomy_direction(fr: FreeRect, pw: u32, ph: u32) -> bool {
    let plain = slas_direction(fr, pw, ph, false);
    let inverse = slas_direction(fr, pw, ph, true);
    if largest(split_parts(fr, pw, ph, inverse)) > largest(split_parts(fr, pw, ph, plain)) {
        inverse
    } else {
        plain
    }
}

/// The direction of the roomier cut.
pub(crate) fn find_roomy_direction(fr: &FreeRect, pw: u32, ph: u32) -> (r: bool)
    requires
        pw <= fr.w,
        ph <= fr.h,
        fr.right() <= u32::MAX,
        fr.bottom() <= u32::MAX,
    ensures
        r == roomy_direction(*fr, pw, ph),
{
    let plain = guillotine_split(fr, pw, ph, false);
    let inverse = guillotine_split(fr, pw, ph, true);
    let shorter = fr.w - pw <= fr.h - ph;
    if largest_area(&inverse) > largest_area(&plain) {
        !shorter
    } else {
        shorter
    }
}

/// The place of a piece: the free rectangle that it wastes least of, else a new sheet.
pub open spec fn best_place(problem: Problem, st: Pack, i: int) -> (Pack, (int, u32, u32, bool)) {
    match least_waste(st.free, problem.pieces[i], st.free.len()) {
        Some(b) => (st, (b.1, b.2, b.3, b.4)),
        None => {
            let f = fit(sheet_cell(problem.sheet, st.sheets), problem.pieces[i], false)->0;
            (opened(problem.sheet, st), (st.free.len() as int, f.0, f.1, f.2))
        },
    }
}

/// The place found is in the list and has room for the piece.
pub proof fn lemma_best_place(problem: Problem, st: Pack, i: int)
    requires
        coherent(problem, st),
        0 <= i < problem.pieces.len(),
        fits_sheet(problem, i),
        st.sheets <= usize::MAX,
    ensures
        ({
            let (st2, spot) = best_place(problem, st, i);
            &&& coherent(problem, st2)
            &&& st2.placements == st.placements
            &&& st.sheets <= st2.sheets <= st.sheets + 1
            &&& 0 <= spot.0 < st2.free.len()
            &&& spot.1 == problem.pieces[i].placed_w(spot.3)
            &&& spot.2 == problem.pieces[i].placed_h(spot.3)
            &&& spot.1 <= st2.free[spot.0].w
            &&& spot.2 <= st2.free[spot.0].h
            &&& spot.3 ==> problem.pieces[i].can_rotate
            &&& st == fresh(problem.sheet) ==> st2.sheets == 1
        }),
{
    lemma_least_waste(st.free, problem.pieces[i], st.free.len());
    if least_waste(st.free, problem.pieces[i], st.free.len()) is None {
        lemma_opened(problem, st);
        if st == fresh(problem.sheet) {
            assert(fit(st.free[0], problem.pieces[i], false) is Some);
        }
    }
}

/// Finds the place of piece `i`; opens a new sheet where no free rectangle has room.
pub(crate) fn find_best_place(
    problem: &Problem,
    free: &mut Vec<FreeRect>,
    sheets_open: usize,
    i: usize,
    Ghost(placements): Ghost<Seq<Placement>>,
) -> (r: (usize, (usize, u32, u32, bool)))
    requires
        i < problem.pieces.len(),
        fits_sheet(*problem, i as int),
        sheets_open < usize::MAX,
    ensures
        ({
            let (st2, spot) = best_place(
                *problem,
                pack_of(old(free)@, placements, sheets_open as int),
                i as int,
            );
            &&& pack_of(final(free)@, placements, r.0 as int) == st2
            &&& r.1.0 == spot.0
            &&& r.1.1 == spot.1
            &&& r.1.2 == spot.2
            &&& r.1.3 == spot.3
        }),
{
    let piece = &problem.pieces[i];
    match find_least_waste(free, piece) {
        Some(spot) => (sheets_open, spot),
        None => {
            let new_fr = sheet_rect(problem, sheets_open);
            let idx: usize = free.len();
            free.push(new_fr);
            match fits_in(&new_fr, piece, false) {
                Some((pw, ph, rotated)) => (sheets_open + 1, (idx, pw, ph, rotated)),
                None => (sheets_open, (0, 0, 0, false)),
            }
        },
    }
}

pub open spec fn gbaf_step(problem: Problem, st: Pack, i: usize) -> Pack {
    let (st2, spot) = best_place(problem, st, i as int);
    placed(
        st2,
        spot.0,
        i,
        spot.1,
        spot.2,
        spot.3,
        roomy_direction(st2.free[spot.0], spot.1, spot.2),
    )
}

/// The first `k` pieces of the order are placed.
pub open spec fn gbaf_state(problem: Problem, order: Seq<usize>, k: nat) -> Pack
    decreases k,
{
    if k == 0 {
        fresh(problem.sheet)
    } else {
        gbaf_step(problem, gbaf_state(problem, order, (k - 1) as nat), order[k - 1])
    }
}

/// Pieces in order of decreasing area.
pub open spec fn by_area(problem: Problem) -> Seq<usize> {
    order_of(
        PieceOrder { pieces: problem.pieces@, key: SortKey::Area, dir: SortDir::Desc },
        problem.pieces@.len(),
    )
}

/// Every piece fits on an empty sheet.
pub open spec fn all_fit(problem: Problem) -> bool {
    forall|i: int| 0 <= i < problem.pieces.len() ==> #[trigger] fits_sheet(problem, i)
}

/// The state after `k` pieces of an order.
pub proof fn lemma_gbaf_state(problem: Problem, order: Seq<usize>, k: nat)
    requires
        all_fit(problem),
        k <= order.len() <= usize::MAX,
        forall|i: int| 0 <= i < order.len() ==> #[trigger] order[i] < problem.pieces.len(),
    ensures
        coherent(problem, gbaf_state(problem, order, k)),
        tiles(problem, gbaf_state(problem, order, k)),
        gbaf_state(problem, order, k).sheets <= (if k == 0 {
            1int
        } else {
            k as int
        }),
        placed_indices(gbaf_state(problem, order, k).placements) =~= order.take(k as int),
    decreases k,
{
    if k == 0 {
        lemma_fresh(problem);
        lemma_tiles_fresh(problem);
    } else {
        lemma_gbaf_state(problem, order, (k - 1) as nat);
        let st = gbaf_state(problem, order, (k - 1) as nat);
        let i = order[k - 1];
        assert(fits_sheet(problem, i as int));
        lemma_best_place(problem, st, i as int);
        let (st2, spot) = best_place(problem, st, i as int);
        let dir = roomy_direction(st2.free[spot.0], spot.1, spot.2);
        if st2 != st {
            lemma_tiles_opened(problem, st);
        }
        lemma_placed(problem, st2, spot.0, i, spot.1, spot.2, spot.3, dir);
        lemma_tiles_placed(problem, st2, spot.0, i, spot.1, spot.2, spot.3, dir);
        let now = gbaf_state(problem, order, k);
        let p0 = placed_indices(st.placements);
        let p1 = placed_indices(now.placements);
        assert forall|j: int| 0 <= j < k implies p1[j] == order[j] by {
            if j < k - 1 {
                assert(now.placements[j] == st.placements[j]);
                assert(p0[j] == order.take(k - 1)[j]);
            }
        }
    }
}

/// An ordering of all pieces is a complete placement order.
pub proof fn lemma_order_complete<R: crate::sorting::Order>(
    rank: R,
    problem: Problem,
    order: Seq<usize>,
    placements: Seq<Placement>,
)
    requires
        in_order(rank, problem.pieces@.len(), order),
        forall|i: int| 0 <= i < problem.pieces@.len() ==> #[trigger] rank.ranks(i),
        placed_indices(placements) == order,
    ensures
        complete(problem, placements),
{
    assert(placed_indices(placements).len() == placements.len());
    if order.len() > 0 {
        lemma_in_order_all(rank, problem.pieces@.len(), order, 0);
    }
    assert forall|i: int| 0 <= i < placements.len() implies (#[trigger] placements[i]).piece_idx
        < problem.pieces.len() by {
        assert(order[i] == placements[i].piece_idx);
    }
}

/// Guillotine best-area-fit packer. Pieces are taken in order of decreasing area; each goes
/// into the free rectangle that it wastes least of, cut so that the largest leftover is as
/// large as can be. A new sheet is opened when a piece fits nowhere.
pub fn gbaf_solve(problem: &Problem) -> (r: Solution)
    requires
        all_fit(*problem),
        problem.pieces@.len() < usize::MAX,
    ensures
        r.placements@ == gbaf_state(
            *problem,
            by_area(*problem),
            problem.pieces@.len(),
        ).placements,
        r.leftovers@ == gbaf_state(*problem, by_area(*problem), problem.pieces@.len()).free,
        complete(*problem, r.placements@),
        few_sheets(r.placements@, problem.pieces@.len()),
        sliced(*problem, r.placements@, r.leftovers@),
        tiled(*problem, r.placements@, r.leftovers@),
{
    let n: usize = problem.pieces.len();
    let rank = PieceRanking { problem, key: SortKey::Area, dir: SortDir::Desc };
    let order = ranked(&rank, n);
    let mut placements: Vec<Placement> = Vec::new();
    let mut free: Vec<FreeRect> = vec![sheet_rect(problem, 0)];
    let mut sheets_open: usize = 1;
    let mut k: usize = 0;
    assert(free@ =~= fresh(problem.sheet).free);
    while k < n
        invariant
            k <= n,
            n == problem.pieces@.len(),
            n < usize::MAX,
            order@.len() == n,
            forall|i: int| 0 <= i < order.len() ==> #[trigger] order@[i] < n,
            all_fit(*problem),
            pack_of(free@, placements@, sheets_open as int) == gbaf_state(
                *problem,
                order@,
                k as nat,
            ),
        decreases n - k,
    {
        let i: usize = order[k];
        let ghost st = gbaf_state(*problem, order@, k as nat);
        proof {
            lemma_gbaf_state(*problem, order@, k as nat);
            assert(fits_sheet(*problem, i as int));
            lemma_best_place(*problem, st, i as int);
        }
        let (sheets, spot) = find_best_place(
            problem,
            &mut free,
            sheets_open,
            i,
            Ghost(placements@),
        );
        sheets_open = sheets;
        proof {
            lemma_free_within(
                *problem,
                pack_of(free@, placements@, sheets_open as int),
                spot.0 as int,
            );
        }
        let fr = free[spot.0];
        let horizontal = find_roomy_direction(&fr, spot.1, spot.2);
        assert(pack_of(free@, placements@, sheets_open as int).free == free@);
        place_into(&mut free, &mut placements, spot, i, horizontal);
        k += 1;
    }
    proof {
        lemma_gbaf_state(*problem, order@, n as nat);
        lemma_coherent_sliced(*problem, gbaf_state(*problem, order@, n as nat));
        assert(tiles(*problem, pack_of(free@, placements@, sheets_open as int)));
        assert(order@.take(n as int) =~= order@);
        lemma_order_complete(rank.order(), *problem, order@, placements@);
    }
    Solution { placements, leftovers: free }
}

} // verus!
