//! From a solution to a genome that stands for something like it.

use vstd::prelude::*;

use super::decoder::{
    decodable, decode_gene, decoded, find_placement, fit, fits_in, fits_sheet, guillotine_split,
    law_decoding_goes_gene_by_gene, law_gene_lays_its_piece, lemma_decoded, lemma_first_fit,
    lemma_fit_any, nearest, selected_fit, sheet_rect, slas_direction, Gene, Genome,
};
use crate::expand::{
    copies, expand_problem, expand_solution, expandable, expanded_placement, is_expansion,
};
use crate::laying::{ahead, goes, goes_nowhere, lemma_ahead};
use crate::model::{
    sheet_cell, FreeRect, Piece, Placement, Problem, ProblemSpec, Solution, SolutionSpec,
};
use crate::packing::{
    coherent, fresh, lemma_free_within, lemma_opened, opened, pack_of, split_parts, Pack,
};
use crate::small::{FreeList, FreePair};
use crate::sorting::{order_of, ranked, Order, Ranking};

verus! {

/// Placements by sheet, then from left to right, then from top to bottom.
pub struct PlaceOrder {
    pub placements: Seq<Placement>,
}

impl Order for PlaceOrder {
    open spec fn ranks(self, i: int) -> bool {
        0 <= i < self.placements.len()
    }

    open spec fn leq(self, a: int, b: int) -> bool {
        let (p, q) = (self.placements[a], self.placements[b]);
        if p.sheet_idx != q.sheet_idx {
            p.sheet_idx < q.sheet_idx
        } else if p.x != q.x {
            p.x < q.x
        } else {
            p.y <= q.y
        }
    }

    proof fn leq_total(self, a: int, b: int) {
    }

    proof fn leq_trans(self, a: int, b: int, c: int) {
    }
}

struct PlaceRanking<'a> {
    placements: &'a Vec<Placement>,
}

impl<'a> Ranking for PlaceRanking<'a> {
    type Of = PlaceOrder;

    closed spec fn order(&self) -> PlaceOrder {
        PlaceOrder { placements: self.placements@ }
    }

    fn at_most(&self, a: usize, b: usize) -> (r: bool) {
        let p = self.placements[a];
        let q = self.placements[b];
        if p.sheet_idx != q.sheet_idx {
            p.sheet_idx < q.sheet_idx
        } else if p.x != q.x {
            p.x < q.x
        } else {
            p.y <= q.y
        }
    }
}

/// A free rectangle for a placement: one with its origin, any on its sheet, any at all. In each
/// case the piece fits.
pub open spec fn suits(fr: FreeRect, pl: Placement, piece: Piece, level: int) -> bool {
    &&& fit(fr, piece, pl.rotated) is Some
    &&& level <= 1 ==> fr.sheet_idx == pl.sheet_idx
    &&& level <= 0 ==> fr.x == pl.x && fr.y == pl.y
}

/// The first rectangle from number `k` on that suits.
pub open spec fn first_suiting(
    free: Seq<FreeRect>,
    pl: Placement,
    piece: Piece,
    level: int,
    k: int,
) -> Option<int>
    decreases free.len() - k,
{
    if k >= free.len() {
        None
    } else if suits(free[k], pl, piece, level) {
        Some(k)
    } else {
        first_suiting(free, pl, piece, level, k + 1)
    }
}

/// The number of the preferred free rectangle for a placement, 0 where the piece fits in none.
pub open spec fn preferred(free: Seq<FreeRect>, pl: Placement, piece: Piece) -> int {
    match first_suiting(free, pl, piece, 0, 0) {
        Some(i) => i,
        None => match first_suiting(free, pl, piece, 1, 0) {
            Some(i) => i,
            None => match first_suiting(free, pl, piece, 2, 0) {
                Some(i) => i,
                None => 0,
            },
        },
    }
}

fn find_suiting(free: &FreeList, pl: &Placement, piece: &Piece, level: u8) -> (r: Option<usize>)
    ensures
        match r {
            Some(i) => first_suiting(free@, *pl, *piece, level as int, 0) == Some(i as int),
            None => first_suiting(free@, *pl, *piece, level as int, 0) is None,
        },
{
    let n: usize = free.len();
    let mut k: usize = 0;
    while k < n
        invariant
            k <= n,
            n == free@.len(),
            first_suiting(free@, *pl, *piece, level as int, 0) == first_suiting(
                free@,
                *pl,
                *piece,
                level as int,
                k as int,
            ),
        decreases n - k,
    {
        let fr = free.at(k);
        if fits_in(&fr, piece, pl.rotated).is_some() && (level > 1 || fr.sheet_idx
            == pl.sheet_idx) && (level > 0 || (fr.x == pl.x && fr.y == pl.y)) {
            return Some(k);
        }
        k += 1;
    }
    None
}

/// The number of the preferred free rectangle for a placement: one with its origin on its
/// sheet, else one on its sheet, else any in which the piece fits, else 0.
pub fn preferred_free_rect(free: &FreeList, pl: &Placement, piece: &Piece) -> (r: usize)
    ensures
        r == preferred(free@, *pl, *piece),
{
    if let Some(i) = find_suiting(free, pl, piece, 0) {
        return i;
    }
    if let Some(i) = find_suiting(free, pl, piece, 1) {
        return i;
    }
    match find_suiting(free, pl, piece, 2) {
        Some(i) => i,
        None => 0,
    }
}

/// Some rectangle of the list begins where the placement does and has room for its piece.
pub open spec fn origin_in(list: Seq<FreeRect>, pl: Placement, piece: Piece) -> bool {
    exists|i: int| 0 <= i < list.len() && suits(#[trigger] list[i], pl, piece, 0)
}

/// Where a gene puts its piece: the state with a new sheet where that is needed, and the spot.
pub open spec fn spot_for(
    problem: Problem,
    st: Pack,
    piece: Piece,
    rotate: bool,
    selector: u32,
) -> (Pack, (int, u32, u32, bool)) {
    match selected_fit(st.free, piece, rotate, selector) {
        Some(s) => (st, s),
        None => {
            let f = fit(sheet_cell(problem.sheet, st.sheets), piece, rotate)->0;
            (opened(problem.sheet, st), (st.free.len() as int, f.0, f.1, f.2))
        },
    }
}

/// The other way to split is better for the next placement: only with it does some free
/// rectangle begin where that is and have room for it.
pub open spec fn splits_otherwise(
    problem: Problem,
    st: Pack,
    spot: (int, u32, u32, bool),
    next: Placement,
) -> bool {
    let fr = st.free[spot.0];
    let piece = problem.pieces@[next.piece_idx as int];
    let rest = st.free.remove(spot.0);
    &&& fr.w > spot.1
    &&& fr.h > spot.2
    &&& !origin_in(
        rest + split_parts(fr, spot.1, spot.2, slas_direction(fr, spot.1, spot.2, false)),
        next,
        piece,
    )
    &&& origin_in(
        rest + split_parts(fr, spot.1, spot.2, slas_direction(fr, spot.1, spot.2, true)),
        next,
        piece,
    )
}

/// The gene for a placement that another one follows, or none.
pub open spec fn gene_with(
    problem: Problem,
    st: Pack,
    pl: Placement,
    next: Option<Placement>,
) -> Gene {
    let piece = problem.pieces@[pl.piece_idx as int];
    let selector = preferred(st.free, pl, piece) as u32;
    let (st2, spot) = spot_for(problem, st, piece, pl.rotated, selector);
    Gene {
        piece_idx: pl.piece_idx,
        rotate: pl.rotated,
        point_selector: selector,
        inverse: match next {
            Some(n) => splits_otherwise(problem, st2, spot, n),
            None => false,
        },
    }
}

/// Placement number `i` of an order, none behind its end.
pub open spec fn placement_at(placements: Seq<Placement>, order: Seq<usize>, i: int) -> Option<
    Placement,
> {
    if i < order.len() {
        Some(placements[order[i] as int])
    } else {
        None
    }
}

/// The gene for placement number `i` of an order.
pub open spec fn gene_for(
    problem: Problem,
    st: Pack,
    placements: Seq<Placement>,
    order: Seq<usize>,
    i: int,
) -> Gene {
    gene_with(
        problem,
        st,
        placements[order[i] as int],
        placement_at(placements, order, i + 1),
    )
}

/// The genes for the first `k` placements of an order. Each is chosen with the free rectangles
/// in view that decoding those in front of it leaves; a piece that fits on no sheet gets none.
pub open spec fn encoded(
    problem: Problem,
    placements: Seq<Placement>,
    order: Seq<usize>,
    k: nat,
) -> Seq<Gene>
    decreases k,
{
    if k == 0 {
        Seq::empty()
    } else {
        let g = encoded(problem, placements, order, (k - 1) as nat);
        if fits_sheet(problem, placements[order[k - 1] as int].piece_idx as int) {
            g.push(
                gene_for(
                    problem,
                    decoded(problem, g, g.len()),
                    placements,
                    order,
                    k - 1,
                ),
            )
        } else {
            g
        }
    }
}

proof fn lemma_encoded(problem: Problem, placements: Seq<Placement>, order: Seq<usize>, k: nat)
    requires
        k <= order.len(),
        forall|i: int| 0 <= i < order.len() ==> (#[trigger] order[i]) < placements.len(),
        forall|i: int|
            0 <= i < placements.len() ==> (#[trigger] placements[i]).piece_idx
                < problem.pieces@.len(),
    ensures
        encoded(problem, placements, order, k).len() <= k,
        decodable(problem, encoded(problem, placements, order, k)),
    decreases k,
{
    if k > 0 {
        lemma_encoded(problem, placements, order, (k - 1) as nat);
        assert(order[k - 1] < placements.len());
        assert(placements[order[k - 1] as int].piece_idx < problem.pieces@.len());
    }
}

/// Decoding goes on from where it was.
proof fn lemma_decoded_prefix(problem: Problem, g: Seq<Gene>, gene: Gene, k: nat)
    requires
        k <= g.len(),
    ensures
        decoded(problem, g.push(gene), k) == decoded(problem, g, k),
    decreases k,
{
    if k > 0 {
        lemma_decoded_prefix(problem, g, gene, (k - 1) as nat);
        assert(g.push(gene)[k - 1] == g[k - 1]);
    }
}

fn is_origin(fr: &FreeRect, pl: &Placement, piece: &Piece) -> (r: bool)
    ensures
        r == suits(*fr, *pl, *piece, 0),
{
    fr.sheet_idx == pl.sheet_idx && fr.x == pl.x && fr.y == pl.y && fits_in(
        fr,
        piece,
        pl.rotated,
    ).is_some()
}

/// Whether some free rectangle other than number `skip`, or one of a pair, begins where the
/// placement does and has room for its piece.
fn has_origin(
    free: &FreeList,
    skip: usize,
    parts: &FreePair,
    pl: &Placement,
    piece: &Piece,
    Ghost(rest): Ghost<Seq<FreeRect>>,
) -> (r: bool)
    requires
        skip <= free@.len(),
        rest == (if skip < free@.len() {
            free@.remove(skip as int)
        } else {
            free@
        }),
    ensures
        r == origin_in(rest + parts@, *pl, *piece),
{
    let ghost all = rest + parts@;
    let n: usize = free.len();
    let mut k: usize = 0;
    while k < n
        invariant
            k <= n,
            n == free@.len(),
            skip <= n,
            rest == (if skip < free@.len() {
                free@.remove(skip as int)
            } else {
                free@
            }),
            all == rest + parts@,
            forall|i: int|
                0 <= i < k && i != skip ==> !suits(#[trigger] free@[i], *pl, *piece, 0),
        decreases n - k,
    {
        let fr = free.at(k);
        if k != skip && is_origin(&fr, pl, piece) {
            proof {
                let j = if k < skip {
                    k as int
                } else {
                    k - 1
                };
                assert(rest[j] == free@[k as int]);
                assert(all[j] == free@[k as int]);
            }
            return true;
        }
        k += 1;
    }
    assert forall|j: int| 0 <= j < rest.len() implies !suits(#[trigger] all[j], *pl, *piece, 0) by {
        let i = if j < skip {
            j
        } else {
            j + 1
        };
        assert(all[j] == rest[j]);
        if skip < free@.len() {
            assert(rest[j] == free@[i]);
        } else {
            assert(rest[j] == free@[j]);
        }
    }
    let m: usize = parts.len();
    let mut q: usize = 0;
    while q < m
        invariant
            q <= m,
            m == parts@.len(),
            all == rest + parts@,
            forall|j: int| 0 <= j < rest.len() ==> !suits(#[trigger] all[j], *pl, *piece, 0),
            forall|j: int|
                rest.len() <= j < rest.len() + q ==> !suits(#[trigger] all[j], *pl, *piece, 0),
        decreases m - q,
    {
        let fr = parts.at(q);
        assert(all[rest.len() + q] == parts@[q as int]);
        if is_origin(&fr, pl, piece) {
            return true;
        }
        q += 1;
    }
    false
}

fn choose_gene(
    problem: &Problem,
    free: &FreeList,
    sheets_open: usize,
    pl: &Placement,
    next: Option<Placement>,
    Ghost(st): Ghost<Pack>,
) -> (gene: Gene)
    requires
        coherent(*problem, st),
        free@ == st.free,
        sheets_open == st.sheets,
        pl.piece_idx < problem.pieces@.len(),
        fits_sheet(*problem, pl.piece_idx as int),
        next matches Some(n) ==> n.piece_idx < problem.pieces@.len(),
    ensures
        gene == gene_with(*problem, st, *pl, next),
{
    let piece = &problem.pieces[pl.piece_idx];
    let p: usize = preferred_free_rect(free, pl, piece);
    #[verifier::truncate]
    let point_selector: u32 = p as u32;
    let found = find_placement(free, piece, pl.rotated, point_selector);
    let ghost (st2, spot) = spot_for(*problem, st, *piece, pl.rotated, point_selector);
    proof {
        lemma_fit_any(
            sheet_cell(problem.sheet, 0),
            sheet_cell(problem.sheet, st.sheets),
            *piece,
            false,
            pl.rotated,
        );
        if st.free.len() > 0 {
            lemma_first_fit(
                st.free,
                *piece,
                pl.rotated,
                point_selector as int % (st.free.len() as int),
                0,
            );
        }
        lemma_opened(*problem, st);
        lemma_free_within(*problem, st2, spot.0);
    }
    let (skip, fr): (usize, FreeRect) = match found {
        Some(s) => (s.0, free.at(s.0)),
        None => (free.len(), sheet_rect(problem, sheets_open)),
    };
    let size = match found {
        Some(s) => Some((s.1, s.2, s.3)),
        None => fits_in(&fr, piece, pl.rotated),
    };
    let mut inverse = false;
    if let (Some((pw, ph, _)), Some(n)) = (size, next) {
        assert(fr == st2.free[spot.0] && pw == spot.1 && ph == spot.2);
        if fr.w > pw && fr.h > ph {
            let next_piece = &problem.pieces[n.piece_idx];
            let a = guillotine_split(&fr, pw, ph, false);
            let b = guillotine_split(&fr, pw, ph, true);
            let ghost rest = st2.free.remove(spot.0);
            proof {
                if found is None {
                    assert(rest =~= free@);
                }
            }
            inverse = !has_origin(free, skip, &a, &n, next_piece, Ghost(rest)) && has_origin(
                free,
                skip,
                &b,
                &n,
                next_piece,
                Ghost(rest),
            );
        }
    }
    Gene { piece_idx: pl.piece_idx, rotate: pl.rotated, point_selector, inverse }
}

/// Encodes a solution as a genome: the pieces by sheet and place, each steered as far as may be
/// to where it lies. Decoding need not give the solution back, but gives one with the same
/// pieces, in a like order, with the same rotations preferred.
pub fn encode(solution: &Solution, problem: &Problem) -> (r: Genome)
    requires
        forall|i: int|
            0 <= i < solution.placements@.len() ==> (#[trigger] solution.placements@[i]).piece_idx
                < problem.pieces@.len(),
        solution.placements@.len() < usize::MAX,
    ensures
        r@ == encoded(
            *problem,
            solution.placements@,
            order_of(
                PlaceOrder { placements: solution.placements@ },
                solution.placements@.len(),
            ),
            solution.placements@.len(),
        ),
        decodable(*problem, r@),
{
    let ghost pls = solution.placements@;
    let ranking = PlaceRanking { placements: &solution.placements };
    assert(ranking.order() == (PlaceOrder { placements: pls }));
    let order = ranked(&ranking, solution.placements.len());
    let n: usize = order.len();
    let mut free = FreeList::new();
    free.push(sheet_rect(problem, 0));
    let mut placed: Vec<Placement> = Vec::new();
    let mut sheets_open: usize = 1;
    let mut genome: Genome = Vec::new();
    let mut k: usize = 0;
    assert(free@ =~= fresh(problem.sheet).free);
    while k < n
        invariant
            k <= n,
            n == order@.len(),
            n == pls.len(),
            n < usize::MAX,
            pls == solution.placements@,
            forall|i: int|
                0 <= i < pls.len() ==> (#[trigger] pls[i]).piece_idx < problem.pieces@.len(),
            forall|i: int| 0 <= i < order@.len() ==> (#[trigger] order@[i]) < pls.len(),
            genome@ == encoded(*problem, pls, order@, k as nat),
            pack_of(free@, placed@, sheets_open as int) == decoded(
                *problem,
                genome@,
                genome@.len(),
            ),
        decreases n - k,
    {
        let ghost st = decoded(*problem, genome@, genome@.len());
        let ghost g0 = genome@;
        proof {
            lemma_encoded(*problem, pls, order@, k as nat);
            lemma_decoded(*problem, g0, g0.len());
        }
        assert(order@[k as int] < pls.len());
        let pl = solution.placements[order[k]];
        assert(pls[order@[k as int] as int].piece_idx < problem.pieces@.len());
        let piece = &problem.pieces[pl.piece_idx];
        let whole = sheet_rect(problem, 0);
        if fits_in(&whole, piece, false).is_some() {
            let next: Option<Placement> = if k + 1 < n {
                assert(order@[k + 1] < pls.len());
                assert(pls[order@[k + 1] as int].piece_idx < problem.pieces@.len());
                Some(solution.placements[order[k + 1]])
            } else {
                None
            };
            let gene = choose_gene(problem, &free, sheets_open, &pl, next, Ghost(st));
            proof {
                assert(gene == gene_for(*problem, st, pls, order@, k as int));
                assert(fits_sheet(*problem, pl.piece_idx as int));
                lemma_decoded_prefix(*problem, g0, gene, g0.len());
            }
            decode_gene(problem, &gene, &mut free, &mut placed, &mut sheets_open);
            genome.push(gene);
        }
        k += 1;
    }
    proof {
        lemma_encoded(*problem, pls, order@, n as nat);
    }
    genome
}

/// Where every piece fits on a sheet, the genome has the pieces of the solution in the order of
/// their places, with their rotations.
pub proof fn law_encode_keeps_pieces(
    problem: Problem,
    placements: Seq<Placement>,
    order: Seq<usize>,
    k: nat,
)
    requires
        k <= order.len(),
        forall|i: int| 0 <= i < order.len() ==> (#[trigger] order[i]) < placements.len(),
        forall|i: int|
            0 <= i < placements.len() ==> fits_sheet(
                problem,
                (#[trigger] placements[i]).piece_idx as int,
            ),
    ensures
        encoded(problem, placements, order, k).len() == k,
        forall|i: int|
            0 <= i < k ==> {
                let g = #[trigger] encoded(problem, placements, order, k)[i];
                &&& g.piece_idx == placements[order[i] as int].piece_idx
                &&& g.rotate == placements[order[i] as int].rotated
            },
    decreases k,
{
    if k > 0 {
        law_encode_keeps_pieces(problem, placements, order, (k - 1) as nat);
        assert(order[k - 1] < placements.len());
        assert(fits_sheet(problem, placements[order[k - 1] as int].piece_idx as int));
    }
}

/// The placements of a solution in terms of pieces.
pub open spec fn flat_placements(spec: ProblemSpec, sol: SolutionSpec) -> Seq<Placement> {
    Seq::new(
        sol.placements@.len(),
        |k: int| expanded_placement(spec.piece_types@, sol.placements@, k),
    )
}

/// Encodes a solution in terms of piece types.
pub fn encode_spec(spec: &ProblemSpec, sol: &SolutionSpec) -> (r: Genome)
    requires
        expandable(*spec),
        forall|i: int|
            0 <= i < sol.placements@.len() ==> (#[trigger] sol.placements@[i]).ptype_idx
                < spec.piece_types@.len(),
        copies(spec.piece_types@, spec.piece_types@.len()) + sol.placements@.len() < usize::MAX,
        forall|i: int|
            0 <= i < sol.placements@.len() ==> (#[trigger] flat_placements(*spec, *sol)[i]).piece_idx
                < copies(spec.piece_types@, spec.piece_types@.len()),
    ensures
        exists|p: Problem| #[trigger]
            is_expansion(*spec, p) && r@ == encoded(
                p,
                flat_placements(*spec, *sol),
                order_of(
                    PlaceOrder { placements: flat_placements(*spec, *sol) },
                    sol.placements@.len(),
                ),
                sol.placements@.len(),
            ),
{
    let problem = expand_problem(spec);
    let flat = expand_solution(sol, spec);
    proof {
        crate::expand::lemma_type_indices(spec.piece_types@, spec.piece_types@.len());
        assert(flat.placements@ == flat_placements(*spec, *sol));
    }
    encode(&flat, &problem)
}

/// The rectangle begins where the placement does, and its piece goes into it.
pub open spec fn begins_at(fr: FreeRect, pl: Placement, piece: Piece) -> bool {
    &&& fr.sheet_idx == pl.sheet_idx
    &&& fr.x == pl.x
    &&& fr.y == pl.y
    &&& goes(fr, piece, false) || goes(fr, piece, true)
}

/// Some rectangle of the list begins where the placement does, and its piece goes into it.
pub open spec fn place_is_free(free: Seq<FreeRect>, pl: Placement, piece: Piece) -> bool {
    exists|j: int| 0 <= j < free.len() && begins_at(#[trigger] free[j], pl, piece)
}

/// Some rectangle of the list is on the sheet of the placement, and its piece goes into it.
pub open spec fn sheet_has_room(free: Seq<FreeRect>, pl: Placement, piece: Piece) -> bool {
    exists|j: int|
        0 <= j < free.len() && (#[trigger] free[j]).sheet_idx == pl.sheet_idx && (goes(
            free[j],
            piece,
            false,
        ) || goes(free[j], piece, true))
}

proof fn lemma_first_suiting(
    free: Seq<FreeRect>,
    pl: Placement,
    piece: Piece,
    level: int,
    k: int,
)
    requires
        0 <= k <= free.len(),
    ensures
        match first_suiting(free, pl, piece, level, k) {
            Some(i) => k <= i < free.len() && suits(free[i], pl, piece, level),
            None => forall|j: int|
                k <= j < free.len() ==> !suits(#[trigger] free[j], pl, piece, level),
        },
    decreases free.len() - k,
{
    if k < free.len() && !suits(free[k], pl, piece, level) {
        lemma_first_suiting(free, pl, piece, level, k + 1);
    }
}

/// Decoding leaves few free rectangles.
proof fn lemma_few_free(problem: Problem, genome: Seq<Gene>, k: nat)
    requires
        decodable(problem, genome),
        genome.len() <= usize::MAX,
        k <= genome.len(),
    ensures
        decoded(problem, genome, k).free.len() <= 2 * k + 1,
    decreases k,
{
    if k > 0 {
        lemma_few_free(problem, genome, (k - 1) as nat);
        law_gene_lays_its_piece(problem, genome, (k - 1) as nat);
    }
}

/// The rectangle that a gene of the genome points at.
proof fn lemma_preferred(free: Seq<FreeRect>, pl: Placement, piece: Piece)
    requires
        free.len() <= u32::MAX,
    ensures
        ({
            let selector = preferred(free, pl, piece) as u32;
            &&& place_is_free(free, pl, piece) ==> selector < free.len() && begins_at(
                free[selector as int],
                pl,
                piece,
            )
            &&& sheet_has_room(free, pl, piece) ==> selector < free.len() && free[selector as int].sheet_idx
                == pl.sheet_idx && (goes(free[selector as int], piece, false) || goes(
                free[selector as int],
                piece,
                true,
            ))
        }),
{
    lemma_first_suiting(free, pl, piece, 0, 0);
    lemma_first_suiting(free, pl, piece, 1, 0);
    lemma_first_suiting(free, pl, piece, 2, 0);
    if place_is_free(free, pl, piece) {
        let j = choose|j: int| 0 <= j < free.len() && begins_at(#[trigger] free[j], pl, piece);
        assert(suits(free[j], pl, piece, 0));
    }
    if sheet_has_room(free, pl, piece) {
        let j = choose|j: int|
            0 <= j < free.len() && (#[trigger] free[j]).sheet_idx == pl.sheet_idx && (goes(
                free[j],
                piece,
                false,
            ) || goes(free[j], piece, true));
        assert(suits(free[j], pl, piece, 1));
    }
}

/// Decoding the genome of a solution leads every piece home where that is possible: where a free
/// rectangle begins at its place and the piece goes into it, the piece is laid there; and where a
/// free rectangle of its sheet takes it, it is laid on its sheet.
pub proof fn law_genome_leads_home(
    problem: Problem,
    placements: Seq<Placement>,
    order: Seq<usize>,
    k: nat,
)
    requires
        k < order.len(),
        2 * order.len() + 1 <= u32::MAX,
        forall|i: int| 0 <= i < order.len() ==> (#[trigger] order[i]) < placements.len(),
        forall|i: int|
            0 <= i < placements.len() ==> (#[trigger] placements[i]).piece_idx
                < problem.pieces@.len() && fits_sheet(problem, placements[i].piece_idx as int),
    ensures
        ({
            let pl = placements[order[k as int] as int];
            let piece = problem.pieces@[pl.piece_idx as int];
            let a = decoded(problem, encoded(problem, placements, order, k), k);
            let b = decoded(problem, encoded(problem, placements, order, k + 1), k + 1);
            let laid = b.placements.last();
            &&& laid.piece_idx == pl.piece_idx
            &&& place_is_free(a.free, pl, piece) ==> laid.sheet_idx == pl.sheet_idx && laid.x
                == pl.x && laid.y == pl.y
            &&& sheet_has_room(a.free, pl, piece) ==> laid.sheet_idx == pl.sheet_idx
        }),
{
    let g = encoded(problem, placements, order, k);
    let h = encoded(problem, placements, order, k + 1);
    lemma_prefix(problem, placements, order, k);
    let pl = placements[order[k as int] as int];
    let piece = problem.pieces@[pl.piece_idx as int];
    let a = decoded(problem, g, k);
    lemma_few_free(problem, g, k);
    lemma_preferred(a.free, pl, piece);
    law_gene_lays_its_piece(problem, h, k);
    let n = a.free.len() as int;
    let gene = h[k as int];
    let s = gene.point_selector as int;
    if place_is_free(a.free, pl, piece) || sheet_has_room(a.free, pl, piece) {
        vstd::arithmetic::div_mod::lemma_small_mod(s as nat, n as nat);
        assert(goes(a.free[s], piece, false) || goes(a.free[s], piece, true));
        assert(!goes_nowhere(a.free, piece));
        assert(ahead(s, s, n) == 0);
        assert forall|slot: int| 0 <= slot < n && nearest(a.free, piece, s, slot) implies slot
            == s by {
            lemma_ahead(slot, s, n);
        }
    }
}

/// The genome of more placements begins with that of fewer, and so does what it decodes to.
proof fn lemma_prefix(problem: Problem, placements: Seq<Placement>, order: Seq<usize>, k: nat)
    requires
        k < order.len(),
        order.len() <= usize::MAX,
        forall|i: int| 0 <= i < order.len() ==> (#[trigger] order[i]) < placements.len(),
        forall|i: int|
            0 <= i < placements.len() ==> (#[trigger] placements[i]).piece_idx
                < problem.pieces@.len() && fits_sheet(problem, placements[i].piece_idx as int),
    ensures
        ({
            let g = encoded(problem, placements, order, k);
            let h = encoded(problem, placements, order, k + 1);
            &&& g.len() == k
            &&& h.len() == k + 1
            &&& h == g.push(
                gene_for(problem, decoded(problem, g, k), placements, order, k as int),
            )
            &&& decodable(problem, g)
            &&& decodable(problem, h)
            &&& decoded(problem, h, k) == decoded(problem, g, k)
        }),
{
    let g = encoded(problem, placements, order, k);
    let h = encoded(problem, placements, order, k + 1);
    law_encode_keeps_pieces(problem, placements, order, k);
    law_encode_keeps_pieces(problem, placements, order, k + 1);
    assert(order[k as int] < placements.len());
    assert(fits_sheet(problem, placements[order[k as int] as int].piece_idx as int));
    assert forall|i: int| 0 <= i < h.len() implies (#[trigger] h[i]).piece_idx
        < problem.pieces.len() && fits_sheet(problem, h[i].piece_idx as int) by {
        assert(order[i] < placements.len());
        assert(placements[order[i] as int].piece_idx < problem.pieces@.len());
    }
    assert forall|i: int| 0 <= i < g.len() implies (#[trigger] g[i]).piece_idx
        < problem.pieces.len() && fits_sheet(problem, g[i].piece_idx as int) by {
        assert(order[i] < placements.len());
        assert(placements[order[i] as int].piece_idx < problem.pieces@.len());
    }
    law_decoding_goes_gene_by_gene(problem, h, k);
    assert(h.take(k as int) =~= g);
}

/// A gene of the genome cuts with the next placement in view: where one of the two ways to cut
/// leaves the place of the next piece free, and a rectangle there that it goes into, the way that
/// is chosen does. Of two that do, or two that do not, the plain one is chosen.
pub proof fn law_cut_leaves_the_next_place_free(
    problem: Problem,
    placements: Seq<Placement>,
    order: Seq<usize>,
    k: nat,
    inverse: bool,
)
    requires
        k + 1 < order.len(),
        order.len() <= usize::MAX,
        forall|i: int| 0 <= i < order.len() ==> (#[trigger] order[i]) < placements.len(),
        forall|i: int|
            0 <= i < placements.len() ==> (#[trigger] placements[i]).piece_idx
                < problem.pieces@.len() && fits_sheet(problem, placements[i].piece_idx as int),
    ensures
        ({
            let next = placements[order[k as int + 1] as int];
            let piece = problem.pieces@[next.piece_idx as int];
            let g = encoded(problem, placements, order, k);
            let h = encoded(problem, placements, order, k + 1);
            let gene = h[k as int];
            let other = g.push(Gene { inverse, ..gene });
            let plain = g.push(Gene { inverse: false, ..gene });
            let b = decoded(problem, h, k + 1);
            &&& place_is_free(decoded(problem, other, k + 1).free, next, piece) ==> place_is_free(
                b.free,
                next,
                piece,
            )
            &&& gene.inverse ==> !place_is_free(decoded(problem, plain, k + 1).free, next, piece)
        }),
{
    lemma_prefix(problem, placements, order, k);
    let g = encoded(problem, placements, order, k);
    let h = encoded(problem, placements, order, k + 1);
    let gene = h[k as int];
    let st = decoded(problem, g, k);
    let next = placements[order[k as int + 1] as int];
    let piece = problem.pieces@[next.piece_idx as int];
    lemma_cut_either_way(problem, g, gene, next, piece, true);
    lemma_cut_either_way(problem, g, gene, next, piece, false);
    let mine = problem.pieces@[gene.piece_idx as int];
    let (st2, spot) = spot_for(problem, st, mine, gene.rotate, gene.point_selector);
    let fr = st2.free[spot.0];
    assert(h =~= g.push(Gene { inverse: gene.inverse, ..gene }));
    if !(fr.w > spot.1 && fr.h > spot.2) {
        assert(split_parts(fr, spot.1, spot.2, slas_direction(fr, spot.1, spot.2, false))
            =~= split_parts(fr, spot.1, spot.2, slas_direction(fr, spot.1, spot.2, true)));
    }
}

/// What decoding a gene leaves, whichever way it cuts.
proof fn lemma_cut_either_way(
    problem: Problem,
    g: Seq<Gene>,
    gene: Gene,
    next: Placement,
    piece: Piece,
    inverse: bool,
)
    requires
        g.len() <= usize::MAX,
        decodable(problem, g),
        gene.piece_idx < problem.pieces@.len(),
        fits_sheet(problem, gene.piece_idx as int),
    ensures
        ({
            let k = g.len();
            let st = decoded(problem, g, k);
            let mine = problem.pieces@[gene.piece_idx as int];
            let (st2, spot) = spot_for(problem, st, mine, gene.rotate, gene.point_selector);
            let fr = st2.free[spot.0];
            let left = st2.free.remove(spot.0) + split_parts(
                fr,
                spot.1,
                spot.2,
                slas_direction(fr, spot.1, spot.2, inverse),
            );
            &&& decoded(problem, g.push(Gene { inverse, ..gene }), k + 1).free == left
            &&& place_is_free(left, next, piece) == origin_in(left, next, piece)
            &&& mine.placed_w(spot.3) == spot.1 && mine.placed_h(spot.3) == spot.2
            &&& spot.1 <= fr.w
            &&& spot.2 <= fr.h
        }),
{
    let k = g.len();
    let h = g.push(Gene { inverse, ..gene });
    law_decoding_goes_gene_by_gene(problem, h, k);
    assert(h.take(k as int) =~= g);
    let st = decoded(problem, g, k);
    let mine = problem.pieces@[gene.piece_idx as int];
    let (st2, spot) = spot_for(problem, st, mine, gene.rotate, gene.point_selector);
    let fr = st2.free[spot.0];
    let left = st2.free.remove(spot.0) + split_parts(
        fr,
        spot.1,
        spot.2,
        slas_direction(fr, spot.1, spot.2, inverse),
    );
    let n = st.free.len() as int;
    if n > 0 {
        let start = gene.point_selector as int % n;
        vstd::arithmetic::div_mod::lemma_mod_bound(gene.point_selector as int, n);
        lemma_first_fit(st.free, mine, gene.rotate, start, 0);
    }
    let whole = sheet_cell(problem.sheet, st.sheets);
    lemma_fit_any(sheet_cell(problem.sheet, 0), whole, mine, false, gene.rotate);
    assert forall|j: int| 0 <= j < left.len() implies begins_at(#[trigger] left[j], next, piece)
        == suits(left[j], next, piece, 0) by {}
    if place_is_free(left, next, piece) {
        let j = choose|j: int| 0 <= j < left.len() && begins_at(#[trigger] left[j], next, piece);
        assert(suits(left[j], next, piece, 0));
    }
    if origin_in(left, next, piece) {
        let j = choose|j: int| 0 <= j < left.len() && suits(#[trigger] left[j], next, piece, 0);
        assert(begins_at(left[j], next, piece));
    }
}

/// The placements are encoded each once, sheet by sheet, from left to right, from top to bottom,
/// those at one place in the order of the solution.
pub proof fn law_encoded_by_place(placements: Seq<Placement>)
    requires
        placements.len() <= usize::MAX,
    ensures
        ({
            let order = order_of(PlaceOrder { placements }, placements.len());
            &&& order.len() == placements.len()
            &&& forall|i: int| 0 <= i < order.len() ==> #[trigger] order[i] < placements.len()
            &&& forall|i: int, j: int|
                0 <= i < j < order.len() ==> {
                    let a = #[trigger] order[i];
                    let b = #[trigger] order[j];
                    let p = placements[a as int];
                    let q = placements[b as int];
                    &&& a != b
                    &&& p.sheet_idx <= q.sheet_idx
                    &&& p.sheet_idx == q.sheet_idx ==> p.x <= q.x
                    &&& p.sheet_idx == q.sheet_idx && p.x == q.x ==> p.y <= q.y
                    &&& p.sheet_idx == q.sheet_idx && p.x == q.x && p.y == q.y ==> a < b
                }
        }),
{
    let rank = PlaceOrder { placements };
    crate::sorting::lemma_order_exists(rank, placements.len());
    let order = order_of(rank, placements.len());
    assert(crate::sorting::in_order(rank, placements.len(), order));
    assert forall|i: int, j: int| 0 <= i < j < order.len() implies ({
        let a = #[trigger] order[i];
        let b = #[trigger] order[j];
        let p = placements[a as int];
        let q = placements[b as int];
        &&& a != b
        &&& p.sheet_idx <= q.sheet_idx
        &&& p.sheet_idx == q.sheet_idx ==> p.x <= q.x
        &&& p.sheet_idx == q.sheet_idx && p.x == q.x ==> p.y <= q.y
        &&& p.sheet_idx == q.sheet_idx && p.x == q.x && p.y == q.y ==> a < b
    }) by {
        assert(crate::sorting::precedes(rank, order[i] as int, order[j] as int));
    }
}

} // verus!
