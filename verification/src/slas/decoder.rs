use vstd::prelude::*;

use crate::expand::{
    expand_problem, is_expansion, lemma_layout_shrinkable, shrink_solution, shrunk_as, workable,
};
use crate::laying::{
    ahead, goes, goes_nowhere, lays, lemma_ahead, lemma_lays, lying_h, lying_w, room,
    turned_as_wished,
};
use crate::model::{
    sheet_cell, FreeRect, Piece, Placement, Problem, ProblemSpec, Solution, SolutionSpec,
};
use crate::packing::{
    coherent, few_sheets, fresh, lemma_coherent_sliced, lemma_free_within, lemma_fresh,
    lemma_opened, lemma_placed, opened, pack_of, placed, placed_indices, sliced, split_parts, Pack,
};
use crate::small::{FreeList, FreePair};

verus! {

/// One element of the genome.
#[derive(Debug, Clone, Copy, PartialEq, Eq, Structural)]
pub struct Gene {
    /// Index into `Problem::pieces`.
    pub piece_idx: usize,
    /// If true and the piece can rotate, it is tried rotated first.
    pub rotate: bool,
    /// Picks the free rectangle at which the search starts.
    pub point_selector: u32,
    /// Cuts along the other leftover.
    pub inverse: bool,
}

/// One gene per piece, in placement order.
pub type Genome = Vec<Gene>;

/// How a piece goes into a free rectangle: width, height and whether it is rotated. The
/// preferred orientation is taken where it fits, else the other one where the piece may rotate.
pub open spec fn fit(fr: FreeRect, piece: Piece, prefer_rotate: bool) -> Option<(u32, u32, bool)> {
    let first = prefer_rotate && piece.can_rotate;
    if piece.placed_w(first) <= fr.w && piece.placed_h(first) <= fr.h {
        Some((piece.placed_w(first), piece.placed_h(first), first))
    } else if piece.can_rotate && piece.placed_w(!first) <= fr.w && piece.placed_h(!first)
        <= fr.h {
        Some((piece.placed_w(!first), piece.placed_h(!first), !first))
    } else {
        None
    }
}

/// Piece number `i` fits on an empty sheet, in an orientation that it may have.
pub open spec fn fits_sheet(problem: Problem, i: int) -> bool {
    fit(sheet_cell(problem.sheet, 0), problem.pieces[i], false) is Some
}

/// Checks whether `piece` fits in `fr`, trying the preferred orientation first.
pub fn fits_in(fr: &FreeRect, piece: &Piece, prefer_rotate: bool) -> (r: Option<(u32, u32, bool)>)
    ensures
        r == fit(*fr, *piece, prefer_rotate),
{
    let try_rotated = prefer_rotate && piece.can_rotate;
    let (pw_a, ph_a) = if try_rotated {
        (piece.height, piece.width)
    } else {
        (piece.width, piece.height)
    };
    if pw_a <= fr.w && ph_a <= fr.h {
        return Some((pw_a, ph_a, try_rotated));
    }
    if piece.can_rotate && ph_a <= fr.w && pw_a <= fr.h {
        return Some((ph_a, pw_a, !try_rotated));
    }
    None
}

/// Splits `fr` around a `pw` x `ph` piece in its corner, with an explicit direction of the
/// full cut. Leftovers without area are omitted.
pub fn split_directional(fr: &FreeRect, pw: u32, ph: u32, horizontal: bool) -> (r: FreePair)
    requires
        pw <= fr.w,
        ph <= fr.h,
        fr.right() <= u32::MAX,
        fr.bottom() <= u32::MAX,
    ensures
        r@ == split_parts(*fr, pw, ph, horizontal),
{
    let lw: u32 = fr.w - pw;
    let lh: u32 = fr.h - ph;
    let mut out = FreePair::new();
    if lw > 0 {
        let h: u32 = if horizontal {
            ph
        } else {
            fr.h
        };
        out.push(FreeRect { sheet_idx: fr.sheet_idx, x: fr.x + pw, y: fr.y, w: lw, h });
    }
    if lh > 0 {
        let w: u32 = if horizontal {
            fr.w
        } else {
            pw
        };
        out.push(FreeRect { sheet_idx: fr.sheet_idx, x: fr.x, y: fr.y + ph, w, h: lh });
    }
    assert(out@ =~= split_parts(*fr, pw, ph, horizontal));
    out
}

/// The direction that leaves the longer leftover strip whole, or the other one.
pub open spec fn slas_direction(fr: FreeRect, pw: u32, ph: u32, inverse: bool) -> bool {
    (fr.w - pw <= fr.h - ph) != inverse
}

/// Splits `fr` around a `pw` x `ph` piece in its corner: the longer leftover strip spans the
/// full rectangle, the shorter one stays piece-sized. `inverse` flips it.
pub fn guillotine_split(fr: &FreeRect, pw: u32, ph: u32, inverse: bool) -> (r: FreePair)
    requires
        pw <= fr.w,
        ph <= fr.h,
        fr.right() <= u32::MAX,
        fr.bottom() <= u32::MAX,
    ensures
        r@ == split_parts(*fr, pw, ph, slas_direction(*fr, pw, ph, inverse)),
{
    let lw: u32 = fr.w - pw;
    let lh: u32 = fr.h - ph;
    split_directional(fr, pw, ph, (lw <= lh) != inverse)
}

/// The whole of one sheet.
pub fn sheet_rect(problem: &Problem, sheet_idx: usize) -> (r: FreeRect)
    ensures
        r == sheet_cell(problem.sheet, sheet_idx as int),
{
    FreeRect { sheet_idx, x: 0, y: 0, w: problem.sheet.width, h: problem.sheet.height }
}

/// A found place: index of the free rectangle, width, height, whether rotated.
pub type Spot = (usize, u32, u32, bool);

/// The same, with the index as a mathematical integer.
pub open spec fn spot_of(s: Option<Spot>) -> Option<(int, u32, u32, bool)> {
    match s {
        Some(v) => Some((v.0 as int, v.1, v.2, v.3)),
        None => None,
    }
}

/// The first of the rectangles from offset `i` on, counted from `start` and round the end,
/// that the piece fits in.
pub open spec fn first_fit(
    free: Seq<FreeRect>,
    piece: Piece,
    prefer_rotate: bool,
    start: int,
    i: nat,
) -> Option<(int, u32, u32, bool)>
    decreases free.len() - i,
{
    if i >= free.len() {
        None
    } else {
        let idx = (start + i) % (free.len() as int);
        match fit(free[idx], piece, prefer_rotate) {
            Some(f) => Some((idx, f.0, f.1, f.2)),
            None => first_fit(free, piece, prefer_rotate, start, i + 1),
        }
    }
}

/// The free rectangle that a selector points at, or the next one that the piece fits in.
pub open spec fn selected_fit(
    free: Seq<FreeRect>,
    piece: Piece,
    prefer_rotate: bool,
    point_selector: u32,
) -> Option<(int, u32, u32, bool)> {
    if free.len() == 0 {
        None
    } else {
        first_fit(free, piece, prefer_rotate, point_selector as int % (free.len() as int), 0)
    }
}

/// Scans `free` from `point_selector % |free|`, wrapping around, for the first rectangle that
/// the piece fits in.
pub fn find_placement(
    free: &FreeList,
    piece: &Piece,
    prefer_rotate: bool,
    point_selector: u32,
) -> (r: Option<Spot>)
    ensures
        spot_of(r) == selected_fit(free@, *piece, prefer_rotate, point_selector),
{
    let n: usize = free.len();
    if n == 0 {
        return None;
    }
    let start: usize = (point_selector as usize) % n;
    let mut i: usize = 0;
    while i < n
        invariant
            i <= n,
            n == free@.len(),
            n > 0,
            start == point_selector as int % (n as int),
            start < n,
            selected_fit(free@, *piece, prefer_rotate, point_selector) == first_fit(
                free@,
                *piece,
                prefer_rotate,
                start as int,
                i as nat,
            ),
        decreases n - i,
    {
        let idx: usize = if i < n - start {
            start + i
        } else {
            i - (n - start)
        };
        assert(idx == (start + i) % (n as int)) by {
            if start + i < n {
                vstd::arithmetic::div_mod::lemma_small_mod((start + i) as nat, n as nat);
            } else {
                vstd::arithmetic::div_mod::lemma_small_mod((start + i - n) as nat, n as nat);
                vstd::arithmetic::div_mod::lemma_mod_sub_multiples_vanish(
                    (start + i) as int,
                    n as int,
                );
            }
        }
        let fr = free.at(idx);
        if let Some((pw, ph, rotated)) = fits_in(&fr, piece, prefer_rotate) {
            return Some((idx, pw, ph, rotated));
        }
        i += 1;
    }
    None
}

pub proof fn lemma_first_fit(
    free: Seq<FreeRect>,
    piece: Piece,
    prefer_rotate: bool,
    start: int,
    i: nat,
)
    requires
        start >= 0,
    ensures
        first_fit(free, piece, prefer_rotate, start, i) matches Some(s) ==> 0 <= s.0 < free.len()
            && fit(
            free[s.0],
            piece,
            prefer_rotate,
        ) == Some((s.1, s.2, s.3)),
    decreases free.len() - i,
{
    if i < free.len() {
        let idx = (start + i) % (free.len() as int);
        lemma_first_fit(free, piece, prefer_rotate, start, i + 1);
        vstd::arithmetic::div_mod::lemma_mod_bound(start + i, free.len() as int);
    }
}

/// Opens a new sheet for a piece that fits on it; without effect for one that does not.
pub fn open_new_sheet(
    free: &mut FreeList,
    sheets_open: &mut usize,
    problem: &Problem,
    piece: &Piece,
    prefer_rotate: bool,
) -> (r: Option<Spot>)
    requires
        *old(sheets_open) < usize::MAX,
    ensures
        match fit(sheet_cell(problem.sheet, *old(sheets_open) as int), *piece, prefer_rotate) {
            Some(f) => {
                &&& spot_of(r) == Some((old(free)@.len() as int, f.0, f.1, f.2))
                &&& final(free)@ == old(free)@.push(
                    sheet_cell(problem.sheet, *old(sheets_open) as int),
                )
                &&& *final(sheets_open) == *old(sheets_open) + 1
            },
            None => {
                &&& r is None
                &&& final(free)@ == old(free)@
                &&& *final(sheets_open) == *old(sheets_open)
            },
        },
{
    let sheet_idx: usize = *sheets_open;
    let new_fr = sheet_rect(problem, sheet_idx);
    match fits_in(&new_fr, piece, prefer_rotate) {
        Some((pw, ph, rotated)) => {
            let idx: usize = free.len();
            free.push(new_fr);
            *sheets_open = sheet_idx + 1;
            Some((idx, pw, ph, rotated))
        },
        None => None,
    }
}

/// One gene is decoded: the piece goes into the selected rectangle, or on a new sheet where it
/// fits in none.
pub open spec fn decode_step(problem: Problem, st: Pack, gene: Gene) -> Pack {
    let piece = problem.pieces[gene.piece_idx as int];
    let (st2, spot) = match selected_fit(st.free, piece, gene.rotate, gene.point_selector) {
        Some(s) => (st, s),
        None => {
            let f = fit(sheet_cell(problem.sheet, st.sheets), piece, gene.rotate)->0;
            (opened(problem.sheet, st), (st.free.len() as int, f.0, f.1, f.2))
        },
    };
    placed(
        st2,
        spot.0,
        gene.piece_idx,
        spot.1,
        spot.2,
        spot.3,
        slas_direction(st2.free[spot.0], spot.1, spot.2, gene.inverse),
    )
}

/// The first `k` genes are decoded.
pub open spec fn decoded(problem: Problem, genome: Seq<Gene>, k: nat) -> Pack
    decreases k,
{
    if k == 0 {
        fresh(problem.sheet)
    } else {
        decode_step(problem, decoded(problem, genome, (k - 1) as nat), genome[k - 1])
    }
}

/// Every gene names a piece that fits on an empty sheet.
pub open spec fn decodable(problem: Problem, genome: Seq<Gene>) -> bool {
    forall|i: int|
        0 <= i < genome.len() ==> (#[trigger] genome[i]).piece_idx < problem.pieces.len()
            && fits_sheet(problem, genome[i].piece_idx as int)
}

pub proof fn lemma_fit_any(fr: FreeRect, gr: FreeRect, piece: Piece, a: bool, b: bool)
    requires
        fit(fr, piece, a) is Some,
        fr.w == gr.w,
        fr.h == gr.h,
    ensures
        fit(gr, piece, b) is Some,
{
}

proof fn lemma_decode_step(problem: Problem, st: Pack, gene: Gene)
    requires
        coherent(problem, st),
        gene.piece_idx < problem.pieces.len(),
        fits_sheet(problem, gene.piece_idx as int),
        st.sheets <= usize::MAX,
    ensures
        coherent(problem, decode_step(problem, st, gene)),
        st.sheets <= decode_step(problem, st, gene).sheets <= st.sheets + 1,
        st == fresh(problem.sheet) ==> decode_step(problem, st, gene).sheets == 1,
        exists|pl: Placement|
            pl.piece_idx == gene.piece_idx && decode_step(problem, st, gene).placements
                == #[trigger] st.placements.push(pl),
{
    let piece = problem.pieces[gene.piece_idx as int];
    let found = selected_fit(st.free, piece, gene.rotate, gene.point_selector);
    if st.free.len() > 0 {
        lemma_first_fit(
            st.free,
            piece,
            gene.rotate,
            gene.point_selector as int % (st.free.len() as int),
            0,
        );
    }
    let new = sheet_cell(problem.sheet, st.sheets);
    lemma_fit_any(sheet_cell(problem.sheet, 0), new, piece, false, gene.rotate);
    if st == fresh(problem.sheet) {
        let r = sheet_cell(problem.sheet, 0);
        lemma_fit_any(r, r, piece, false, gene.rotate);
        assert(st.free[0] == r);
        reveal_with_fuel(first_fit, 2);
        assert(gene.point_selector as int % 1 == 0);
        assert(found is Some);
    }
    if found is None {
        lemma_opened(problem, st);
    }
    let st2 = if found is Some {
        st
    } else {
        opened(problem.sheet, st)
    };
    let spot = if found is Some {
        found->0
    } else {
        let f = fit(new, piece, gene.rotate)->0;
        (st.free.len() as int, f.0, f.1, f.2)
    };
    let dir = slas_direction(st2.free[spot.0], spot.1, spot.2, gene.inverse);
    lemma_placed(problem, st2, spot.0, gene.piece_idx, spot.1, spot.2, spot.3, dir);
    let fr = st2.free[spot.0];
    let pl = Placement {
        sheet_idx: fr.sheet_idx,
        piece_idx: gene.piece_idx,
        x: fr.x,
        y: fr.y,
        rotated: spot.3,
    };
    assert(decode_step(problem, st, gene).placements == st.placements.push(pl));
}

/// Decoding keeps the state a cutting of sheets, uses a new sheet for at most every piece but
/// the first, and places the pieces in genome order.
pub proof fn lemma_decoded(problem: Problem, genome: Seq<Gene>, k: nat)
    requires
        decodable(problem, genome),
        k <= genome.len() <= usize::MAX,
    ensures
        coherent(problem, decoded(problem, genome, k)),
        decoded(problem, genome, k).sheets <= (if k == 0 {
            1int
        } else {
            k as int
        }),
        decoded(problem, genome, k).placements.len() == k,
        forall|i: int|
            0 <= i < k ==> (#[trigger] decoded(problem, genome, k).placements[i]).piece_idx
                == genome[i].piece_idx,
    decreases k,
{
    if k == 0 {
        lemma_fresh(problem);
    } else {
        lemma_decoded(problem, genome, (k - 1) as nat);
        let st = decoded(problem, genome, (k - 1) as nat);
        let gene = genome[k - 1];
        lemma_decode_step(problem, st, gene);
        let now = decode_step(problem, st, gene);
        let pl = choose|pl: Placement|
            pl.piece_idx == gene.piece_idx && now.placements == #[trigger] st.placements.push(pl);
        assert forall|i: int| 0 <= i < k implies (#[trigger] now.placements[i]).piece_idx
            == genome[i].piece_idx by {
            if i < k - 1 {
                assert(now.placements[i] == st.placements[i]);
            }
        }
    }
}

/// Places a piece of `pw` x `ph` in the corner of free rectangle `idx`, cut as `inverse` says.
fn place_piece(
    problem: &Problem,
    gene: &Gene,
    spot: Spot,
    free: &mut FreeList,
    placements: &mut Vec<Placement>,
    sheets_open: usize,
)
    requires
        spot.0 < old(free)@.len(),
        spot.1 <= old(free)@[spot.0 as int].w,
        spot.2 <= old(free)@[spot.0 as int].h,
        old(free)@[spot.0 as int].right() <= u32::MAX,
        old(free)@[spot.0 as int].bottom() <= u32::MAX,
    ensures
        pack_of(final(free)@, final(placements)@, sheets_open as int) == placed(
            pack_of(old(free)@, old(placements)@, sheets_open as int),
            spot.0 as int,
            gene.piece_idx,
            spot.1,
            spot.2,
            spot.3,
            slas_direction(old(free)@[spot.0 as int], spot.1, spot.2, gene.inverse),
        ),
{
    let (idx, pw, ph, rotated) = spot;
    let fr = free.remove(idx);
    placements.push(
        Placement {
            sheet_idx: fr.sheet_idx,
            piece_idx: gene.piece_idx,
            x: fr.x,
            y: fr.y,
            rotated,
        },
    );
    let lw: u32 = fr.w - pw;
    let lh: u32 = fr.h - ph;
    let splits = guillotine_split(&fr, pw, ph, gene.inverse);
    let mut si: usize = 0;
    if lw > 0 {
        free.push(splits.at(si));
        si = 1;
    }
    if lh > 0 {
        free.push(splits.at(si));
    }
    assert(free@ =~= old(free)@.remove(idx as int) + splits@);
}

/// Decodes one gene.
pub(crate) fn decode_gene(
    problem: &Problem,
    gene: &Gene,
    free: &mut FreeList,
    placements: &mut Vec<Placement>,
    sheets_open: &mut usize,
)
    requires
        *old(sheets_open) < usize::MAX,
        gene.piece_idx < problem.pieces.len(),
        fits_sheet(*problem, gene.piece_idx as int),
        coherent(
            *problem,
            pack_of(old(free)@, old(placements)@, *old(sheets_open) as int),
        ),
    ensures
        pack_of(final(free)@, final(placements)@, *final(sheets_open) as int) == decode_step(
            *problem,
            pack_of(old(free)@, old(placements)@, *old(sheets_open) as int),
            *gene,
        ),
{
    let piece = &problem.pieces[gene.piece_idx];
    let ghost st = pack_of(free@, placements@, *sheets_open as int);
    proof {
        lemma_fit_any(
            sheet_cell(problem.sheet, 0),
            sheet_cell(problem.sheet, st.sheets),
            *piece,
            false,
            gene.rotate,
        );
        if st.free.len() > 0 {
            lemma_first_fit(
                st.free,
                *piece,
                gene.rotate,
                gene.point_selector as int % (st.free.len() as int),
                0,
            );
        }
    }
    let mut found = find_placement(free, piece, gene.rotate, gene.point_selector);
    if found.is_none() {
        found = open_new_sheet(free, sheets_open, problem, piece, gene.rotate);
        proof {
            lemma_opened(*problem, st);
        }
    }
    if let Some(spot) = found {
        proof {
            let st2 = pack_of(free@, st.placements, *sheets_open as int);
            assert(st2 == st || st2 == opened(problem.sheet, st));
            lemma_free_within(*problem, st2, spot.0 as int);
        }
        place_piece(problem, gene, spot, free, placements, *sheets_open);
    }
}

/// Decodes a genome: pieces are placed in genome order, `point_selector` picks the preferred
/// free rectangle, a new sheet is opened when the piece fits nowhere.
pub fn decode(problem: &Problem, genome: &Genome) -> (r: Solution)
    requires
        decodable(*problem, genome@),
        genome@.len() < usize::MAX,
    ensures
        r.placements@ == decoded(*problem, genome@, genome@.len()).placements,
        r.leftovers@ == decoded(*problem, genome@, genome@.len()).free,
        placed_indices(r.placements@) =~= Seq::new(
            genome@.len(),
            |i: int| genome@[i].piece_idx,
        ),
        sliced(*problem, r.placements@, r.leftovers@),
        few_sheets(r.placements@, r.placements@.len()),
{
    let mut free = FreeList::new();
    free.push(sheet_rect(problem, 0));
    let mut placements: Vec<Placement> = Vec::new();
    let mut sheets_open: usize = 1;
    let mut k: usize = 0;
    assert(free@ =~= fresh(problem.sheet).free);
    while k < genome.len()
        invariant
            k <= genome@.len(),
            genome@.len() < usize::MAX,
            decodable(*problem, genome@),
            pack_of(free@, placements@, sheets_open as int) == decoded(
                *problem,
                genome@,
                k as nat,
            ),
        decreases genome@.len() - k,
    {
        proof {
            lemma_decoded(*problem, genome@, k as nat);
        }
        decode_gene(problem, &genome[k], &mut free, &mut placements, &mut sheets_open);
        k += 1;
    }
    proof {
        lemma_decoded(*problem, genome@, genome@.len());
        lemma_coherent_sliced(*problem, decoded(*problem, genome@, genome@.len()));
    }
    Solution { placements, leftovers: free.into_vec() }
}

/// Decoding a genome that names every piece once places every piece once.
pub proof fn law_decode_places_all(problem: Problem, genome: Seq<Gene>, placements: Seq<Placement>)
    requires
        genome.len() == problem.pieces.len(),
        decodable(problem, genome),
        forall|i: int, j: int|
            0 <= i < j < genome.len() ==> (#[trigger] genome[i]).piece_idx != (
            #[trigger] genome[j]).piece_idx,
        placed_indices(placements) == Seq::new(genome.len(), |i: int| genome[i].piece_idx),
    ensures
        crate::packing::complete(problem, placements),
{
    let s = placed_indices(placements);
    assert(s.len() == placements.len());
    assert forall|i: int| 0 <= i < placements.len() implies (
    #[trigger] placements[i]).piece_idx < problem.pieces.len() by {
        assert(s[i] == placements[i].piece_idx);
        assert(genome[i].piece_idx < problem.pieces.len());
    }
    assert forall|i: int, j: int| 0 <= i < s.len() && 0 <= j < s.len() && i != j implies s[i]
        != s[j] by {
        if i < j {
            assert(genome[i].piece_idx != genome[j].piece_idx);
        } else {
            assert(genome[j].piece_idx != genome[i].piece_idx);
        }
    }
}

/// Decodes a genome for the copies of a statement into a solution in terms of piece types.
pub fn decode_spec(spec: &ProblemSpec, genome: &Genome) -> (r: SolutionSpec)
    requires
        workable(*spec),
        genome@.len() < usize::MAX,
        forall|p: Problem| #[trigger] is_expansion(*spec, p) ==> decodable(p, genome@),
    ensures
        exists|p: Problem| #[trigger]
            is_expansion(*spec, p) && shrunk_as(
                *spec,
                r,
                decoded(p, genome@, genome@.len()).placements,
                decoded(p, genome@, genome@.len()).free,
            ),
{
    let problem = expand_problem(spec);
    let sol = decode(&problem, genome);
    proof {
        assert(spec.piece_types@.len() == spec.piece_types.len());
        lemma_layout_shrinkable(*spec, problem, sol);
    }
    let r = shrink_solution(&sol, spec);
    assert(is_expansion(*spec, problem) && shrunk_as(
        *spec,
        r,
        decoded(problem, genome@, genome@.len()).placements,
        decoded(problem, genome@, genome@.len()).free,
    ));
    r
}

/// The search finds the first rectangle ahead of its start that the piece goes into, and none
/// only where it goes into none.
pub proof fn lemma_first_fit_nearest(
    free: Seq<FreeRect>,
    piece: Piece,
    wish: bool,
    start: int,
    i: nat,
)
    requires
        0 <= start < free.len(),
        forall|j: int|
            0 <= j < free.len() && ahead(j, start, free.len() as int) < i ==> !goes(
                #[trigger] free[j],
                piece,
                false,
            ) && !goes(free[j], piece, true),
    ensures
        match first_fit(free, piece, wish, start, i) {
            Some(s) => {
                &&& 0 <= s.0 < free.len()
                &&& goes(free[s.0], piece, s.3)
                &&& turned_as_wished(free[s.0], piece, wish, s.3)
                &&& s.1 == lying_w(piece, s.3)
                &&& s.2 == lying_h(piece, s.3)
                &&& nearest(free, piece, start, s.0)
            },
            None => goes_nowhere(free, piece),
        },
    decreases free.len() - i,
{
    let n = free.len() as int;
    if i < n {
        let idx = (start + i) % n;
        vstd::arithmetic::div_mod::lemma_mod_bound(start + i, n);
        assert forall|j: int| 0 <= j < n && ahead(j, start, n) == i implies j == idx by {
            lemma_ahead(j, start, n);
        }
        lemma_ahead(idx, start, n);
        assert(ahead(idx, start, n) == i) by {
            if start + i < n {
                vstd::arithmetic::div_mod::lemma_small_mod((start + i) as nat, n as nat);
            } else {
                vstd::arithmetic::div_mod::lemma_small_mod((start + i - n) as nat, n as nat);
                vstd::arithmetic::div_mod::lemma_mod_sub_multiples_vanish(start + i, n);
            }
        }
        match fit(free[idx], piece, wish) {
            Some(f) => {
                assert forall|j: int|
                    0 <= j < n && (goes(#[trigger] free[j], piece, false) || goes(
                        free[j],
                        piece,
                        true,
                    )) implies ahead(idx, start, n) <= ahead(j, start, n) by {}
            },
            None => {
                lemma_first_fit_nearest(free, piece, wish, start, i + 1);
            },
        }
    } else {
        assert forall|j: int| 0 <= j < n implies !goes(#[trigger] free[j], piece, false) && !goes(
            free[j],
            piece,
            true,
        ) by {
            lemma_ahead(j, start, n);
        }
    }
}

/// Of the rectangles that the piece goes into, number `slot` is the first one ahead of `start`,
/// counted round the end of the list.
pub open spec fn nearest(free: Seq<FreeRect>, piece: Piece, start: int, slot: int) -> bool {
    forall|j: int|
        0 <= j < free.len() && (goes(#[trigger] free[j], piece, false) || goes(
            free[j],
            piece,
            true,
        )) ==> ahead(slot, start, free.len() as int) <= ahead(j, start, free.len() as int)
}

/// Decoding begins with one whole sheet and nothing placed, and what the first `k` genes do
/// depends on no other gene.
pub proof fn law_decoding_goes_gene_by_gene(problem: Problem, genome: Seq<Gene>, k: nat)
    requires
        k <= genome.len(),
    ensures
        decoded(problem, genome, 0).placements.len() == 0,
        decoded(problem, genome, 0).sheets == 1,
        decoded(problem, genome, 0).free.len() == 1,
        ({
            let fr = decoded(problem, genome, 0).free[0];
            fr.sheet_idx == 0 && fr.x == 0 && fr.y == 0 && fr.w == problem.sheet.width && fr.h
                == problem.sheet.height
        }),
        decoded(problem, genome, k) == decoded(problem, genome.take(k as int), k),
    decreases k,
{
    if k > 0 {
        law_decoding_goes_gene_by_gene(problem, genome, (k - 1) as nat);
        let g = genome.take(k as int);
        law_decoding_goes_gene_by_gene(problem, g, (k - 1) as nat);
        assert(g.take(k - 1) =~= genome.take(k - 1));
        assert(decoded(problem, genome, (k - 1) as nat) == decoded(
            problem,
            genome.take(k - 1),
            (k - 1) as nat,
        ));
    }
}

/// Gene `k` lays its piece in the corner of a room: of the free rectangle that its selector
/// points at, or the next one ahead that the piece goes into, round the end of the list; of a
/// new sheet where the piece goes into none. It lies as the gene wishes where that goes. The
/// strip that spans the whole room is the one along the longer leftover, or the other one for
/// an inverse gene.
pub proof fn law_gene_lays_its_piece(problem: Problem, genome: Seq<Gene>, k: nat)
    requires
        decodable(problem, genome),
        genome.len() <= usize::MAX,
        k < genome.len(),
    ensures
        ({
            let gene = genome[k as int];
            let piece = problem.pieces@[gene.piece_idx as int];
            let a = decoded(problem, genome, k);
            let b = decoded(problem, genome, k + 1);
            exists|slot: int, turned: bool, across: bool|
                {
                    let fr = room(problem.sheet, a, slot);
                    &&& #[trigger] lays(
                        problem.sheet,
                        a,
                        b,
                        piece,
                        gene.piece_idx,
                        slot,
                        turned,
                        across,
                    )
                    &&& turned_as_wished(fr, piece, gene.rotate, turned)
                    &&& slot < a.free.len() ==> nearest(
                        a.free,
                        piece,
                        gene.point_selector as int % a.free.len() as int,
                        slot,
                    )
                    &&& across == (gene.inverse != (fr.w - lying_w(piece, turned) <= fr.h
                        - lying_h(piece, turned)))
                }
        }),
{
    let gene = genome[k as int];
    let piece = problem.pieces@[gene.piece_idx as int];
    let a = decoded(problem, genome, k);
    let b = decoded(problem, genome, k + 1);
    lemma_decoded(problem, genome, k);
    let n = a.free.len() as int;
    let found = selected_fit(a.free, piece, gene.rotate, gene.point_selector);
    if n > 0 {
        let start = gene.point_selector as int % n;
        vstd::arithmetic::div_mod::lemma_mod_bound(gene.point_selector as int, n);
        assert forall|j: int| 0 <= j < n && ahead(j, start, n) < 0 implies !goes(
            #[trigger] a.free[j],
            piece,
            false,
        ) && !goes(a.free[j], piece, true) by {
            lemma_ahead(j, start, n);
        }
        lemma_first_fit_nearest(a.free, piece, gene.rotate, start, 0);
    }
    let whole = sheet_cell(problem.sheet, a.sheets);
    lemma_fit_any(sheet_cell(problem.sheet, 0), whole, piece, false, gene.rotate);
    let (slot, turned) = match found {
        Some(s) => (s.0, s.3),
        None => (n, (fit(whole, piece, gene.rotate)->0).2),
    };
    let fr = room(problem.sheet, a, slot);
    if slot < n {
        lemma_free_within(problem, a, slot);
    }
    let across = slas_direction(
        fr,
        piece.placed_w(turned),
        piece.placed_h(turned),
        gene.inverse,
    );
    lemma_lays(problem.sheet, a, piece, gene.piece_idx, slot, turned, across);
    assert(lays(problem.sheet, a, b, piece, gene.piece_idx, slot, turned, across));
}

/// A new sheet is begun only when it is needed: where decoding a gene raises the number of
/// sheets, its piece fits in no orientation that it may have in any of the free rectangles that
/// the genes in front of it left.
pub proof fn law_new_sheet_only_when_needed(problem: Problem, genome: Seq<Gene>, k: nat)
    requires
        decodable(problem, genome),
        genome.len() <= usize::MAX,
        k < genome.len(),
        decoded(problem, genome, k + 1).sheets > decoded(problem, genome, k).sheets,
    ensures
        ({
            let piece = problem.pieces@[genome[k as int].piece_idx as int];
            let free = decoded(problem, genome, k).free;
            forall|j: int|
                0 <= j < free.len() ==> {
                    let fr = #[trigger] free[j];
                    &&& piece.width > fr.w || piece.height > fr.h
                    &&& piece.can_rotate ==> piece.height > fr.w || piece.width > fr.h
                }
        }),
{
    law_gene_lays_its_piece(problem, genome, k);
    let gene = genome[k as int];
    let piece = problem.pieces@[gene.piece_idx as int];
    let free = decoded(problem, genome, k).free;
    assert(goes_nowhere(free, piece));
    assert forall|j: int| 0 <= j < free.len() implies ({
        let fr = #[trigger] free[j];
        &&& piece.width > fr.w || piece.height > fr.h
        &&& piece.can_rotate ==> piece.height > fr.w || piece.width > fr.h
    }) by {
        assert(!goes(free[j], piece, false) && !goes(free[j], piece, true));
    }
}

} // verus!
