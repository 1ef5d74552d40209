//! Decodes one gene per piece on sheets where every cut takes the width of the saw.
//!
//! The pieces are as they are written; what the saw takes is subtracted from the leftovers.
//! Cuts along the edge of the sheet take nothing.

use vstd::prelude::*;

use crate::laying::{
    ahead, goes, goes_nowhere, lemma_ahead, lying_h, lying_w, room, turned_as_wished,
};
use crate::layout::{bottom_part, left_part, right_part, slices, slicing_ok, top_part, Slicing};
use crate::model::{cells, sheet_cell, FreeRect, Piece, Placement, Problem, Solution};
use crate::packing::{
    coherent, corner, few_sheets, fresh, lemma_coherent_sliced, lemma_free_within, lemma_fresh,
    lemma_opened, lemma_refined, opened, pack_of, placed_indices, sliced, Pack,
};
use crate::parse::FlatProblem;
use crate::slas::decoder::{
    fit, fits_in, fits_sheet, lemma_first_fit, lemma_first_fit_nearest, lemma_fit_any, nearest,
    selected_fit,
};

verus! {

/// One element of the genome.
#[derive(Debug, Clone, Copy, PartialEq, Eq, Structural)]
pub struct Gene {
    /// Index into `FlatProblem::pieces`.
    pub piece_idx: usize,
    /// If true and the piece can rotate, it is tried rotated first.
    pub rotate: bool,
    /// Picks the free rectangle at which the search starts.
    pub point_selector: u32,
}

/// One gene per piece, in placement order.
pub type Genome = Vec<Gene>;

/// The problem without the saw.
pub open spec fn plain(problem: FlatProblem) -> Problem {
    Problem { sheet: problem.sheet, pieces: problem.pieces }
}

/// The leftovers of a rectangle with a piece in its corner, split along the shorter one: to the
/// right, then below, each where the saw leaves something of it.
pub open spec fn sawn_parts(fr: FreeRect, pw: u32, ph: u32, kerf: u32) -> Seq<FreeRect> {
    let (lw, lh) = (fr.w - pw, fr.h - ph);
    let right = FreeRect {
        sheet_idx: fr.sheet_idx,
        x: (fr.x + pw + kerf) as u32,
        y: fr.y,
        w: (lw - kerf) as u32,
        h: if lw <= lh {
            ph
        } else {
            fr.h
        },
    };
    let below = FreeRect {
        sheet_idx: fr.sheet_idx,
        x: fr.x,
        y: (fr.y + ph + kerf) as u32,
        w: if lw <= lh {
            fr.w
        } else {
            pw
        },
        h: (lh - kerf) as u32,
    };
    let first = if lw > kerf {
        seq![right]
    } else {
        Seq::empty()
    };
    if lh > kerf {
        first.push(below)
    } else {
        first
    }
}

/// Splits a rectangle after a piece was placed in its corner.
pub fn guillotine_split(fr: &FreeRect, pw: u32, ph: u32, kerf: u32) -> (r: Vec<FreeRect>)
    requires
        pw <= fr.w,
        ph <= fr.h,
        fr.right() <= u32::MAX,
        fr.bottom() <= u32::MAX,
    ensures
        r@ == sawn_parts(*fr, pw, ph, kerf),
{
    let lw: u32 = fr.w - pw;
    let lh: u32 = fr.h - ph;
    let mut out: Vec<FreeRect> = Vec::new();
    if lw > kerf {
        let h: u32 = if lw <= lh {
            ph
        } else {
            fr.h
        };
        out.push(
            FreeRect { sheet_idx: fr.sheet_idx, x: fr.x + pw + kerf, y: fr.y, w: lw - kerf, h },
        );
    }
    if lh > kerf {
        let w: u32 = if lw <= lh {
            fr.w
        } else {
            pw
        };
        out.push(
            FreeRect { sheet_idx: fr.sheet_idx, x: fr.x, y: fr.y + ph + kerf, w, h: lh - kerf },
        );
    }
    assert(out@ =~= sawn_parts(*fr, pw, ph, kerf));
    out
}

/// One gene is decoded: its piece goes to the first free rectangle from the selected one on in
/// which it fits, else on a new sheet.
pub open spec fn decode_step(problem: FlatProblem, st: Pack, gene: Gene) -> Pack {
    let piece = problem.pieces@[gene.piece_idx as int];
    let (st2, spot) = match selected_fit(st.free, piece, gene.rotate, gene.point_selector) {
        Some(s) => (st, s),
        None => {
            let f = fit(sheet_cell(problem.sheet, st.sheets), piece, gene.rotate)->0;
            (opened(problem.sheet, st), (st.free.len() as int, f.0, f.1, f.2))
        },
    };
    let fr = st2.free[spot.0];
    Pack {
        free: st2.free.remove(spot.0) + sawn_parts(fr, spot.1, spot.2, problem.kerf),
        placements: st2.placements.push(
            Placement {
                sheet_idx: fr.sheet_idx,
                piece_idx: gene.piece_idx,
                x: fr.x,
                y: fr.y,
                rotated: spot.3,
            },
        ),
        sheets: st2.sheets,
    }
}

/// The first `k` genes are decoded.
pub open spec fn decoded(problem: FlatProblem, genome: Seq<Gene>, k: nat) -> Pack
    decreases k,
{
    if k == 0 {
        fresh(problem.sheet)
    } else {
        decode_step(problem, decoded(problem, genome, (k - 1) as nat), genome[k - 1])
    }
}

/// Every gene names a piece that fits on a sheet.
pub open spec fn decodable(problem: FlatProblem, genome: Seq<Gene>) -> bool {
    forall|i: int|
        0 <= i < genome.len() ==> (#[trigger] genome[i]).piece_idx < problem.pieces@.len()
            && fits_sheet(plain(problem), genome[i].piece_idx as int)
}

/// The rectangle `w` x `h` of the part behind the saw.
spec fn beyond_saw(at: u32, stacked: bool) -> Slicing {
    if stacked {
        Slicing::Stacked {
            at,
            top: Box::new(Slicing::Whole),
            bottom: Box::new(Slicing::Whole),
        }
    } else {
        Slicing::Beside { at, left: Box::new(Slicing::Whole), right: Box::new(Slicing::Whole) }
    }
}

/// The cuts that free a piece in the corner and take the saw off the leftovers.
spec fn sawn_slicing(fr: FreeRect, pw: u32, ph: u32, kerf: u32) -> Slicing {
    let (lw, lh) = (fr.w - pw, fr.h - ph);
    let right = if lw > kerf {
        beyond_saw(kerf, false)
    } else {
        Slicing::Whole
    };
    let below = if lh > kerf {
        beyond_saw(kerf, true)
    } else {
        Slicing::Whole
    };
    if lw <= lh {
        Slicing::Stacked {
            at: ph,
            top: Box::new(
                Slicing::Beside { at: pw, left: Box::new(Slicing::Whole), right: Box::new(right) },
            ),
            bottom: Box::new(below),
        }
    } else {
        Slicing::Beside {
            at: pw,
            left: Box::new(
                Slicing::Stacked { at: ph, top: Box::new(Slicing::Whole), bottom: Box::new(below) },
            ),
            right: Box::new(right),
        }
    }
}

proof fn lemma_sawn_slicing(fr: FreeRect, pw: u32, ph: u32, kerf: u32)
    requires
        pw <= fr.w,
        ph <= fr.h,
        fr.right() <= u32::MAX,
        fr.bottom() <= u32::MAX,
    ensures
        slicing_ok(sawn_slicing(fr, pw, ph, kerf), fr),
        sawn_parts(fr, pw, ph, kerf).to_multiset().insert(corner(fr, pw, ph)).subset_of(
            slices(sawn_slicing(fr, pw, ph, kerf), fr),
        ),
{
    reveal_with_fuel(slicing_ok, 5);
    reveal_with_fuel(slices, 5);
    let u = sawn_slicing(fr, pw, ph, kerf);
    let (lw, lh) = (fr.w - pw, fr.h - ph);
    let parts = sawn_parts(fr, pw, ph, kerf);
    let c = corner(fr, pw, ph);
    let e = Seq::<FreeRect>::empty();
    e.to_multiset_ensures();
    assert(e.to_multiset() =~= vstd::multiset::Multiset::empty());
    if lw > kerf {
        let r = parts[0];
        assert(seq![r] =~= e.push(r));
        seq![r].to_multiset_ensures();
        if lw <= lh {
            assert(right_part(right_part(top_part(fr, ph), pw), kerf) == r);
        } else {
            assert(right_part(right_part(fr, pw), kerf) == r);
        }
    }
    if lh > kerf {
        let b = parts.last();
        assert(seq![b] =~= e.push(b));
        if lw <= lh {
            assert(bottom_part(bottom_part(fr, ph), kerf) == b);
        } else {
            assert(bottom_part(bottom_part(left_part(fr, pw), ph), kerf) == b);
        }
        if lw > kerf {
            assert(parts =~= e.push(parts[0]).push(b));
        } else {
            assert(parts =~= e.push(b));
        }
    } else if lw > kerf {
        assert(parts =~= e.push(parts[0]));
    } else {
        assert(parts =~= e);
    }
    if lw <= lh {
        assert(left_part(top_part(fr, ph), pw) == c);
    } else {
        assert(top_part(left_part(fr, pw), ph) == c);
    }
    assert forall|v: FreeRect| parts.to_multiset().insert(c).count(v) <= slices(u, fr).count(v) by {}
}

proof fn lemma_decode_step(problem: FlatProblem, st: Pack, gene: Gene)
    requires
        coherent(plain(problem), st),
        gene.piece_idx < problem.pieces@.len(),
        fits_sheet(plain(problem), gene.piece_idx as int),
        st.sheets <= usize::MAX,
    ensures
        coherent(plain(problem), decode_step(problem, st, gene)),
        decode_step(problem, st, gene).sheets <= st.sheets + 1,
        st == fresh(problem.sheet) ==> decode_step(problem, st, gene).sheets == 1,
        decode_step(problem, st, gene).placements.len() == st.placements.len() + 1,
        decode_step(problem, st, gene).placements.last().piece_idx == gene.piece_idx,
        decode_step(problem, st, gene).placements.drop_last() == st.placements,
{
    let p = plain(problem);
    let piece = problem.pieces@[gene.piece_idx as int];
    lemma_fit_any(
        sheet_cell(problem.sheet, 0),
        sheet_cell(problem.sheet, st.sheets),
        piece,
        false,
        gene.rotate,
    );
    lemma_fit_any(
        sheet_cell(problem.sheet, 0),
        sheet_cell(problem.sheet, 0),
        piece,
        false,
        gene.rotate,
    );
    if st.free.len() > 0 {
        lemma_first_fit(
            st.free,
            piece,
            gene.rotate,
            gene.point_selector as int % (st.free.len() as int),
            0,
        );
    }
    if st == fresh(problem.sheet) {
        assert(st.free.len() == 1 && st.free[0] == sheet_cell(problem.sheet, 0));
        assert(gene.point_selector as int % 1 == 0);
        assert(selected_fit(st.free, piece, gene.rotate, gene.point_selector) is Some);
    }
    lemma_opened(p, st);
    let (st2, spot) = match selected_fit(st.free, piece, gene.rotate, gene.point_selector) {
        Some(s) => (st, s),
        None => {
            let f = fit(sheet_cell(problem.sheet, st.sheets), piece, gene.rotate)->0;
            (opened(problem.sheet, st), (st.free.len() as int, f.0, f.1, f.2))
        },
    };
    let fr = st2.free[spot.0];
    lemma_free_within(p, st2, spot.0);
    let (pw, ph) = (spot.1, spot.2);
    lemma_sawn_slicing(fr, pw, ph, problem.kerf);
    let pl = Placement {
        sheet_idx: fr.sheet_idx,
        piece_idx: gene.piece_idx,
        x: fr.x,
        y: fr.y,
        rotated: spot.3,
    };
    let more = seq![pl];
    let rest = sawn_parts(fr, pw, ph, problem.kerf);
    let e = Seq::<FreeRect>::empty();
    e.to_multiset_ensures();
    assert(e.to_multiset() =~= vstd::multiset::Multiset::empty());
    let c = corner(fr, pw, ph);
    assert(pl.cell(p.pieces@) == c);
    assert(cells(p.pieces@, more) =~= e.push(c));
    assert(cells(p.pieces@, more).to_multiset().add(rest.to_multiset())
        =~= rest.to_multiset().insert(c));
    let st3 = decode_step(problem, st, gene);
    assert(st3.placements =~= st2.placements + more);
    vstd::seq_lib::lemma_multiset_commutative(st2.free.remove(spot.0), rest);
    lemma_refined(
        p,
        st2,
        spot.0,
        sawn_slicing(fr, pw, ph, problem.kerf),
        more,
        rest,
        st3,
    );
    assert(st3.placements.drop_last() =~= st.placements);
}

proof fn lemma_decoded(problem: FlatProblem, genome: Seq<Gene>, k: nat)
    requires
        decodable(problem, genome),
        k <= genome.len() <= usize::MAX,
    ensures
        coherent(plain(problem), decoded(problem, genome, k)),
        decoded(problem, genome, k).sheets <= (if k == 0 {
            1int
        } else {
            k as int
        }),
        decoded(problem, genome, k).sheets <= usize::MAX,
        placed_indices(decoded(problem, genome, k).placements) == Seq::new(
            k,
            |i: int| genome[i].piece_idx,
        ),
    decreases k,
{
    if k == 0 {
        lemma_fresh(plain(problem));
        assert(placed_indices(decoded(problem, genome, 0).placements) =~= Seq::new(
            0,
            |i: int| genome[i].piece_idx,
        ));
    } else {
        let st = decoded(problem, genome, (k - 1) as nat);
        lemma_decoded(problem, genome, (k - 1) as nat);
        lemma_decode_step(problem, st, genome[k - 1]);
        let now = decoded(problem, genome, k);
        let (a, b) = (placed_indices(st.placements), placed_indices(now.placements));
        assert(a.len() == k - 1);
        assert(b =~= Seq::new(k, |i: int| genome[i].piece_idx)) by {
            assert forall|i: int| 0 <= i < k implies b[i] == genome[i].piece_idx by {
                if i < k - 1 {
                    assert(now.placements.drop_last()[i] == now.placements[i]);
                    assert(a[i] == genome[i].piece_idx);
                }
            }
        }
    }
}

fn find_spot(free: &Vec<FreeRect>, piece: &Piece, prefer_rotate: bool, point_selector: u32) -> (r:
    Option<(usize, u32, u32, bool)>)
    ensures
        match r {
            Some(s) => selected_fit(free@, *piece, prefer_rotate, point_selector) == Some(
                (s.0 as int, s.1, s.2, s.3),
            ),
            None => selected_fit(free@, *piece, prefer_rotate, point_selector) is None,
        },
{
    let n: usize = free.len();
    if n == 0 {
        return None;
    }
    let start: usize = point_selector as usize % n;
    let mut i: usize = 0;
    while i < n
        invariant
            i <= n,
            n == free@.len(),
            n > 0,
            start == point_selector as int % (n as int),
            start < n,
            selected_fit(free@, *piece, prefer_rotate, point_selector)
                == crate::slas::decoder::first_fit(
                free@,
                *piece,
                prefer_rotate,
                start as int,
                i as nat,
            ),
        decreases n - i,
    {
        let idx: usize = if i < n - start {
            start + i
        } else {
            i - (n - start)
        };
        proof {
            if i < n - start {
                vstd::arithmetic::div_mod::lemma_small_mod((start + i) as nat, n as nat);
            } else {
                vstd::arithmetic::div_mod::lemma_small_mod((i - (n - start)) as nat, n as nat);
                vstd::arithmetic::div_mod::lemma_mod_multiples_vanish(
                    1,
                    (i - (n - start)) as int,
                    n as int,
                );
            }
        }
        if let Some((pw, ph, rotated)) = fits_in(&free[idx], piece, prefer_rotate) {
            return Some((idx, pw, ph, rotated));
        }
        i += 1;
    }
    None
}

/// Decodes a genome. Pieces are placed in its order; each goes to the first free rectangle from
/// the selected one on in which it fits, else on a new sheet, and the rectangle is split along
/// the shorter leftover.
pub fn decode(problem: &FlatProblem, genome: &Genome) -> (r: Solution)
    requires
        decodable(*problem, genome@),
        genome@.len() < usize::MAX,
    ensures
        r.placements@ == decoded(*problem, genome@, genome@.len()).placements,
        r.leftovers@ == decoded(*problem, genome@, genome@.len()).free,
        placed_indices(r.placements@) == Seq::new(
            genome@.len(),
            |i: int| genome@[i].piece_idx,
        ),
        sliced(plain(*problem), r.placements@, r.leftovers@),
        few_sheets(r.placements@, r.placements@.len()),
{
    let mut free: Vec<FreeRect> = Vec::new();
    free.push(
        FreeRect {
            sheet_idx: 0,
            x: 0,
            y: 0,
            w: problem.sheet.width,
            h: problem.sheet.height,
        },
    );
    let mut placements: Vec<Placement> = Vec::new();
    let mut sheets_open: usize = 1;
    let mut k: usize = 0;
    assert(free@ =~= fresh(problem.sheet).free);
    assert(placements@ =~= fresh(problem.sheet).placements);
    while k < genome.len()
        invariant
            k <= genome@.len(),
            genome@.len() < usize::MAX,
            decodable(*problem, genome@),
            pack_of(free@, placements@, sheets_open as int) == decoded(
                *problem,
                genome@,
                k as nat,
            ),
        decreases genome@.len() - k,
    {
        let gene = genome[k];
        let ghost st = pack_of(free@, placements@, sheets_open as int);
        proof {
            lemma_decoded(*problem, genome@, k as nat);
            assert(decodable(*problem, genome@));
            assert(genome@[k as int].piece_idx < problem.pieces@.len());
        }
        let piece = &problem.pieces[gene.piece_idx];
        proof {
            lemma_fit_any(
                sheet_cell(problem.sheet, 0),
                sheet_cell(problem.sheet, st.sheets),
                *piece,
                false,
                gene.rotate,
            );
            lemma_opened(plain(*problem), st);
            if st.free.len() > 0 {
                lemma_first_fit(
                    st.free,
                    *piece,
                    gene.rotate,
                    gene.point_selector as int % (st.free.len() as int),
                    0,
                );
            }
        }
        let mut found = find_spot(&free, piece, gene.rotate, gene.point_selector);
        if found.is_none() {
            let whole = FreeRect {
                sheet_idx: sheets_open,
                x: 0,
                y: 0,
                w: problem.sheet.width,
                h: problem.sheet.height,
            };
            if let Some((pw, ph, rotated)) = fits_in(&whole, piece, gene.rotate) {
                found = Some((free.len(), pw, ph, rotated));
                free.push(whole);
                sheets_open = sheets_open + 1;
            }
        }
        if let Some((idx, pw, ph, rotated)) = found {
            let ghost st2 = pack_of(free@, st.placements, sheets_open as int);
            proof {
                assert(st2 == st || st2 == opened(problem.sheet, st));
                lemma_free_within(plain(*problem), st2, idx as int);
            }
            let fr = free.remove(idx);
            placements.push(
                Placement {
                    sheet_idx: fr.sheet_idx,
                    piece_idx: gene.piece_idx,
                    x: fr.x,
                    y: fr.y,
                    rotated,
                },
            );
            let mut parts = guillotine_split(&fr, pw, ph, problem.kerf);
            free.append(&mut parts);
            assert(free@ =~= st2.free.remove(idx as int) + sawn_parts(
                fr,
                pw,
                ph,
                problem.kerf,
            ));
        }
        k += 1;
    }
    proof {
        lemma_decoded(*problem, genome@, genome@.len());
        assert(placed_indices(placements@).len() == genome@.len());
        lemma_coherent_sliced(
            plain(*problem),
            decoded(*problem, genome@, genome@.len()),
        );
    }
    Solution { placements, leftovers: free }
}

/// What a saw of width `kerf` leaves of `fr` around a `w` x `h` corner: what is beside it, then
/// what is below it, each without the cut and where something is left of it. Along the longer
/// leftover it spans the whole of `fr`.
pub open spec fn sawn_left(fr: FreeRect, w: int, h: int, kerf: int, parts: Seq<FreeRect>) -> bool {
    let (lw, lh) = (fr.w - w, fr.h - h);
    let beside: int = if lw > kerf {
        1
    } else {
        0
    };
    let below: int = if lh > kerf {
        1
    } else {
        0
    };
    &&& parts.len() == beside + below
    &&& lw > kerf ==> {
        let p = parts[0];
        &&& p.sheet_idx == fr.sheet_idx
        &&& p.x == fr.x + w + kerf
        &&& p.y == fr.y
        &&& p.w == lw - kerf
        &&& p.h == if lh < lw {
            fr.h as int
        } else {
            h
        }
    }
    &&& lh > kerf ==> {
        let p = parts[beside];
        &&& p.sheet_idx == fr.sheet_idx
        &&& p.x == fr.x
        &&& p.y == fr.y + h + kerf
        &&& p.h == lh - kerf
        &&& p.w == if lh < lw {
            w
        } else {
            fr.w as int
        }
    }
}

/// From `a` to `b` one piece more is laid in the corner of room number `slot`, and the rest of
/// the room is sawn.
pub open spec fn saws(
    problem: FlatProblem,
    a: Pack,
    b: Pack,
    piece_idx: usize,
    slot: int,
    turned: bool,
) -> bool {
    let piece = problem.pieces@[piece_idx as int];
    let fr = room(problem.sheet, a, slot);
    let old = slot < a.free.len();
    let kept = if old {
        a.free.len() - 1
    } else {
        a.free.len() as int
    };
    &&& 0 <= slot <= a.free.len()
    &&& goes(fr, piece, turned)
    &&& !old ==> goes_nowhere(a.free, piece)
    &&& b.sheets == if old {
        a.sheets
    } else {
        a.sheets + 1
    }
    &&& b.placements == a.placements.push(
        Placement { sheet_idx: fr.sheet_idx, piece_idx, x: fr.x, y: fr.y, rotated: turned },
    )
    &&& b.free.len() >= kept
    &&& forall|j: int|
        0 <= j < kept ==> #[trigger] b.free[j] == a.free[if j < slot {
            j
        } else {
            j + 1
        }]
    &&& sawn_left(
        fr,
        lying_w(piece, turned),
        lying_h(piece, turned),
        problem.kerf as int,
        b.free.subrange(kept, b.free.len() as int),
    )
}

/// Gene `k` lays its piece in the corner of the free rectangle that its selector points at, or
/// the next one ahead that the piece goes into, round the end of the list, and of a new sheet
/// only where it goes into none; it lies as the gene wishes where that goes.
pub proof fn law_gene_lays_its_piece(problem: FlatProblem, genome: Seq<Gene>, k: nat)
    requires
        decodable(problem, genome),
        genome.len() <= usize::MAX,
        k < genome.len(),
    ensures
        ({
            let gene = genome[k as int];
            let piece = problem.pieces@[gene.piece_idx as int];
            let a = decoded(problem, genome, k);
            let b = decoded(problem, genome, k + 1);
            exists|slot: int, turned: bool|
                {
                    &&& #[trigger] saws(problem, a, b, gene.piece_idx, slot, turned)
                    &&& turned_as_wished(
                        room(problem.sheet, a, slot),
                        piece,
                        gene.rotate,
                        turned,
                    )
                    &&& slot < a.free.len() ==> nearest(
                        a.free,
                        piece,
                        gene.point_selector as int % a.free.len() as int,
                        slot,
                    )
                }
        }),
{
    let gene = genome[k as int];
    let piece = problem.pieces@[gene.piece_idx as int];
    let a = decoded(problem, genome, k);
    let b = decoded(problem, genome, k + 1);
    lemma_decoded(problem, genome, k);
    let n = a.free.len() as int;
    let found = selected_fit(a.free, piece, gene.rotate, gene.point_selector);
    if n > 0 {
        let start = gene.point_selector as int % n;
        vstd::arithmetic::div_mod::lemma_mod_bound(gene.point_selector as int, n);
        assert forall|j: int| 0 <= j < n && ahead(j, start, n) < 0 implies !goes(
            #[trigger] a.free[j],
            piece,
            false,
        ) && !goes(a.free[j], piece, true) by {
            lemma_ahead(j, start, n);
        }
        lemma_first_fit_nearest(a.free, piece, gene.rotate, start, 0);
    }
    let whole = sheet_cell(problem.sheet, a.sheets);
    lemma_fit_any(sheet_cell(problem.sheet, 0), whole, piece, false, gene.rotate);
    let (slot, turned) = match found {
        Some(s) => (s.0, s.3),
        None => (n, (fit(whole, piece, gene.rotate)->0).2),
    };
    let fr = room(problem.sheet, a, slot);
    if slot < n {
        lemma_free_within(plain(problem), a, slot);
    }
    let from = if slot < n {
        a
    } else {
        opened(problem.sheet, a)
    };
    assert(from.free[slot] == fr);
    let parts = sawn_parts(fr, piece.placed_w(turned), piece.placed_h(turned), problem.kerf);
    let kept = from.free.len() - 1;
    assert(b.free == from.free.remove(slot) + parts);
    assert(b.free.subrange(kept, b.free.len() as int) =~= parts);
    assert forall|j: int| 0 <= j < kept implies #[trigger] b.free[j] == a.free[if j < slot {
        j
    } else {
        j + 1
    }] by {
        assert(from.free.remove(slot)[j] == from.free[if j < slot {
            j
        } else {
            j + 1
        }]);
    }
    assert(saws(problem, a, b, gene.piece_idx, slot, turned));
}

} // verus!
