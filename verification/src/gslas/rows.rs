//! What decoding a gene into strips does: which free rectangle every strip goes into, how its
//! pieces lie there, and what remains free.

use vstd::prelude::*;

use super::decoder::{
    decoded, lemma_strip_step, strip_count, strip_height, strip_laid, strip_placement, strip_spot,
    strip_step, strip_width, strips, strips_ok,
};
use crate::expand::copies;
use crate::glas::batches::{lemma_nearest, smaller};
use crate::glas::decoder::{copies_of, decoding_ok, genes_ok, GeneView};
use crate::heuristic::gbaf::all_fit;
use crate::laying::{
    goes, goes_nowhere, lying_h, lying_w, room, strips_left, turned_as_wished,
};
use crate::model::{sheet_cell, PieceType, Problem};
use crate::packing::{
    lemma_free_within, opened, placed_indices, solid_pieces, split_parts, Pack,
};
use crate::slas::decoder::{fits_sheet, lemma_fit_any, nearest};

verus! {

/// From `a` to `b` one strip of a gene is laid, from copy `from` up to copy `to`; `start` and
/// `end` are the first copy of the type and the one behind its last. The strip lies in the corner
/// of the room that the selector points at, or the next one ahead that the piece goes into, or of
/// a new sheet where it goes into none. It is a row as long as fits, or a column for an inverse
/// copy, all copies the way round that the gene wishes where that goes. The cut runs along the
/// longer leftover, or the other way for an inverse copy.
pub open spec fn stripped(
    problem: Problem,
    gene: GeneView,
    a: Pack,
    b: Pack,
    from: int,
    to: int,
    start: int,
    end: int,
    slot: int,
    turned: bool,
) -> bool {
    let piece = problem.pieces@[from];
    let fr = room(problem.sheet, a, slot);
    let w = lying_w(piece, turned);
    let h = lying_h(piece, turned);
    let inverse = gene.inverses[from - start];
    let n = to - from;
    let bw = if inverse {
        w
    } else {
        n * w
    };
    let bh = if inverse {
        n * h
    } else {
        h
    };
    let kept = if slot < a.free.len() {
        a.free.len() - 1
    } else {
        a.free.len() as int
    };
    let done = a.placements.len() as int;
    &&& 0 <= slot <= a.free.len()
    &&& goes(fr, piece, turned)
    &&& turned_as_wished(fr, piece, gene.rotate, turned)
    &&& slot == a.free.len() ==> goes_nowhere(a.free, piece)
    &&& slot < a.free.len() ==> nearest(
        a.free,
        piece,
        gene.selectors[from - start] as int % a.free.len() as int,
        slot,
    )
    &&& n == smaller(
        end - from,
        if inverse {
            fr.h as int / h
        } else {
            fr.w as int / w
        },
    )
    &&& b.sheets == if slot < a.free.len() {
        a.sheets
    } else {
        a.sheets + 1
    }
    &&& b.placements.len() == done + n
    &&& b.placements.take(done) == a.placements
    &&& forall|i: int|
        0 <= i < n ==> {
            let pl = #[trigger] b.placements.skip(done)[i];
            &&& pl.sheet_idx == fr.sheet_idx
            &&& pl.piece_idx == from + i
            &&& pl.rotated == turned
            &&& pl.x == if inverse {
                fr.x as int
            } else {
                fr.x + i * w
            }
            &&& pl.y == if inverse {
                fr.y + i * h
            } else {
                fr.y as int
            }
        }
    &&& kept <= b.free.len()
    &&& forall|j: int|
        0 <= j < kept ==> #[trigger] b.free[j] == a.free[if j < slot {
            j
        } else {
            j + 1
        }]
    &&& strips_left(
        fr,
        bw,
        bh,
        inverse != (fr.w - bw <= fr.h - bh),
        b.free.skip(kept),
    )
}

/// One strip of a gene is laid, in some room and some way round.
pub open spec fn one_strip(
    problem: Problem,
    gene: GeneView,
    a: Pack,
    b: Pack,
    from: int,
    to: int,
    start: int,
    end: int,
) -> bool {
    exists|slot: int, turned: bool|
        #[trigger] stripped(problem, gene, a, b, from, to, start, end, slot, turned)
}

/// A gene lays its copies strip by strip: number `m` leads from `packs[m]` to `packs[m + 1]` and
/// lays the copies from `cuts[m]` up to `cuts[m + 1]`.
pub open spec fn in_strips(
    problem: Problem,
    gene: GeneView,
    start: int,
    end: int,
    packs: Seq<Pack>,
    cuts: Seq<int>,
) -> bool {
    &&& packs.len() >= 1
    &&& packs.len() == cuts.len()
    &&& cuts.last() == end
    &&& forall|m: int|
        0 <= m < packs.len() - 1 ==> one_strip(
            problem,
            gene,
            #[trigger] packs[m],
            packs[m + 1],
            cuts[m],
            cuts[m + 1],
            start,
            end,
        )
}

/// Where a strip begins.
proof fn lemma_spot(
    problem: Problem,
    st: Pack,
    i: int,
    wish: bool,
    selector: u32,
)
    requires
        0 <= i < problem.pieces@.len(),
        fits_sheet(problem, i),
    ensures
        ({
            let piece = problem.pieces@[i];
            let (st2, spot) = strip_spot(problem, st, piece, wish, selector);
            let fr = room(problem.sheet, st, spot.0);
            &&& 0 <= spot.0 <= st.free.len()
            &&& spot.0 < st.free.len() ==> nearest(
                st.free,
                piece,
                selector as int % st.free.len() as int,
                spot.0,
            )
            &&& spot.0 == st.free.len() ==> goes_nowhere(st.free, piece)
            &&& st2 == if spot.0 < st.free.len() {
                st
            } else {
                opened(problem.sheet, st)
            }
            &&& st2.free[spot.0] == fr
            &&& goes(fr, piece, spot.3)
            &&& turned_as_wished(fr, piece, wish, spot.3)
            &&& spot.1 == lying_w(piece, spot.3)
            &&& spot.2 == lying_h(piece, spot.3)
        }),
{
    let piece = problem.pieces@[i];
    lemma_nearest(st.free, piece, wish, selector);
    let whole = sheet_cell(problem.sheet, st.sheets);
    lemma_fit_any(sheet_cell(problem.sheet, 0), whole, piece, false, wish);
}

/// The shape of a strip that is laid.
proof fn lemma_strip_shape(
    st: Pack,
    slot: int,
    pw: u32,
    ph: u32,
    turned: bool,
    inverse: bool,
    first: int,
    remaining: int,
)
    requires
        0 <= slot < st.free.len(),
        1 <= pw <= st.free[slot].w,
        1 <= ph <= st.free[slot].h,
        remaining >= 1,
        st.free[slot].right() <= u32::MAX,
        st.free[slot].bottom() <= u32::MAX,
        0 <= first,
        first + remaining <= usize::MAX,
    ensures
        ({
            let fr = st.free[slot];
            let (w, h) = (pw as int, ph as int);
            let n = strip_count(fr, pw, ph, remaining, inverse);
            let b = strip_laid(st, slot, pw, ph, turned, inverse, first, n);
            let bw = if inverse {
                w
            } else {
                n * w
            };
            let bh = if inverse {
                n * h
            } else {
                h
            };
            let kept = st.free.len() - 1;
            let done = st.placements.len() as int;
            &&& 1 <= n
            &&& n == smaller(
                remaining,
                if inverse {
                    fr.h as int / h
                } else {
                    fr.w as int / w
                },
            )
            &&& b.sheets == st.sheets
            &&& kept <= b.free.len()
            &&& forall|j: int|
                0 <= j < kept ==> #[trigger] b.free[j] == st.free[if j < slot {
                    j
                } else {
                    j + 1
                }]
            &&& strips_left(
                fr,
                bw,
                bh,
                inverse != (fr.w - bw <= fr.h - bh),
                b.free.skip(kept),
            )
            &&& b.placements.len() == done + n
            &&& b.placements.take(done) == st.placements
            &&& forall|i: int|
                0 <= i < n ==> {
                    let pl = #[trigger] b.placements.skip(done)[i];
                    &&& pl.sheet_idx == fr.sheet_idx
                    &&& pl.piece_idx == first + i
                    &&& pl.rotated == turned
                    &&& pl.x == if inverse {
                        fr.x as int
                    } else {
                        fr.x + i * w
                    }
                    &&& pl.y == if inverse {
                        fr.y + i * h
                    } else {
                        fr.y as int
                    }
                }
        }),
{
    let fr = st.free[slot];
    let (w, h) = (pw as int, ph as int);
    let n = strip_count(fr, pw, ph, remaining, inverse);
    let (side, len) = if inverse {
        (fr.h as int, h)
    } else {
        (fr.w as int, w)
    };
    let most = side / len;
    vstd::arithmetic::div_mod::lemma_fundamental_div_mod(side, len);
    vstd::arithmetic::div_mod::lemma_mod_bound(side, len);
    vstd::arithmetic::div_mod::lemma_div_non_zero(side, len);
    assert(n * len <= len * most && n * len >= len) by (nonlinear_arith)
        requires
            1 <= n <= most,
            len >= 1,
    ;
    let b = strip_laid(st, slot, pw, ph, turned, inverse, first, n);
    let (cw, ch) = (strip_width(pw, n, inverse) as u32, strip_height(ph, n, inverse) as u32);
    assert(cw <= fr.w && ch <= fr.h);
    let across = crate::slas::decoder::slas_direction(fr, cw, ch, inverse);
    let parts = split_parts(fr, cw, ch, across);
    let kept = st.free.len() - 1;
    assert(b.free == st.free.remove(slot) + parts);
    assert(b.free.skip(kept) =~= parts);
    assert forall|j: int| 0 <= j < kept implies #[trigger] b.free[j] == st.free[if j < slot {
        j
    } else {
        j + 1
    }] by {
        assert(b.free[j] == st.free.remove(slot)[j]);
    }
    let done = st.placements.len() as int;
    let more = Seq::new(
        n as nat,
        |j: int| strip_placement(fr, pw, ph, first, turned, inverse, j),
    );
    assert(b.placements =~= st.placements + more);
    assert(b.placements.take(done) =~= st.placements);
    assert(b.placements.skip(done) =~= more);
    assert forall|i: int| 0 <= i < n implies ({
        let pl = #[trigger] b.placements.skip(done)[i];
        &&& pl.sheet_idx == fr.sheet_idx
        &&& pl.piece_idx == first + i
        &&& pl.rotated == turned
        &&& pl.x == if inverse {
            fr.x as int
        } else {
            fr.x + i * w
        }
        &&& pl.y == if inverse {
            fr.y + i * h
        } else {
            fr.y as int
        }
    }) by {
        assert(b.placements.skip(done)[i] == strip_placement(
            fr,
            pw,
            ph,
            first,
            turned,
            inverse,
            i,
        ));
        assert(0 <= i * len <= n * len) by (nonlinear_arith)
            requires
                0 <= i < n,
                len >= 1,
        ;
    }
}

/// One step of the executable decoder lays one strip.
proof fn lemma_stripped(
    problem: Problem,
    types: Seq<PieceType>,
    st: Pack,
    gene: GeneView,
    next: Seq<int>,
    t: int,
)
    requires
        copies_of(problem, types),
        solid_pieces(problem),
        all_fit(problem),
        problem.pieces@.len() < usize::MAX,
        0 <= t < types.len(),
        next.len() == types.len(),
        next[t] < copies(types, (t + 1) as nat),
        strips_ok(problem, types, st, next),
    ensures
        ({
            let start = copies(types, t as nat) as int;
            let end = copies(types, (t + 1) as nat) as int;
            let (st2, next2) = strip_step(problem, st, gene, start, next[t], end);
            one_strip(problem, gene, st, st2, next[t], next2, start, end)
        }),
{
    let start = copies(types, t as nat) as int;
    let end = copies(types, (t + 1) as nat) as int;
    let at = next[t];
    assert(copies(types, t as nat) <= next[t]);
    lemma_strip_step(problem, types, st, gene, next, t);
    let piece = problem.pieces@[at];
    let selector = gene.selectors[at - start];
    let inverse = gene.inverses[at - start];
    assert(fits_sheet(problem, at));
    lemma_spot(problem, st, at, gene.rotate, selector);
    let (st1, spot) = strip_spot(problem, st, piece, gene.rotate, selector);
    lemma_free_within(problem, st1, spot.0);
    lemma_strip_shape(st1, spot.0, spot.1, spot.2, spot.3, inverse, at, end - at);
    let (st2, next2) = strip_step(problem, st, gene, start, at, end);
    let kept = st1.free.len() - 1;
    assert forall|j: int| 0 <= j < kept implies #[trigger] st2.free[j] == st.free[if j < spot.0 {
        j
    } else {
        j + 1
    }] by {
        assert(st2.free[j] == st1.free[if j < spot.0 {
            j
        } else {
            j + 1
        }]);
    }
    assert(stripped(problem, gene, st, st2, at, next2, start, end, spot.0, spot.3));
}

proof fn lemma_in_strips(
    problem: Problem,
    types: Seq<PieceType>,
    st: Pack,
    gene: GeneView,
    next: Seq<int>,
    t: int,
) -> (c: (Seq<Pack>, Seq<int>))
    requires
        copies_of(problem, types),
        solid_pieces(problem),
        all_fit(problem),
        problem.pieces@.len() < usize::MAX,
        0 <= t < types.len(),
        next.len() == types.len(),
        strips_ok(problem, types, st, next),
    ensures
        ({
            let start = copies(types, t as nat) as int;
            let end = copies(types, (t + 1) as nat) as int;
            let z = strips(problem, st, gene, start, next[t], end);
            &&& in_strips(problem, gene, start, end, c.0, c.1)
            &&& c.0[0] == st
            &&& c.1[0] == next[t]
            &&& c.0.last() == z
            &&& strips_ok(problem, types, z, next.update(t, end))
        }),
    decreases copies(types, (t + 1) as nat) - next[t],
{
    let start = copies(types, t as nat) as int;
    let end = copies(types, (t + 1) as nat) as int;
    assert(copies(types, t as nat) <= next[t] <= copies(types, (t + 1) as nat));
    if next[t] >= end {
        assert(next.update(t, end) =~= next);
        (seq![st], seq![next[t]])
    } else {
        lemma_strip_step(problem, types, st, gene, next, t);
        lemma_stripped(problem, types, st, gene, next, t);
        let (st2, next2) = strip_step(problem, st, gene, start, next[t], end);
        let now = next.update(t, next2);
        let (packs, cuts) = lemma_in_strips(problem, types, st2, gene, now, t);
        assert(now.update(t, end) =~= next.update(t, end));
        let ps = seq![st] + packs;
        let cs = seq![next[t]] + cuts;
        assert forall|m: int| 0 <= m < ps.len() - 1 implies one_strip(
            problem,
            gene,
            #[trigger] ps[m],
            ps[m + 1],
            cs[m],
            cs[m + 1],
            start,
            end,
        ) by {
            assert(ps[m + 1] == packs[m] && cs[m + 1] == cuts[m]);
            if m > 0 {
                assert(ps[m] == packs[m - 1] && cs[m] == cuts[m - 1]);
                assert(packs[m] == packs[(m - 1) + 1] && cuts[m] == cuts[(m - 1) + 1]);
            }
        }
        assert(ps.last() == packs.last());
        assert(cs.last() == cuts.last());
        (ps, cs)
    }
}

proof fn lemma_decoding(problem: Problem, types: Seq<PieceType>, genes: Seq<GeneView>, k: nat)
    requires
        copies_of(problem, types),
        solid_pieces(problem),
        all_fit(problem),
        problem.pieces@.len() < usize::MAX,
        genes_ok(types, genes),
        k <= genes.len(),
    ensures
        decoding_ok(problem, types, decoded(problem, types, genes, k)),
    decreases k,
{
    if k == 0 {
        let d = decoded(problem, types, genes, 0);
        crate::packing::lemma_fresh(problem);
        assert(placed_indices(d.pack.placements) =~= Seq::empty());
        assert forall|t: int| 0 <= t < types.len() implies copies(types, t as nat)
            <= #[trigger] d.next[t] <= copies(types, (t + 1) as nat) by {}
    } else {
        let m = (k - 1) as nat;
        lemma_decoding(problem, types, genes, m);
        let d = decoded(problem, types, genes, m);
        let gene = genes[k - 1];
        let _ = lemma_in_strips(problem, types, d.pack, gene, d.next, gene.type_idx as int);
    }
}

/// Gene `k` lays all copies of its type that are not laid yet, strip by strip.
pub proof fn law_gene_lays_strips(
    problem: Problem,
    types: Seq<PieceType>,
    genes: Seq<GeneView>,
    k: nat,
)
    requires
        copies_of(problem, types),
        solid_pieces(problem),
        all_fit(problem),
        problem.pieces@.len() < usize::MAX,
        genes_ok(types, genes),
        k < genes.len(),
    ensures
        ({
            let gene = genes[k as int];
            let t = gene.type_idx as int;
            let start = copies(types, t as nat) as int;
            let end = copies(types, (t + 1) as nat) as int;
            let a = decoded(problem, types, genes, k);
            let b = decoded(problem, types, genes, k + 1);
            &&& b.next == a.next.update(t, end)
            &&& exists|packs: Seq<Pack>, cuts: Seq<int>|
                {
                    &&& #[trigger] in_strips(problem, gene, start, end, packs, cuts)
                    &&& packs[0] == a.pack
                    &&& packs.last() == b.pack
                    &&& cuts[0] == a.next[t]
                }
        }),
{
    lemma_decoding(problem, types, genes, k);
    let a = decoded(problem, types, genes, k);
    let gene = genes[k as int];
    let t = gene.type_idx as int;
    let (packs, cuts) = lemma_in_strips(problem, types, a.pack, gene, a.next, t);
    assert(in_strips(
        problem,
        gene,
        copies(types, t as nat) as int,
        copies(types, (t + 1) as nat) as int,
        packs,
        cuts,
    ));
}

} // verus!
