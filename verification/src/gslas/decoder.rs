//! Decodes one gene per piece type: all copies of a type are placed, strip by strip.

use vstd::prelude::*;

pub use crate::glas::decoder::Gene;

use crate::expand::{
    copies, expand_problem, is_expansion, lemma_copies_grow, lemma_layout_shrinkable,
    shrink_solution, shrunk_as, workable,
};
use crate::glas::decoder::{
    class_view, copies_of, decoded_types, decoding_ok, distinct_types, genes_ok, lemma_all_decoded,
    lemma_expansion_copies, lemma_of_type_unique, lemma_placed_more, lemma_some_missing, of_type,
    placed_exactly, Decoding, GeneView,
};
use crate::heuristic::gbaf::all_fit;
use crate::model::{
    sheet_cell, FreeRect, Piece, PieceType, Placement, Problem, ProblemSpec, Solution,
    SolutionSpec,
};
use crate::packing::{
    coherent, complete, corner, corner_slicing, few_sheets, fresh, lemma_coherent_sliced,
    lemma_corner_slicing, lemma_free_within, lemma_fresh, lemma_opened, lemma_placed, lemma_refined,
    opened, pack_of, placed, placed_indices, sliced, solid_pieces, split_parts, Pack,
};
use crate::slas::decoder::{
    find_placement, fit, fits_sheet, guillotine_split, lemma_first_fit, lemma_fit_any,
    open_new_sheet, selected_fit, sheet_rect, slas_direction, Spot,
};
use crate::small::FreeList;

verus! {

/// One gene per piece type.
pub type Genome = Vec<Gene>;

/// Number of pieces in a strip: as many as fit in the rectangle and are left.
pub open spec fn strip_count(fr: FreeRect, pw: u32, ph: u32, remaining: int, inverse: bool) -> int {
    let room = if inverse {
        fr.h as int / ph as int
    } else {
        fr.w as int / pw as int
    };
    if remaining < room {
        remaining
    } else {
        room
    }
}

/// Width of a strip: a row of pieces, or a column where `inverse`.
pub open spec fn strip_width(pw: u32, n: int, inverse: bool) -> int {
    if inverse {
        pw as int
    } else {
        n * pw
    }
}

/// Height of a strip.
pub open spec fn strip_height(ph: u32, n: int, inverse: bool) -> int {
    if inverse {
        n * ph
    } else {
        ph as int
    }
}

/// How many pieces fit in one strip, and the size of the strip.
pub fn strip_pack(fr: &FreeRect, pw: u32, ph: u32, remaining: usize, inverse: bool) -> (r: (
    usize,
    u32,
    u32,
))
    requires
        1 <= pw <= fr.w,
        1 <= ph <= fr.h,
        remaining >= 1,
    ensures
        r.0 == strip_count(*fr, pw, ph, remaining as int, inverse),
        r.1 == strip_width(pw, r.0 as int, inverse),
        r.2 == strip_height(ph, r.0 as int, inverse),
        1 <= r.0 <= remaining,
        r.1 <= fr.w,
        r.2 <= fr.h,
{
    let (side, len): (u32, u32) = if inverse {
        (fr.h, ph)
    } else {
        (fr.w, pw)
    };
    let room: u32 = side / len;
    let n: u32 = if remaining < room as usize {
        remaining as u32
    } else {
        room
    };
    proof {
        vstd::arithmetic::div_mod::lemma_fundamental_div_mod(side as int, len as int);
        vstd::arithmetic::div_mod::lemma_mod_bound(side as int, len as int);
        vstd::arithmetic::div_mod::lemma_div_is_ordered(len as int, side as int, len as int);
        vstd::arithmetic::div_mod::lemma_div_basics(len as int);
        assert(n * len <= room * len) by (nonlinear_arith)
            requires
                n <= room,
                len >= 0,
        ;
        assert(room * len == len * room) by (nonlinear_arith);
    }
    if inverse {
        (n as usize, pw, n * ph)
    } else {
        (n as usize, n * pw, ph)
    }
}

/// Piece number `j` of a strip.
pub open spec fn strip_placement(
    fr: FreeRect,
    pw: u32,
    ph: u32,
    first: int,
    rotated: bool,
    inverse: bool,
    j: int,
) -> Placement {
    Placement {
        sheet_idx: fr.sheet_idx,
        piece_idx: (first + j) as usize,
        x: if inverse {
            fr.x
        } else {
            (fr.x + j * pw) as u32
        },
        y: if inverse {
            (fr.y + j * ph) as u32
        } else {
            fr.y
        },
        rotated,
    }
}

/// A strip of `n` pieces laid in the corner of free rectangle `idx`.
pub open spec fn strip_laid(
    st: Pack,
    idx: int,
    pw: u32,
    ph: u32,
    rotated: bool,
    inverse: bool,
    first: int,
    n: int,
) -> Pack {
    let fr = st.free[idx];
    let (cw, ch) = (
        strip_width(pw, n, inverse) as u32,
        strip_height(ph, n, inverse) as u32,
    );
    Pack {
        free: st.free.remove(idx) + split_parts(fr, cw, ch, slas_direction(fr, cw, ch, inverse)),
        placements: st.placements + Seq::new(
            n as nat,
            |j: int| strip_placement(fr, pw, ph, first, rotated, inverse, j),
        ),
        sheets: st.sheets,
    }
}

/// What is left of a strip behind its first `j` pieces.
spec fn strip_rest(fr: FreeRect, pw: u32, ph: u32, n: int, inverse: bool, j: int) -> FreeRect {
    FreeRect {
        sheet_idx: fr.sheet_idx,
        x: if inverse {
            fr.x
        } else {
            (fr.x + j * pw) as u32
        },
        y: if inverse {
            (fr.y + j * ph) as u32
        } else {
            fr.y
        },
        w: if inverse {
            pw
        } else {
            ((n - j) * pw) as u32
        },
        h: if inverse {
            ((n - j) * ph) as u32
        } else {
            ph
        },
    }
}

/// The first `j` pieces of a strip laid, the rest of it still free, as the last rectangle.
spec fn strip_part(
    st: Pack,
    idx: int,
    pw: u32,
    ph: u32,
    rotated: bool,
    inverse: bool,
    first: int,
    n: int,
    j: int,
) -> Pack {
    let whole = strip_laid(st, idx, pw, ph, rotated, inverse, first, n);
    let fr = st.free[idx];
    Pack {
        free: if j < n {
            whole.free.push(strip_rest(fr, pw, ph, n, inverse, j))
        } else {
            whole.free
        },
        placements: st.placements + Seq::new(
            j as nat,
            |i: int| strip_placement(fr, pw, ph, first, rotated, inverse, i),
        ),
        sheets: st.sheets,
    }
}

/// The pieces of a strip are of one size.
spec fn strip_pieces(problem: Problem, first: int, n: int, pw: u32, ph: u32, rotated: bool) -> bool {
    &&& 0 <= first
    &&& first + n <= problem.pieces@.len()
    &&& problem.pieces@.len() <= usize::MAX
    &&& forall|i: int|
        first <= i < first + n ==> (#[trigger] problem.pieces@[i]).placed_w(rotated) == pw
            && problem.pieces@[i].placed_h(rotated) == ph
}

proof fn lemma_strip_start(
    problem: Problem,
    st: Pack,
    idx: int,
    pw: u32,
    ph: u32,
    rotated: bool,
    inverse: bool,
    first: int,
    n: int,
)
    requires
        coherent(problem, st),
        0 <= idx < st.free.len(),
        n >= 1,
        0 <= strip_width(pw, n, inverse) <= st.free[idx].w,
        0 <= strip_height(ph, n, inverse) <= st.free[idx].h,
    ensures
        coherent(problem, strip_part(st, idx, pw, ph, rotated, inverse, first, n, 0)),
{
    let fr = st.free[idx];
    let (cw, ch) = (
        strip_width(pw, n, inverse) as u32,
        strip_height(ph, n, inverse) as u32,
    );
    let hz = slas_direction(fr, cw, ch, inverse);
    let parts = split_parts(fr, cw, ch, hz);
    let cell = corner(fr, cw, ch);
    let rest = parts.push(cell);
    lemma_corner_slicing(fr, cw, ch, hz);
    parts.to_multiset_ensures();
    let none = Seq::<Placement>::empty();
    let nocells = crate::model::cells(problem.pieces@, none);
    nocells.to_multiset_ensures();
    assert(nocells.to_multiset() =~= vstd::multiset::Multiset::empty());
    let st2 = strip_part(st, idx, pw, ph, rotated, inverse, first, n, 0);
    assert(st2.placements =~= st.placements + none);
    assert(strip_rest(fr, pw, ph, n, inverse, 0) == cell);
    let removed = st.free.remove(idx);
    assert(st2.free =~= removed + rest);
    vstd::seq_lib::lemma_multiset_commutative(removed, rest);
    assert(nocells.to_multiset().add(rest.to_multiset()) =~= parts.to_multiset().insert(cell));
    lemma_refined(problem, st, idx, corner_slicing(cw, ch, hz), none, rest, st2);
}

proof fn lemma_strip_next(
    problem: Problem,
    st: Pack,
    idx: int,
    pw: u32,
    ph: u32,
    rotated: bool,
    inverse: bool,
    first: int,
    n: int,
    j: int,
)
    requires
        coherent(problem, st),
        0 <= idx < st.free.len(),
        1 <= pw,
        1 <= ph,
        0 <= j < n,
        strip_width(pw, n, inverse) <= st.free[idx].w,
        strip_height(ph, n, inverse) <= st.free[idx].h,
        strip_pieces(problem, first, n, pw, ph, rotated),
        coherent(problem, strip_part(st, idx, pw, ph, rotated, inverse, first, n, j)),
    ensures
        coherent(problem, strip_part(st, idx, pw, ph, rotated, inverse, first, n, j + 1)),
{
    let a = strip_part(st, idx, pw, ph, rotated, inverse, first, n, j);
    let b = strip_part(st, idx, pw, ph, rotated, inverse, first, n, j + 1);
    let fr = st.free[idx];
    let last = a.free.len() - 1;
    let rest = strip_rest(fr, pw, ph, n, inverse, j);
    lemma_free_within(problem, st, idx);
    let len = if inverse {
        ph as int
    } else {
        pw as int
    };
    assert((n - j) * len <= n * len && 0 <= j * len <= n * len && (n - j) * len == n * len - j
        * len && (n - j - 1) * len == (n - j) * len - len && (j + 1) * len == j * len + len
        && (n - j) * len >= len) by (nonlinear_arith)
        requires
            0 <= j < n,
            len >= 1,
    ;
    if n - j - 1 >= 1 {
        assert((n - j - 1) * len >= 1) by (nonlinear_arith)
            requires
                n - j - 1 >= 1,
                len >= 1,
        ;
    }
    assert(a.free[last] == rest);
    let p = problem.pieces@[first + j];
    assert(p.placed_w(rotated) == pw && p.placed_h(rotated) == ph);
    let hz = inverse;
    lemma_placed(problem, a, last, (first + j) as usize, pw, ph, rotated, hz);
    let c = placed(a, last, (first + j) as usize, pw, ph, rotated, hz);
    let whole = strip_laid(st, idx, pw, ph, rotated, inverse, first, n);
    assert(a.free.remove(last) =~= whole.free);
    let next = strip_rest(fr, pw, ph, n, inverse, j + 1);
    if j + 1 < n {
        assert(split_parts(rest, pw, ph, hz) =~= seq![next]);
        assert(c.free =~= whole.free.push(next));
    } else {
        assert((n - j) * len == len) by (nonlinear_arith)
            requires
                n - j == 1,
        ;
        assert(split_parts(rest, pw, ph, hz) =~= Seq::empty());
        assert(c.free =~= whole.free);
    }
    let pl = strip_placement(fr, pw, ph, first, rotated, inverse, j);
    assert(c.placements =~= b.placements);
}

proof fn lemma_strip_laid(
    problem: Problem,
    st: Pack,
    idx: int,
    pw: u32,
    ph: u32,
    rotated: bool,
    inverse: bool,
    first: int,
    n: int,
    j: nat,
)
    requires
        coherent(problem, st),
        0 <= idx < st.free.len(),
        1 <= pw,
        1 <= ph,
        1 <= n,
        j <= n,
        0 <= strip_width(pw, n, inverse) <= st.free[idx].w,
        0 <= strip_height(ph, n, inverse) <= st.free[idx].h,
        strip_pieces(problem, first, n, pw, ph, rotated),
    ensures
        coherent(problem, strip_part(st, idx, pw, ph, rotated, inverse, first, n, j as int)),
    decreases j,
{
    if j == 0 {
        lemma_strip_start(problem, st, idx, pw, ph, rotated, inverse, first, n);
    } else {
        let k = (j - 1) as nat;
        lemma_strip_laid(problem, st, idx, pw, ph, rotated, inverse, first, n, k);
        lemma_strip_next(problem, st, idx, pw, ph, rotated, inverse, first, n, k as int);
    }
}

/// Where a strip begins: the state with a new sheet where that is needed, and the spot of its
/// first piece.
pub open spec fn strip_spot(
    problem: Problem,
    st: Pack,
    piece: Piece,
    rotate: bool,
    selector: u32,
) -> (Pack, (int, u32, u32, bool)) {
    match selected_fit(st.free, piece, rotate, selector) {
        Some(s) => (st, s),
        None => {
            let f = fit(sheet_cell(problem.sheet, st.sheets), piece, rotate)->0;
            (opened(problem.sheet, st), (st.free.len() as int, f.0, f.1, f.2))
        },
    }
}

/// One strip of a type: the state afterwards and the index of the next copy.
pub open spec fn strip_step(
    problem: Problem,
    st: Pack,
    gene: GeneView,
    start: int,
    next: int,
    end: int,
) -> (Pack, int) {
    let done = next - start;
    let inverse = gene.inverses[done];
    let (st2, spot) = strip_spot(
        problem,
        st,
        problem.pieces@[next],
        gene.rotate,
        gene.selectors[done],
    );
    let n = strip_count(st2.free[spot.0], spot.1, spot.2, end - next, inverse);
    (strip_laid(st2, spot.0, spot.1, spot.2, spot.3, inverse, next, n), next + n)
}

/// All strips of a type.
pub open spec fn strips(
    problem: Problem,
    st: Pack,
    gene: GeneView,
    start: int,
    next: int,
    end: int,
) -> Pack
    decreases end - next,
{
    if next >= end {
        st
    } else {
        let (st2, next2) = strip_step(problem, st, gene, start, next, end);
        if next2 > next {
            strips(problem, st2, gene, start, next2, end)
        } else {
            st2
        }
    }
}

/// One gene: all copies of its type that are left.
pub open spec fn strip_gene(
    problem: Problem,
    types: Seq<PieceType>,
    d: Decoding,
    gene: GeneView,
) -> Decoding {
    let t = gene.type_idx as int;
    let start = copies(types, t as nat) as int;
    let end = copies(types, (t + 1) as nat) as int;
    Decoding {
        pack: strips(problem, d.pack, gene, start, d.next[t], end),
        next: d.next.update(t, end),
    }
}

/// The first `k` genes.
pub open spec fn decoded(
    problem: Problem,
    types: Seq<PieceType>,
    genes: Seq<GeneView>,
    k: nat,
) -> Decoding
    decreases k,
{
    if k == 0 {
        Decoding {
            pack: fresh(problem.sheet),
            next: Seq::new(types.len(), |t: int| copies(types, t as nat) as int),
        }
    } else {
        strip_gene(problem, types, decoded(problem, types, genes, (k - 1) as nat), genes[k - 1])
    }
}

/// The state while the strips of a type are laid.
pub(crate) open spec fn strips_ok(problem: Problem, types: Seq<PieceType>, st: Pack, next: Seq<int>) -> bool {
    decoding_ok(problem, types, Decoding { pack: st, next })
}

/// Where a strip begins there is room for its first piece, and so for the strip.
proof fn lemma_strip_spot(
    problem: Problem,
    st: Pack,
    at: int,
    rotate: bool,
    selector: u32,
    inverse: bool,
    remaining: int,
)
    requires
        coherent(problem, st),
        0 <= at < problem.pieces@.len(),
        fits_sheet(problem, at),
        problem.pieces[at].solid(),
        remaining >= 1,
        st.sheets < usize::MAX,
    ensures
        ({
            let (st1, spot) = strip_spot(problem, st, problem.pieces@[at], rotate, selector);
            let fr = st1.free[spot.0];
            let n = strip_count(fr, spot.1, spot.2, remaining, inverse);
            &&& coherent(problem, st1)
            &&& st1 == st || st1 == opened(problem.sheet, st)
            &&& st == fresh(problem.sheet) ==> st1 == st
            &&& 0 <= spot.0 < st1.free.len()
            &&& 1 <= spot.1 <= fr.w
            &&& 1 <= spot.2 <= fr.h
            &&& fit(fr, problem.pieces@[at], rotate) == Some((spot.1, spot.2, spot.3))
            &&& 1 <= n <= remaining
            &&& 0 <= strip_width(spot.1, n, inverse) <= fr.w
            &&& 0 <= strip_height(spot.2, n, inverse) <= fr.h
        }),
{
    let piece = problem.pieces@[at];
    lemma_fit_any(
        sheet_cell(problem.sheet, 0),
        sheet_cell(problem.sheet, st.sheets),
        piece,
        false,
        rotate,
    );
    if st.free.len() > 0 {
        lemma_first_fit(st.free, piece, rotate, selector as int % (st.free.len() as int), 0);
    }
    lemma_opened(problem, st);
    if st == fresh(problem.sheet) {
        lemma_fit_any(
            sheet_cell(problem.sheet, 0),
            sheet_cell(problem.sheet, 0),
            piece,
            false,
            rotate,
        );
        assert(st.free.len() == 1 && st.free[0] == sheet_cell(problem.sheet, 0));
        assert(selector as int % 1 == 0);
        assert(selected_fit(st.free, piece, rotate, selector) is Some);
    }
    let (st1, spot) = strip_spot(problem, st, piece, rotate, selector);
    let fr = st1.free[spot.0];
    let (pw, ph) = (spot.1, spot.2);
    let n = strip_count(fr, pw, ph, remaining, inverse);
    let (side, len) = if inverse {
        (fr.h as int, ph as int)
    } else {
        (fr.w as int, pw as int)
    };
    let room = side / len;
    vstd::arithmetic::div_mod::lemma_fundamental_div_mod(side, len);
    vstd::arithmetic::div_mod::lemma_mod_bound(side, len);
    vstd::arithmetic::div_mod::lemma_div_is_ordered(len, side, len);
    vstd::arithmetic::div_mod::lemma_div_basics(len);
    assert(n >= 1);
    assert(0 <= n * len <= room * len) by (nonlinear_arith)
        requires
            0 <= n <= room,
            len >= 0,
    ;
    assert(room * len == len * room) by (nonlinear_arith);
}

/// While copies of a type are left, fewer pieces are placed than there are.
proof fn lemma_copies_left(
    problem: Problem,
    types: Seq<PieceType>,
    next: Seq<int>,
    s: Seq<usize>,
    t: int,
)
    requires
        copies_of(problem, types),
        problem.pieces@.len() < usize::MAX,
        0 <= t < types.len(),
        next.len() == types.len(),
        copies(types, t as nat) <= next[t] < copies(types, (t + 1) as nat),
        placed_exactly(types, next, s),
    ensures
        s.len() < problem.pieces@.len(),
        copies(types, (t + 1) as nat) <= problem.pieces@.len(),
{
    lemma_copies_grow(types, (t + 1) as nat, types.len());
    let v = next[t] as usize;
    if s.contains(v) {
        let q = choose|q: int| #[trigger] of_type(types, q, v as int) && v < next[q];
        assert(of_type(types, t, v as int));
        lemma_of_type_unique(types, t, q, v as int);
    }
    lemma_some_missing(problem, types, next, s, v);
}

/// A strip of copies of a type laid where it begins.
#[verifier::rlimit(40)]
proof fn lemma_strip_coherent(
    problem: Problem,
    types: Seq<PieceType>,
    st: Pack,
    gene: GeneView,
    t: int,
    at: int,
)
    requires
        copies_of(problem, types),
        solid_pieces(problem),
        all_fit(problem),
        problem.pieces@.len() < usize::MAX,
        0 <= t < types.len(),
        copies(types, t as nat) <= at < copies(types, (t + 1) as nat) <= problem.pieces@.len(),
        coherent(problem, st),
        st.sheets < usize::MAX,
    ensures
        ({
            let start = copies(types, t as nat) as int;
            let end = copies(types, (t + 1) as nat) as int;
            let (st1, spot) = strip_spot(
                problem,
                st,
                problem.pieces@[at],
                gene.rotate,
                gene.selectors[at - start],
            );
            let (st2, next2) = strip_step(problem, st, gene, start, at, end);
            &&& coherent(problem, st1)
            &&& st1 == st || st1 == opened(problem.sheet, st)
            &&& st == fresh(problem.sheet) ==> st1 == st
            &&& 0 <= spot.0 < st1.free.len()
            &&& 1 <= spot.1 <= st1.free[spot.0].w
            &&& 1 <= spot.2 <= st1.free[spot.0].h
            &&& at < next2 <= end
            &&& coherent(problem, st2)
            &&& st2.sheets == st1.sheets
            &&& placed_indices(st2.placements) == placed_indices(st.placements) + Seq::new(
                (next2 - at) as nat,
                |i: int| (at + i) as usize,
            )
        }),
{
    let start = copies(types, t as nat) as int;
    let end = copies(types, (t + 1) as nat) as int;
    let piece = problem.pieces@[at];
    assert(fits_sheet(problem, at));
    assert(problem.pieces[at].solid());
    let selector = gene.selectors[at - start];
    let inverse = gene.inverses[at - start];
    lemma_strip_spot(problem, st, at, gene.rotate, selector, inverse, end - at);
    let (st1, spot) = strip_spot(problem, st, piece, gene.rotate, selector);
    let fr = st1.free[spot.0];
    let (pw, ph, rotated) = (spot.1, spot.2, spot.3);
    let n = strip_count(fr, pw, ph, end - at, inverse);
    assert(of_type(types, t, at));
    assert forall|i: int| at <= i < at + n implies (#[trigger] problem.pieces@[i]).placed_w(rotated)
        == pw && problem.pieces@[i].placed_h(rotated) == ph by {
        assert(of_type(types, t, i));
    }
    lemma_strip_laid(problem, st1, spot.0, pw, ph, rotated, inverse, at, n, n as nat);
    let st2 = strip_laid(st1, spot.0, pw, ph, rotated, inverse, at, n);
    assert(strip_part(st1, spot.0, pw, ph, rotated, inverse, at, n, n) == st2);
    assert(placed_indices(st2.placements) =~= placed_indices(st.placements) + Seq::new(
        n as nat,
        |i: int| (at + i) as usize,
    ));
}

/// One strip keeps the state in order.
pub(crate) proof fn lemma_strip_step(
    problem: Problem,
    types: Seq<PieceType>,
    st: Pack,
    gene: GeneView,
    next: Seq<int>,
    t: int,
)
    requires
        copies_of(problem, types),
        solid_pieces(problem),
        all_fit(problem),
        problem.pieces@.len() < usize::MAX,
        0 <= t < types.len(),
        next.len() == types.len(),
        next[t] < copies(types, (t + 1) as nat),
        strips_ok(problem, types, st, next),
    ensures
        ({
            let start = copies(types, t as nat) as int;
            let end = copies(types, (t + 1) as nat) as int;
            let (st1, spot) = strip_spot(
                problem,
                st,
                problem.pieces@[next[t]],
                gene.rotate,
                gene.selectors[next[t] - start],
            );
            let (st2, next2) = strip_step(problem, st, gene, start, next[t], end);
            &&& coherent(problem, st1)
            &&& st.sheets < usize::MAX
            &&& end <= problem.pieces@.len()
            &&& 0 <= spot.0 < st1.free.len()
            &&& 1 <= spot.1 <= st1.free[spot.0].w
            &&& 1 <= spot.2 <= st1.free[spot.0].h
            &&& next[t] < next2 <= end
            &&& strips_ok(problem, types, st2, next.update(t, next2))
        }),
{
    let start = copies(types, t as nat) as int;
    let end = copies(types, (t + 1) as nat) as int;
    let at = next[t];
    let s = placed_indices(st.placements);
    assert(copies(types, t as nat) <= next[t]);
    lemma_copies_left(problem, types, next, s, t);
    assert(s.len() == st.placements.len());
    lemma_strip_coherent(problem, types, st, gene, t, at);
    let (st2, next2) = strip_step(problem, st, gene, start, at, end);
    lemma_placed_more(types, next, s, t, at, next2);
    let now = next.update(t, next2);
    assert forall|u: int| 0 <= u < types.len() implies copies(types, u as nat)
        <= #[trigger] now[u] <= copies(types, (u + 1) as nat) by {
        assert(copies(types, u as nat) <= next[u] <= copies(types, (u + 1) as nat));
    }
    assert(placed_indices(st2.placements).len() == st2.placements.len());
}

/// Places one strip; returns how many pieces it has.
fn place_strip(
    problem: &Problem,
    free: &mut FreeList,
    placements: &mut Vec<Placement>,
    spot: Spot,
    inverse: bool,
    first: usize,
    remaining: usize,
    Ghost(sheets): Ghost<int>,
) -> (n: usize)
    requires
        spot.0 < old(free)@.len(),
        1 <= spot.1 <= old(free)@[spot.0 as int].w,
        1 <= spot.2 <= old(free)@[spot.0 as int].h,
        old(free)@[spot.0 as int].right() <= u32::MAX,
        old(free)@[spot.0 as int].bottom() <= u32::MAX,
        remaining >= 1,
        first + remaining <= usize::MAX,
    ensures
        n == strip_count(
            old(free)@[spot.0 as int],
            spot.1,
            spot.2,
            remaining as int,
            inverse,
        ),
        1 <= n <= remaining,
        pack_of(final(free)@, final(placements)@, sheets) == strip_laid(
            pack_of(old(free)@, old(placements)@, sheets),
            spot.0 as int,
            spot.1,
            spot.2,
            spot.3,
            inverse,
            first as int,
            n as int,
        ),
{
    let (idx, pw, ph, rotated) = spot;
    let ghost st = pack_of(free@, placements@, sheets);
    let fr = free.remove(idx);
    let (n, cw, ch) = strip_pack(&fr, pw, ph, remaining, inverse);
    let ghost base = placements@;
    let mut j: usize = 0;
    assert(placements@ =~= base + Seq::new(
        0,
        |i: int| strip_placement(fr, pw, ph, first as int, rotated, inverse, i),
    ));
    while j < n
        invariant
            j <= n,
            1 <= pw,
            1 <= ph,
            n <= remaining,
            first + remaining <= usize::MAX,
            cw == strip_width(pw, n as int, inverse),
            ch == strip_height(ph, n as int, inverse),
            cw <= fr.w,
            ch <= fr.h,
            fr.right() <= u32::MAX,
            fr.bottom() <= u32::MAX,
            placements@ == base + Seq::new(
                j as nat,
                |i: int| strip_placement(fr, pw, ph, first as int, rotated, inverse, i),
            ),
        decreases n - j,
    {
        let len: u32 = if inverse {
            ph
        } else {
            pw
        };
        proof {
            assert(j * len <= n * len && 0 <= j * len) by (nonlinear_arith)
                requires
                    0 <= j <= n,
                    len >= 0,
            ;
            if !inverse {
                assert(n * pw == cw);
            } else {
                assert(n * ph == ch);
            }
            assert(j <= j * len) by (nonlinear_arith)
                requires
                    0 <= j,
                    len >= 1,
            ;
        }
        let off: u32 = if j == 0 {
            0
        } else {
            j as u32 * len
        };
        let pl = if inverse {
            Placement {
                sheet_idx: fr.sheet_idx,
                piece_idx: first + j,
                x: fr.x,
                y: fr.y + off,
                rotated,
            }
        } else {
            Placement {
                sheet_idx: fr.sheet_idx,
                piece_idx: first + j,
                x: fr.x + off,
                y: fr.y,
                rotated,
            }
        };
        proof {
            if j == 0 {
                assert(j * len == 0) by (nonlinear_arith)
                    requires
                        j == 0,
                ;
            }
            assert(pl == strip_placement(fr, pw, ph, first as int, rotated, inverse, j as int));
        }
        placements.push(pl);
        j += 1;
        assert(placements@ =~= base + Seq::new(
            j as nat,
            |i: int| strip_placement(fr, pw, ph, first as int, rotated, inverse, i),
        ));
    }
    let lw: u32 = fr.w - cw;
    let lh: u32 = fr.h - ch;
    let splits = guillotine_split(&fr, cw, ch, inverse);
    let mut si: usize = 0;
    if lw > 0 {
        free.push(splits.at(si));
        si = 1;
    }
    if lh > 0 {
        free.push(splits.at(si));
    }
    assert(free@ =~= st.free.remove(idx as int) + splits@);
    n
}

/// Places all copies of a type that are left.
fn place_copies(
    problem: &Problem,
    free: &mut FreeList,
    placements: &mut Vec<Placement>,
    sheets_open: &mut usize,
    gene: &Gene,
    start: usize,
    first: usize,
    end: usize,
    Ghost(types): Ghost<Seq<PieceType>>,
    Ghost(next): Ghost<Seq<int>>,
)
    requires
        copies_of(*problem, types),
        solid_pieces(*problem),
        all_fit(*problem),
        problem.pieces@.len() < usize::MAX,
        gene.type_idx < types.len(),
        start == copies(types, gene.type_idx as nat),
        end == copies(types, (gene.type_idx + 1) as nat),
        start <= first <= end,
        gene.selectors@.len() == types[gene.type_idx as int].count,
        gene.inverses@.len() == types[gene.type_idx as int].count,
        next.len() == types.len(),
        next[gene.type_idx as int] == first,
        strips_ok(
            *problem,
            types,
            pack_of(old(free)@, old(placements)@, *old(sheets_open) as int),
            next,
        ),
    ensures
        pack_of(final(free)@, final(placements)@, *final(sheets_open) as int) == strips(
            *problem,
            pack_of(old(free)@, old(placements)@, *old(sheets_open) as int),
            gene@,
            start as int,
            first as int,
            end as int,
        ),
        strips_ok(
            *problem,
            types,
            pack_of(final(free)@, final(placements)@, *final(sheets_open) as int),
            next.update(gene.type_idx as int, end as int),
        ),
{
    let ghost t = gene.type_idx as int;
    let ghost st0 = pack_of(free@, placements@, *sheets_open as int);
    let mut done: usize = first;
    assert(next.update(t, first as int) =~= next);
    while done < end
        invariant
            start <= done <= end,
            t == gene.type_idx,
            copies_of(*problem, types),
            solid_pieces(*problem),
            all_fit(*problem),
            problem.pieces@.len() < usize::MAX,
            gene.type_idx < types.len(),
            start == copies(types, gene.type_idx as nat),
            end == copies(types, (gene.type_idx + 1) as nat),
            gene.selectors@.len() == types[gene.type_idx as int].count,
            gene.inverses@.len() == types[gene.type_idx as int].count,
            next.len() == types.len(),
            strips(*problem, st0, gene@, start as int, first as int, end as int) == strips(
                *problem,
                pack_of(free@, placements@, *sheets_open as int),
                gene@,
                start as int,
                done as int,
                end as int,
            ),
            strips_ok(
                *problem,
                types,
                pack_of(free@, placements@, *sheets_open as int),
                next.update(t, done as int),
            ),
        decreases end - done,
    {
        let ghost st = pack_of(free@, placements@, *sheets_open as int);
        let ghost now = next.update(t, done as int);
        proof {
            assert(now[t] == done);
            lemma_strip_step(*problem, types, st, gene@, now, t);
        }
        let selector: u32 = gene.selectors.at(done - start);
        let inverse = gene.inverses.at(done - start);
        let piece = &problem.pieces[done];
        let mut found = find_placement(free, piece, gene.rotate, selector);
        if found.is_none() {
            found = open_new_sheet(free, sheets_open, problem, piece, gene.rotate);
        }
        let ghost (st1, spot1) = strip_spot(*problem, st, *piece, gene.rotate, selector);
        proof {
            assert(fits_sheet(*problem, done as int));
            lemma_fit_any(
                sheet_cell(problem.sheet, 0),
                sheet_cell(problem.sheet, st.sheets),
                *piece,
                false,
                gene.rotate,
            );
            assert(st1 == pack_of(free@, placements@, *sheets_open as int));
            lemma_free_within(*problem, st1, spot1.0);
        }
        if let Some(spot) = found {
            let n: usize = place_strip(
                problem,
                free,
                placements,
                spot,
                inverse,
                done,
                end - done,
                Ghost(*sheets_open as int),
            );
            proof {
                let (st2, next2) = strip_step(
                    *problem,
                    st,
                    gene@,
                    start as int,
                    done as int,
                    end as int,
                );
                assert(pack_of(free@, placements@, *sheets_open as int) == st2);
                assert(next2 == done + n);
                assert(now.update(t, next2) =~= next.update(t, next2));
            }
            done = done + n;
        } else {
            return;
        }
    }
}

/// Decodes a genome. For each gene all copies of its type are placed, strip by strip: the
/// selector and the direction that belong to the number of copies placed choose where the strip
/// goes and whether it is a row or a column; the rectangle is split along the shorter leftover
/// of the strip.
pub fn decode(problem: &Problem, spec: &ProblemSpec, genome: &Genome) -> (r: Solution)
    requires
        copies_of(*problem, spec.piece_types@),
        genes_ok(spec.piece_types@, class_view(genome@)),
        solid_pieces(*problem),
        all_fit(*problem),
        problem.pieces@.len() < usize::MAX,
    ensures
        ({
            let d = decoded(
                *problem,
                spec.piece_types@,
                class_view(genome@),
                genome@.len(),
            );
            &&& r.placements@ == d.pack.placements
            &&& r.leftovers@ == d.pack.free
        }),
        sliced(*problem, r.placements@, r.leftovers@),
        few_sheets(r.placements@, r.placements@.len()),
        distinct_types(class_view(genome@)) ==> complete(*problem, r.placements@),
{
    let ghost types = spec.piece_types@;
    let ghost genes = class_view(genome@);
    let n_types: usize = spec.piece_types.len();
    let mut starts: Vec<usize> = Vec::new();
    let mut next: Vec<usize> = Vec::new();
    let mut acc: usize = 0;
    while starts.len() < n_types
        invariant
            starts@.len() <= n_types,
            next@ == starts@,
            n_types == types.len(),
            types == spec.piece_types@,
            copies(types, types.len()) < usize::MAX,
            acc == copies(types, starts@.len()),
            forall|j: int| 0 <= j < starts@.len() ==> #[trigger] starts@[j] == copies(types, j as nat),
        decreases n_types - starts@.len(),
    {
        let t: usize = starts.len();
        proof {
            lemma_copies_grow(types, (t + 1) as nat, types.len());
        }
        starts.push(acc);
        next.push(acc);
        acc = acc + spec.piece_types[t].count as usize;
    }
    starts.push(acc);
    let mut free = FreeList::new();
    free.push(sheet_rect(problem, 0));
    let mut placements: Vec<Placement> = Vec::new();
    let mut sheets_open: usize = 1;
    let ghost mut d = decoded(*problem, types, genes, 0);
    proof {
        assert(free@ =~= fresh(problem.sheet).free);
        assert(placements@ =~= fresh(problem.sheet).placements);
        assert(d.next =~= Seq::new(next@.len(), |i: int| next@[i] as int));
        lemma_fresh(*problem);
        assert(placed_indices(placements@) =~= Seq::empty());
        assert forall|i: int| 0 <= i < types.len() implies copies(types, i as nat)
            <= #[trigger] d.next[i] <= copies(types, (i + 1) as nat) by {}
        assert(placed_exactly(types, d.next, placed_indices(placements@)));
    }
    let mut k: usize = 0;
    while k < genome.len()
        invariant
            k <= genome@.len(),
            types == spec.piece_types@,
            n_types == types.len(),
            genes == class_view(genome@),
            genes_ok(types, genes),
            copies_of(*problem, types),
            solid_pieces(*problem),
            all_fit(*problem),
            problem.pieces@.len() < usize::MAX,
            starts@.len() == n_types + 1,
            forall|j: int| 0 <= j <= n_types ==> #[trigger] starts@[j] == copies(types, j as nat),
            d == decoded(*problem, types, genes, k as nat),
            decoding_ok(*problem, types, d),
            pack_of(free@, placements@, sheets_open as int) == d.pack,
            next@.len() == n_types,
            d.next == Seq::new(next@.len(), |i: int| next@[i] as int),
            decoded_types(types, genes, d.next, k as int),
        decreases genome@.len() - k,
    {
        let gene = &genome[k];
        assert(genes[k as int] == gene@);
        let ti: usize = gene.type_idx;
        let ghost d0 = d;
        assert(starts@[ti as int] == copies(types, ti as nat));
        assert(starts@[ti + 1] == copies(types, (ti + 1) as nat));
        assert(d.next[ti as int] == next@[ti as int]);
        let end: usize = starts[ti + 1];
        place_copies(
            problem,
            &mut free,
            &mut placements,
            &mut sheets_open,
            gene,
            starts[ti],
            next[ti],
            end,
            Ghost(types),
            Ghost(d.next),
        );
        next.set(ti, end);
        proof {
            d = strip_gene(*problem, types, d0, gene@);
            assert(d.next =~= Seq::new(next@.len(), |i: int| next@[i] as int));
            assert(d == decoded(*problem, types, genes, (k + 1) as nat));
        }
        k += 1;
    }
    proof {
        lemma_coherent_sliced(*problem, d.pack);
        let s = placed_indices(placements@);
        assert forall|i: int| 0 <= i < s.len() implies #[trigger] s[i]
            < problem.pieces@.len() by {
            assert(s.contains(s[i]));
            let q = choose|q: int| #[trigger] of_type(types, q, s[i] as int) && s[i] < d.next[q];
            lemma_copies_grow(types, (q + 1) as nat, types.len());
        }
        if distinct_types(genes) {
            lemma_all_decoded(*problem, types, genes, d, s);
        }
    }
    Solution { placements, leftovers: free.into_vec() }
}

/// Decodes a genome into a solution in terms of piece types.
pub fn decode_spec(spec: &ProblemSpec, genome: &Genome) -> (r: SolutionSpec)
    requires
        workable(*spec),
        genes_ok(spec.piece_types@, class_view(genome@)),
        forall|p: Problem| #[trigger]
            is_expansion(*spec, p) ==> solid_pieces(p) && all_fit(p) && p.pieces@.len()
                < usize::MAX,
    ensures
        exists|p: Problem| #[trigger]
            is_expansion(*spec, p) && ({
                let d = decoded(p, spec.piece_types@, class_view(genome@), genome@.len());
                shrunk_as(*spec, r, d.pack.placements, d.pack.free)
            }),
{
    let problem = expand_problem(spec);
    proof {
        assert(spec.piece_types@.len() == spec.piece_types.len());
        lemma_expansion_copies(*spec, problem);
    }
    let sol = decode(&problem, spec, genome);
    proof {
        lemma_layout_shrinkable(*spec, problem, sol);
    }
    let r = shrink_solution(&sol, spec);
    assert(is_expansion(*spec, problem));
    r
}

} // verus!
