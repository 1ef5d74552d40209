//! Placing pieces into free rectangles, cut by cut.

use vstd::multiset::Multiset;
use vstd::prelude::*;
use vstd::seq_lib::*;

use crate::guillotine::lemma_packed_well_placed;
use crate::layout::{
    apart, bottom_part, left_part, lemma_packed_apart, lemma_packed_fewer, lemma_packed_none,
    lemma_packed_open, lemma_packed_refine, lemma_packed_within, packed, right_part, slices,
    slicing_ok, top_part, Slicing,
};
use crate::model::{
    cells, in_sheet, sheet_cell, well_placed, FreeRect, Piece, Placement, Problem, Sheet,
};
use crate::offcuts::{gradable, lemma_gradable, scorable};

verus! {

/// State of a packing: the free rectangles, what is placed, and the number of sheets.
pub struct Pack {
    pub free: Seq<FreeRect>,
    pub placements: Seq<Placement>,
    pub sheets: int,
}

pub open spec fn pack_of(free: Seq<FreeRect>, placements: Seq<Placement>, sheets: int) -> Pack {
    Pack { free, placements, sheets }
}

/// One whole sheet, nothing placed.
pub open spec fn fresh(sheet: Sheet) -> Pack {
    Pack { free: seq![sheet_cell(sheet, 0)], placements: Seq::empty(), sheets: 1 }
}

/// One more whole sheet.
pub open spec fn opened(sheet: Sheet, st: Pack) -> Pack {
    Pack {
        free: st.free.push(sheet_cell(sheet, st.sheets)),
        placements: st.placements,
        sheets: st.sheets + 1,
    }
}

/// What is left of `fr` beside and below a `pw` x `ph` piece in its corner. The full cut runs
/// horizontally (below the piece) or vertically (beside it); leftovers without area are
/// dropped.
pub open spec fn split_parts(fr: FreeRect, pw: u32, ph: u32, horizontal: bool) -> Seq<FreeRect> {
    let right = if horizontal {
        right_part(top_part(fr, ph), pw)
    } else {
        right_part(fr, pw)
    };
    let bottom = if horizontal {
        bottom_part(fr, ph)
    } else {
        bottom_part(left_part(fr, pw), ph)
    };
    let first = if fr.w > pw {
        seq![right]
    } else {
        Seq::empty()
    };
    if fr.h > ph {
        first.push(bottom)
    } else {
        first
    }
}

/// A piece of `pw` x `ph` is placed in the corner of free rectangle `idx`; the leftovers go to
/// the end of the list.
pub open spec fn placed(
    st: Pack,
    idx: int,
    piece_idx: usize,
    pw: u32,
    ph: u32,
    rotated: bool,
    horizontal: bool,
) -> Pack {
    let fr = st.free[idx];
    Pack {
        free: st.free.remove(idx) + split_parts(fr, pw, ph, horizontal),
        placements: st.placements.push(
            Placement { sheet_idx: fr.sheet_idx, piece_idx, x: fr.x, y: fr.y, rotated },
        ),
        sheets: st.sheets,
    }
}

/// All rectangles of a layout: of the placed pieces and the free ones.
pub open spec fn all_cells(
    pieces: Seq<Piece>,
    placements: Seq<Placement>,
    free: Seq<FreeRect>,
) -> Multiset<FreeRect> {
    cells(pieces, placements).to_multiset().add(free.to_multiset())
}

/// Every placement names a piece.
pub open spec fn known_pieces(problem: Problem, placements: Seq<Placement>) -> bool {
    forall|i: int|
        0 <= i < placements.len() ==> (#[trigger] placements[i]).piece_idx < problem.pieces.len()
}

/// The state is a cutting of its sheets: placed pieces and free rectangles are slices.
pub open spec fn coherent(problem: Problem, st: Pack) -> bool {
    &&& st.sheets >= 1
    &&& known_pieces(problem, st.placements)
    &&& packed(
        problem.sheet,
        st.sheets as nat,
        all_cells(problem.pieces@, st.placements, st.free),
    )
}

/// Placed pieces and leftovers are slices of `n` sheets.
pub open spec fn sliced_sheets(
    problem: Problem,
    placements: Seq<Placement>,
    leftovers: Seq<FreeRect>,
    n: nat,
) -> bool {
    &&& known_pieces(problem, placements)
    &&& packed(problem.sheet, n, all_cells(problem.pieces@, placements, leftovers))
}

/// The layout is a cutting of sheets by edge-to-edge cuts.
pub open spec fn sliced(
    problem: Problem,
    placements: Seq<Placement>,
    leftovers: Seq<FreeRect>,
) -> bool {
    exists|n: nat| #[trigger] sliced_sheets(problem, placements, leftovers, n)
}

/// All pieces have positive sides.
pub open spec fn solid_pieces(problem: Problem) -> bool {
    forall|i: int| 0 <= i < problem.pieces.len() ==> (#[trigger] problem.pieces[i]).solid()
}

/// The indices of the placed pieces, in placement order.
pub open spec fn placed_indices(placements: Seq<Placement>) -> Seq<usize> {
    Seq::new(placements.len(), |i: int| placements[i].piece_idx)
}

/// The sheets of the placements are among the first `n`.
pub open spec fn few_sheets(placements: Seq<Placement>, n: nat) -> bool {
    forall|i: int| 0 <= i < placements.len() ==> (#[trigger] placements[i]).sheet_idx < n
}

/// `placements` holds every piece of the problem exactly once.
pub open spec fn complete(problem: Problem, placements: Seq<Placement>) -> bool {
    &&& placements.len() == problem.pieces.len()
    &&& known_pieces(problem, placements)
    &&& placed_indices(placements).no_duplicates()
}

/// A layout that was made by edge-to-edge cuts lies in its sheets, its pieces do not overlap,
/// and the cuts can be recovered from the placed pieces alone.
pub proof fn law_sliced_is_well_placed(
    problem: Problem,
    placements: Seq<Placement>,
    leftovers: Seq<FreeRect>,
)
    requires
        sliced(problem, placements, leftovers),
        solid_pieces(problem),
    ensures
        well_placed(problem, placements),
{
    let n = choose|n: nat| #[trigger] sliced_sheets(problem, placements, leftovers, n);
    let used = all_cells(problem.pieces@, placements, leftovers);
    assert(cells(problem.pieces@, placements).to_multiset().subset_of(used));
    lemma_packed_well_placed(problem, n, used, placements);
}

/// The leftovers of such a layout lie in their sheets and share no inner point with each
/// other or with a placed piece.
pub proof fn law_leftovers_are_free(
    problem: Problem,
    placements: Seq<Placement>,
    leftovers: Seq<FreeRect>,
)
    requires
        sliced(problem, placements, leftovers),
    ensures
        forall|i: int|
            0 <= i < leftovers.len() ==> (#[trigger] leftovers[i]).right() <= problem.sheet.width
                && leftovers[i].bottom() <= problem.sheet.height,
        forall|i: int, j: int|
            0 <= i < j < leftovers.len() ==> apart(#[trigger] leftovers[i], #[trigger] leftovers[j]),
        forall|i: int, j: int|
            0 <= i < leftovers.len() && 0 <= j < placements.len() ==> apart(
                #[trigger] leftovers[i],
                (#[trigger] placements[j]).cell(problem.pieces@),
            ),
{
    let n = choose|n: nat| #[trigger] sliced_sheets(problem, placements, leftovers, n);
    let sheet = problem.sheet;
    let c = cells(problem.pieces@, placements);
    let cm = c.to_multiset();
    let lm = leftovers.to_multiset();
    let used = all_cells(problem.pieces@, placements, leftovers);
    c.to_multiset_ensures();
    leftovers.to_multiset_ensures();
    assert forall|i: int| 0 <= i < leftovers.len() implies (#[trigger] leftovers[i]).right()
        <= sheet.width && leftovers[i].bottom() <= sheet.height by {
        assert(leftovers.contains(leftovers[i]));
        lemma_packed_within(sheet, n, used, leftovers[i]);
    }
    assert forall|i: int, j: int| 0 <= i < j < leftovers.len() implies apart(
        #[trigger] leftovers[i],
        #[trigger] leftovers[j],
    ) by {
        let (a, b) = (leftovers[i], leftovers[j]);
        let rest = leftovers.remove(j);
        rest.to_multiset_ensures();
        assert(rest[i] == a);
        assert(rest.contains(a));
        assert(rest.to_multiset() =~= lm.remove(b));
        assert(leftovers.contains(b));
        assert(rest.to_multiset().count(a) > 0);
        assert(lm.count(b) > 0);
        assert(lm.remove(b).count(a) > 0);
        let pair = Multiset::singleton(a).add(Multiset::singleton(b));
        assert forall|v: FreeRect| pair.count(v) <= used.count(v) by {}
        lemma_packed_apart(sheet, n, used, a, b);
    }
    assert forall|i: int, j: int|
        0 <= i < leftovers.len() && 0 <= j < placements.len() implies apart(
        #[trigger] leftovers[i],
        (#[trigger] placements[j]).cell(problem.pieces@),
    ) by {
        let (a, b) = (leftovers[i], placements[j].cell(problem.pieces@));
        assert(leftovers.contains(a));
        assert(c[j] == b);
        assert(c.contains(b));
        assert(cm.count(b) > 0 && lm.count(a) > 0);
        let pair = Multiset::singleton(a).add(Multiset::singleton(b));
        assert forall|v: FreeRect| pair.count(v) <= used.count(v) by {}
        lemma_packed_apart(sheet, n, used, a, b);
    }
}

pub proof fn lemma_cells_push(pieces: Seq<Piece>, placements: Seq<Placement>, pl: Placement)
    ensures
        cells(pieces, placements.push(pl)).to_multiset() =~= cells(
            pieces,
            placements,
        ).to_multiset().insert(pl.cell(pieces)),
{
    let c = cells(pieces, placements);
    c.to_multiset_ensures();
    assert(cells(pieces, placements.push(pl)) =~= c.push(pl.cell(pieces)));
}

pub proof fn lemma_fresh(problem: Problem)
    ensures
        coherent(problem, fresh(problem.sheet)),
{
    let st = fresh(problem.sheet);
    lemma_packed_none(problem.sheet);
    lemma_packed_open(problem.sheet, 0, Multiset::empty());
    let c = cells(problem.pieces@, st.placements);
    assert(c =~= Seq::empty());
    let e = Seq::<FreeRect>::empty();
    e.to_multiset_ensures();
    assert(st.free =~= e.push(sheet_cell(problem.sheet, 0)));
    assert(all_cells(problem.pieces@, st.placements, st.free) =~= Multiset::empty().insert(
        sheet_cell(problem.sheet, 0),
    ));
}

pub proof fn lemma_opened(problem: Problem, st: Pack)
    requires
        coherent(problem, st),
        st.sheets <= usize::MAX,
    ensures
        coherent(problem, opened(problem.sheet, st)),
{
    let used = all_cells(problem.pieces@, st.placements, st.free);
    let c = sheet_cell(problem.sheet, st.sheets);
    lemma_packed_open(problem.sheet, st.sheets as nat, used);
    st.free.to_multiset_ensures();
    let st2 = opened(problem.sheet, st);
    assert(all_cells(problem.pieces@, st2.placements, st2.free) =~= used.insert(c));
}

/// A free rectangle lies in its sheet.
pub proof fn lemma_free_within(problem: Problem, st: Pack, idx: int)
    requires
        coherent(problem, st),
        0 <= idx < st.free.len(),
    ensures
        st.free[idx].right() <= problem.sheet.width,
        st.free[idx].bottom() <= problem.sheet.height,
        st.free[idx].sheet_idx < st.sheets,
{
    let used = all_cells(problem.pieces@, st.placements, st.free);
    st.free.to_multiset_ensures();
    assert(st.free.contains(st.free[idx]));
    lemma_packed_within(problem.sheet, st.sheets as nat, used, st.free[idx]);
}

/// A free rectangle is given up for a cutting of it: `more` are the pieces placed on slices of
/// it, `rest` the slices that become free.
pub proof fn lemma_refined(
    problem: Problem,
    st: Pack,
    idx: int,
    u: Slicing,
    more: Seq<Placement>,
    rest: Seq<FreeRect>,
    st2: Pack,
)
    requires
        coherent(problem, st),
        0 <= idx < st.free.len(),
        slicing_ok(u, st.free[idx]),
        known_pieces(problem, more),
        cells(problem.pieces@, more).to_multiset().add(rest.to_multiset()).subset_of(
            slices(u, st.free[idx]),
        ),
        st2.sheets == st.sheets,
        st2.placements == st.placements + more,
        st2.free.to_multiset() == st.free.remove(idx).to_multiset().add(rest.to_multiset()),
    ensures
        coherent(problem, st2),
{
    let pieces = problem.pieces@;
    let fr = st.free[idx];
    let used = all_cells(pieces, st.placements, st.free);
    let parts = cells(pieces, more).to_multiset().add(rest.to_multiset());
    st.free.to_multiset_ensures();
    assert(st.free.contains(fr));
    lemma_packed_refine(problem.sheet, st.sheets as nat, used, fr, u, parts);
    assert(cells(pieces, st2.placements) =~= cells(pieces, st.placements) + cells(pieces, more));
    lemma_multiset_commutative(cells(pieces, st.placements), cells(pieces, more));
    assert(st.free.remove(idx).to_multiset() =~= st.free.to_multiset().remove(fr));
    assert(all_cells(pieces, st2.placements, st2.free) =~= used.remove(fr).add(parts));
    assert forall|i: int| 0 <= i < st2.placements.len() implies (
    #[trigger] st2.placements[i]).piece_idx < problem.pieces.len() by {
        if i < st.placements.len() {
            assert(st2.placements[i] == st.placements[i]);
        } else {
            assert(st2.placements[i] == more[i - st.placements.len()]);
        }
    }
}

/// The cutting of a rectangle that frees its corner.
pub open spec fn corner_slicing(pw: u32, ph: u32, horizontal: bool) -> Slicing {
    if horizontal {
        Slicing::Stacked {
            at: ph,
            top: Box::new(
                Slicing::Beside {
                    at: pw,
                    left: Box::new(Slicing::Whole),
                    right: Box::new(Slicing::Whole),
                },
            ),
            bottom: Box::new(Slicing::Whole),
        }
    } else {
        Slicing::Beside {
            at: pw,
            left: Box::new(
                Slicing::Stacked {
                    at: ph,
                    top: Box::new(Slicing::Whole),
                    bottom: Box::new(Slicing::Whole),
                },
            ),
            right: Box::new(Slicing::Whole),
        }
    }
}

/// The corner of `pw` x `ph`.
pub open spec fn corner(fr: FreeRect, pw: u32, ph: u32) -> FreeRect {
    FreeRect { w: pw, h: ph, ..fr }
}

pub proof fn lemma_corner_slicing(fr: FreeRect, pw: u32, ph: u32, horizontal: bool)
    requires
        pw <= fr.w,
        ph <= fr.h,
    ensures
        slicing_ok(corner_slicing(pw, ph, horizontal), fr),
        split_parts(fr, pw, ph, horizontal).to_multiset().insert(corner(fr, pw, ph)).subset_of(
            slices(corner_slicing(pw, ph, horizontal), fr),
        ),
{
    let u = corner_slicing(pw, ph, horizontal);
    reveal_with_fuel(slicing_ok, 4);
    reveal_with_fuel(slices, 4);
    let right = if horizontal {
        right_part(top_part(fr, ph), pw)
    } else {
        right_part(fr, pw)
    };
    let bottom = if horizontal {
        bottom_part(fr, ph)
    } else {
        bottom_part(left_part(fr, pw), ph)
    };
    let c = corner(fr, pw, ph);
    assert(slices(u, fr) =~= Multiset::empty().insert(right).insert(bottom).insert(c));
    let e = Seq::<FreeRect>::empty();
    e.to_multiset_ensures();
    let first = if fr.w > pw {
        seq![right]
    } else {
        Seq::empty()
    };
    first.to_multiset_ensures();
    assert(seq![right] =~= e.push(right));
    let parts = split_parts(fr, pw, ph, horizontal);
    assert forall|v: FreeRect| parts.to_multiset().insert(c).count(v) <= slices(u, fr).count(
        v,
    ) by {}
}

/// Placing a piece that fits keeps the state coherent.
pub proof fn lemma_placed(
    problem: Problem,
    st: Pack,
    idx: int,
    piece_idx: usize,
    pw: u32,
    ph: u32,
    rotated: bool,
    horizontal: bool,
)
    requires
        coherent(problem, st),
        0 <= idx < st.free.len(),
        piece_idx < problem.pieces.len(),
        pw == problem.pieces[piece_idx as int].placed_w(rotated),
        ph == problem.pieces[piece_idx as int].placed_h(rotated),
        pw <= st.free[idx].w,
        ph <= st.free[idx].h,
    ensures
        coherent(problem, placed(st, idx, piece_idx, pw, ph, rotated, horizontal)),
{
    let fr = st.free[idx];
    let st2 = placed(st, idx, piece_idx, pw, ph, rotated, horizontal);
    let pl = Placement { sheet_idx: fr.sheet_idx, piece_idx, x: fr.x, y: fr.y, rotated };
    let parts = split_parts(fr, pw, ph, horizontal);
    lemma_corner_slicing(fr, pw, ph, horizontal);
    lemma_multiset_commutative(st.free.remove(idx), parts);
    assert(st2.placements =~= st.placements + seq![pl]);
    let none = Seq::<Placement>::empty();
    lemma_cells_push(problem.pieces@, none, pl);
    assert(none.push(pl) =~= seq![pl]);
    assert(cells(problem.pieces@, none) =~= Seq::empty());
    Seq::<FreeRect>::empty().to_multiset_ensures();
    assert(cells(problem.pieces@, seq![pl]).to_multiset().add(parts.to_multiset())
        =~= parts.to_multiset().insert(corner(fr, pw, ph)));
    lemma_refined(
        problem,
        st,
        idx,
        corner_slicing(pw, ph, horizontal),
        seq![pl],
        parts,
        st2,
    );
}

/// What is right of a `pw` x `ph` corner, whatever its area.
pub open spec fn right_rest(fr: FreeRect, pw: u32, ph: u32, horizontal: bool) -> FreeRect {
    if horizontal {
        right_part(top_part(fr, ph), pw)
    } else {
        right_part(fr, pw)
    }
}

/// What is below a `pw` x `ph` corner, whatever its area.
pub open spec fn bottom_rest(fr: FreeRect, pw: u32, ph: u32, horizontal: bool) -> FreeRect {
    if horizontal {
        bottom_part(fr, ph)
    } else {
        bottom_part(left_part(fr, pw), ph)
    }
}

/// A piece takes the corner of free rectangle `idx`; what is right of it takes the place of
/// the rectangle, and what is below it is added where `keep_bottom` holds.
pub proof fn lemma_cornered(
    problem: Problem,
    st: Pack,
    idx: int,
    pl: Placement,
    horizontal: bool,
    keep_bottom: bool,
    st2: Pack,
)
    requires
        coherent(problem, st),
        0 <= idx < st.free.len(),
        pl.piece_idx < problem.pieces.len(),
        pl.cell(problem.pieces@).w <= st.free[idx].w,
        pl.cell(problem.pieces@).h <= st.free[idx].h,
        pl.cell(problem.pieces@) == corner(
            st.free[idx],
            pl.cell(problem.pieces@).w,
            pl.cell(problem.pieces@).h,
        ),
        st2.sheets == st.sheets,
        st2.placements == st.placements.push(pl),
        ({
            let c = pl.cell(problem.pieces@);
            let one = st.free.remove(idx).to_multiset().insert(
                right_rest(st.free[idx], c.w, c.h, horizontal),
            );
            st2.free.to_multiset() == if keep_bottom {
                one.insert(bottom_rest(st.free[idx], c.w, c.h, horizontal))
            } else {
                one
            }
        }),
    ensures
        coherent(problem, st2),
{
    let fr = st.free[idx];
    let c = pl.cell(problem.pieces@);
    let (pw, ph) = (c.w, c.h);
    let right = right_rest(fr, pw, ph, horizontal);
    let bottom = bottom_rest(fr, pw, ph, horizontal);
    let u = corner_slicing(pw, ph, horizontal);
    reveal_with_fuel(slicing_ok, 4);
    reveal_with_fuel(slices, 4);
    assert(slicing_ok(u, fr));
    assert(slices(u, fr) =~= Multiset::empty().insert(right).insert(bottom).insert(c));
    let rest = if keep_bottom {
        Seq::empty().push(right).push(bottom)
    } else {
        Seq::empty().push(right)
    };
    let e = Seq::<FreeRect>::empty();
    e.to_multiset_ensures();
    e.push(right).to_multiset_ensures();
    let none = Seq::<Placement>::empty();
    lemma_cells_push(problem.pieces@, none, pl);
    assert(none.push(pl) =~= seq![pl]);
    assert(cells(problem.pieces@, none) =~= Seq::empty());
    assert(st2.placements =~= st.placements + seq![pl]);
    assert(cells(problem.pieces@, seq![pl]).to_multiset() =~= Multiset::empty().insert(c));
    assert(rest.to_multiset() =~= if keep_bottom {
        Multiset::empty().insert(right).insert(bottom)
    } else {
        Multiset::empty().insert(right)
    });
    assert(st2.free.to_multiset() =~= st.free.remove(idx).to_multiset().add(rest.to_multiset()));
    lemma_refined(problem, st, idx, u, seq![pl], rest, st2);
}

/// Replacing one item of a list.
pub proof fn lemma_update_multiset(s: Seq<FreeRect>, i: int, v: FreeRect)
    requires
        0 <= i < s.len(),
    ensures
        s.update(i, v).to_multiset() == s.remove(i).to_multiset().insert(v),
{
    assert(s.update(i, v) =~= s.remove(i).insert(i, v));
    to_multiset_insert(s.remove(i), i, v);
}

/// Free rectangles may be given up.
pub proof fn lemma_fewer_free(problem: Problem, st: Pack, st2: Pack)
    requires
        coherent(problem, st),
        st2.placements == st.placements,
        st2.sheets == st.sheets,
        st2.free.to_multiset().subset_of(st.free.to_multiset()),
    ensures
        coherent(problem, st2),
{
    let used = all_cells(problem.pieces@, st.placements, st.free);
    let fewer = all_cells(problem.pieces@, st.placements, st2.free);
    assert forall|v: FreeRect| fewer.count(v) <= used.count(v) by {
        assert(st2.free.to_multiset().count(v) <= st.free.to_multiset().count(v));
    }
    lemma_packed_fewer(problem.sheet, st.sheets as nat, used, fewer);
}

/// A cutting whose leftovers are not listed.
pub proof fn lemma_without_leftovers(problem: Problem, st: Pack, none: Seq<FreeRect>)
    requires
        coherent(problem, st),
        none.len() == 0,
    ensures
        sliced(problem, st.placements, none),
{
    assert(none =~= Seq::empty());
    none.to_multiset_ensures();
    let st2 = pack_of(none, st.placements, st.sheets);
    lemma_fewer_free(problem, st, st2);
    assert(sliced_sheets(problem, st.placements, none, st.sheets as nat));
}

/// Placed pieces lie in their sheets.
pub proof fn lemma_placed_within(problem: Problem, st: Pack)
    requires
        coherent(problem, st),
    ensures
        forall|i: int|
            0 <= i < st.placements.len() ==> {
                &&& in_sheet(problem, #[trigger] st.placements[i])
                &&& st.placements[i].sheet_idx < st.sheets
            },
{
    let c = cells(problem.pieces@, st.placements);
    let used = all_cells(problem.pieces@, st.placements, st.free);
    c.to_multiset_ensures();
    assert forall|i: int| 0 <= i < st.placements.len() implies {
        &&& in_sheet(problem, #[trigger] st.placements[i])
        &&& st.placements[i].sheet_idx < st.sheets
    } by {
        assert(c[i] == st.placements[i].cell(problem.pieces@));
        assert(c.contains(c[i]));
        lemma_packed_within(problem.sheet, st.sheets as nat, used, c[i]);
    }
}

/// The scores of a coherent state can be computed where the problem is of moderate size.
pub proof fn lemma_coherent_gradable(problem: Problem, st: Pack)
    requires
        coherent(problem, st),
        st.sheets <= usize::MAX,
        scorable(problem.sheet, st.placements.len()),
    ensures
        gradable(problem, st.placements),
{
    lemma_placed_within(problem, st);
    lemma_gradable(problem, st.placements);
}

pub proof fn lemma_coherent_sliced(problem: Problem, st: Pack)
    requires
        coherent(problem, st),
    ensures
        few_sheets(st.placements, st.sheets as nat),
        sliced(problem, st.placements, st.free),
{
    lemma_placed_within(problem, st);
    assert(sliced_sheets(problem, st.placements, st.free, st.sheets as nat));
}

} // verus!
