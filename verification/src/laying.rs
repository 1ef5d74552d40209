//! What it means to lay a piece in a free rectangle.

use vstd::prelude::*;

use crate::model::{FreeRect, Piece, Placement, Sheet};
use crate::packing::{opened, placed, Pack};

verus! {

/// The piece goes into the rectangle, turned by a quarter or not, and may be turned so.
pub open spec fn goes(fr: FreeRect, piece: Piece, turned: bool) -> bool {
    if turned {
        piece.can_rotate && piece.height <= fr.w && piece.width <= fr.h
    } else {
        piece.width <= fr.w && piece.height <= fr.h
    }
}

/// The piece goes into none of the rectangles, in no orientation that it may have.
pub open spec fn goes_nowhere(free: Seq<FreeRect>, piece: Piece) -> bool {
    forall|j: int|
        0 <= j < free.len() ==> !goes(#[trigger] free[j], piece, false) && !goes(
            free[j],
            piece,
            true,
        )
}

/// The orientation is the wished one where the piece goes into the rectangle so, and the other
/// one else. A piece that may not turn is not wished turned.
pub open spec fn turned_as_wished(fr: FreeRect, piece: Piece, wish: bool, turned: bool) -> bool {
    if goes(fr, piece, wish && piece.can_rotate) {
        turned == (wish && piece.can_rotate)
    } else {
        turned != (wish && piece.can_rotate)
    }
}

/// Free rectangle number `slot`, and behind the last one a whole new sheet.
pub open spec fn room(sheet: Sheet, st: Pack, slot: int) -> FreeRect {
    if slot < st.free.len() {
        st.free[slot]
    } else {
        FreeRect { sheet_idx: st.sheets as usize, x: 0, y: 0, w: sheet.width, h: sheet.height }
    }
}

/// The rectangles that remain beside and below a `w` x `h` corner of `fr`. The one below is as
/// wide as `fr` if `across`, else the one beside is as high as `fr`.
pub open spec fn strips_left(fr: FreeRect, w: int, h: int, across: bool, parts: Seq<FreeRect>) -> bool {
    let beside: int = if w < fr.w {
        1
    } else {
        0
    };
    let below: int = if h < fr.h {
        1
    } else {
        0
    };
    &&& parts.len() == beside + below
    &&& w < fr.w ==> {
        let p = parts[0];
        &&& p.sheet_idx == fr.sheet_idx
        &&& p.x == fr.x + w
        &&& p.y == fr.y
        &&& p.w == fr.w - w
        &&& p.h == if across {
            h
        } else {
            fr.h as int
        }
    }
    &&& h < fr.h ==> {
        let p = parts[beside];
        &&& p.sheet_idx == fr.sheet_idx
        &&& p.x == fr.x
        &&& p.y == fr.y + h
        &&& p.h == fr.h - h
        &&& p.w == if across {
            fr.w as int
        } else {
            w
        }
    }
}

/// The sides of a piece as it lies.
pub open spec fn lying_w(piece: Piece, turned: bool) -> int {
    if turned {
        piece.height as int
    } else {
        piece.width as int
    }
}

pub open spec fn lying_h(piece: Piece, turned: bool) -> int {
    if turned {
        piece.width as int
    } else {
        piece.height as int
    }
}

/// From `a` to `b` one piece more is laid, in the corner of room number `slot`: of a free
/// rectangle that it goes into, or of a new sheet where it goes into none. The other free
/// rectangles stay as they are, and what remains of the one that was taken goes behind them.
pub open spec fn lays(
    sheet: Sheet,
    a: Pack,
    b: Pack,
    piece: Piece,
    piece_idx: usize,
    slot: int,
    turned: bool,
    across: bool,
) -> bool {
    let fr = room(sheet, a, slot);
    let old = slot < a.free.len();
    let kept = if old {
        a.free.len() - 1
    } else {
        a.free.len() as int
    };
    &&& 0 <= slot <= a.free.len()
    &&& goes(fr, piece, turned)
    &&& !old ==> goes_nowhere(a.free, piece)
    &&& b.sheets == if old {
        a.sheets
    } else {
        a.sheets + 1
    }
    &&& b.placements == a.placements.push(
        Placement { sheet_idx: fr.sheet_idx, piece_idx, x: fr.x, y: fr.y, rotated: turned },
    )
    &&& b.free.len() >= kept
    &&& forall|j: int|
        0 <= j < kept ==> #[trigger] b.free[j] == a.free[if j < slot {
            j
        } else {
            j + 1
        }]
    &&& strips_left(
        fr,
        lying_w(piece, turned),
        lying_h(piece, turned),
        across,
        b.free.subrange(kept, b.free.len() as int),
    )
}

/// How far `j` lies behind `start`, counted forward and round the end of `n`.
pub open spec fn ahead(j: int, start: int, n: int) -> int {
    if j >= start {
        j - start
    } else {
        j - start + n
    }
}

/// Placing in the corner of a room lays the piece there.
pub proof fn lemma_lays(
    sheet: Sheet,
    st: Pack,
    piece: Piece,
    piece_idx: usize,
    slot: int,
    turned: bool,
    across: bool,
)
    requires
        0 <= slot <= st.free.len(),
        goes(room(sheet, st, slot), piece, turned),
        slot == st.free.len() ==> goes_nowhere(st.free, piece),
        room(sheet, st, slot).right() <= u32::MAX,
        room(sheet, st, slot).bottom() <= u32::MAX,
    ensures
        ({
            let from = if slot < st.free.len() {
                st
            } else {
                opened(sheet, st)
            };
            lays(
                sheet,
                st,
                placed(
                    from,
                    slot,
                    piece_idx,
                    piece.placed_w(turned),
                    piece.placed_h(turned),
                    turned,
                    across,
                ),
                piece,
                piece_idx,
                slot,
                turned,
                across,
            )
        }),
{
    let fr = room(sheet, st, slot);
    let from = if slot < st.free.len() {
        st
    } else {
        opened(sheet, st)
    };
    assert(from.free[slot] == fr);
    let kept = from.free.len() - 1;
    let parts = crate::packing::split_parts(
        fr,
        piece.placed_w(turned),
        piece.placed_h(turned),
        across,
    );
    let b = placed(
        from,
        slot,
        piece_idx,
        piece.placed_w(turned),
        piece.placed_h(turned),
        turned,
        across,
    );
    assert(b.free == from.free.remove(slot) + parts);
    assert(b.free.subrange(kept, b.free.len() as int) =~= parts);
    assert forall|j: int| 0 <= j < kept implies #[trigger] b.free[j] == st.free[if j < slot {
        j
    } else {
        j + 1
    }] by {
        assert(from.free.remove(slot)[j] == from.free[if j < slot {
            j
        } else {
            j + 1
        }]);
    }
}

/// Counting forward by as much as `j` lies ahead of `start` reaches `j`.
pub proof fn lemma_ahead(j: int, start: int, n: int)
    requires
        0 <= j < n,
        0 <= start < n,
    ensures
        0 <= ahead(j, start, n) < n,
        (start + ahead(j, start, n)) % n == j,
{
    vstd::arithmetic::div_mod::lemma_small_mod(j as nat, n as nat);
    if j < start {
        vstd::arithmetic::div_mod::lemma_mod_add_multiples_vanish(j, n);
    }
}

} // verus!
