//! What the shelf packers share: pieces stand upright and are taken by decreasing height.

use vstd::prelude::*;

use crate::model::{Piece, Problem};
use crate::sorting::{order_of, Order, Ranking};

verus! {

/// The piece is turned to stand upright.
pub open spec fn stands_turned(p: Piece) -> bool {
    p.can_rotate && p.width > p.height
}

/// Width of the piece as it stands.
pub open spec fn stand_w(p: Piece) -> u32 {
    p.placed_w(stands_turned(p))
}

/// Height of the piece as it stands.
pub open spec fn stand_h(p: Piece) -> u32 {
    p.placed_h(stands_turned(p))
}

/// By decreasing height, then by decreasing width, of the pieces as they stand.
pub struct TallOrder {
    pub pieces: Seq<Piece>,
}

impl Order for TallOrder {
    open spec fn ranks(self, i: int) -> bool {
        0 <= i < self.pieces.len()
    }

    open spec fn leq(self, a: int, b: int) -> bool {
        let p = self.pieces[a];
        let q = self.pieces[b];
        stand_h(p) > stand_h(q) || (stand_h(p) == stand_h(q) && stand_w(p) >= stand_w(q))
    }

    proof fn leq_total(self, a: int, b: int) {
    }

    proof fn leq_trans(self, a: int, b: int, c: int) {
    }
}

pub struct TallRanking<'a> {
    pub problem: &'a Problem,
}

impl<'a> Ranking for TallRanking<'a> {
    type Of = TallOrder;

    open spec fn order(&self) -> TallOrder {
        TallOrder { pieces: self.problem.pieces@ }
    }

    fn at_most(&self, a: usize, b: usize) -> (r: bool) {
        let (pw, ph, _) = standing(&self.problem.pieces[a]);
        let (qw, qh, _) = standing(&self.problem.pieces[b]);
        ph > qh || (ph == qh && pw >= qw)
    }
}

/// Width and height of the piece as it stands, and whether that is turned.
pub fn standing(p: &Piece) -> (r: (u32, u32, bool))
    ensures
        r.0 == stand_w(*p),
        r.1 == stand_h(*p),
        r.2 == stands_turned(*p),
{
    if p.can_rotate && p.width > p.height {
        (p.height, p.width, true)
    } else {
        (p.width, p.height, false)
    }
}

/// The pieces by decreasing height.
pub open spec fn by_height(problem: Problem) -> Seq<usize> {
    order_of(TallOrder { pieces: problem.pieces@ }, problem.pieces@.len())
}

/// Every piece fits on an empty sheet as it stands.
pub open spec fn all_stand(problem: Problem) -> bool {
    forall|i: int|
        0 <= i < problem.pieces.len() ==> stand_w(#[trigger] problem.pieces[i])
            <= problem.sheet.width && stand_h(problem.pieces[i]) <= problem.sheet.height
}

/// The greater side of a piece that may turn, else its height.
pub open spec fn upright_h(p: Piece) -> int {
    if p.can_rotate && p.width > p.height {
        p.width as int
    } else {
        p.height as int
    }
}

/// The smaller side of a piece that may turn, else its width.
pub open spec fn upright_w(p: Piece) -> int {
    if p.can_rotate && p.width > p.height {
        p.height as int
    } else {
        p.width as int
    }
}

/// The shelf packers take every piece once, higher ones first; of equally high ones the wider,
/// of equally large ones in the order of the problem. A piece that may turn stands on its
/// smaller side.
pub proof fn law_higher_pieces_first(problem: Problem)
    requires
        problem.pieces@.len() <= usize::MAX,
    ensures
        by_height(problem).len() == problem.pieces@.len(),
        by_height(problem).no_duplicates(),
        forall|i: int|
            0 <= i < by_height(problem).len() ==> #[trigger] by_height(problem)[i]
                < problem.pieces@.len(),
        forall|i: int, j: int|
            0 <= i < j < by_height(problem).len() ==> {
                let a = #[trigger] by_height(problem)[i];
                let b = #[trigger] by_height(problem)[j];
                let p = problem.pieces@[a as int];
                let q = problem.pieces@[b as int];
                &&& upright_h(p) >= upright_h(q)
                &&& upright_h(p) == upright_h(q) ==> upright_w(p) >= upright_w(q)
                &&& upright_h(p) == upright_h(q) && upright_w(p) == upright_w(q) ==> a < b
            },
{
    let n = problem.pieces@.len();
    let rank = TallOrder { pieces: problem.pieces@ };
    crate::sorting::lemma_order_exists(rank, n);
    let s = by_height(problem);
    assert(crate::sorting::in_order(rank, n, s));
    assert forall|i: int, j: int| 0 <= i < s.len() && 0 <= j < s.len() && i != j implies s[i]
        != s[j] by {
        if i < j {
            assert(crate::sorting::precedes(rank, s[i] as int, s[j] as int));
        } else {
            assert(crate::sorting::precedes(rank, s[j] as int, s[i] as int));
        }
    }
    assert forall|i: int, j: int| 0 <= i < j < s.len() implies ({
        let a = #[trigger] s[i];
        let b = #[trigger] s[j];
        let p = problem.pieces@[a as int];
        let q = problem.pieces@[b as int];
        &&& upright_h(p) >= upright_h(q)
        &&& upright_h(p) == upright_h(q) ==> upright_w(p) >= upright_w(q)
        &&& upright_h(p) == upright_h(q) && upright_w(p) == upright_w(q) ==> a < b
    }) by {
        assert(crate::sorting::precedes(rank, s[i] as int, s[j] as int));
    }
}

} // verus!
