use vstd::prelude::*;

use crate::model::{FreeRect, Piece, Placement, Problem};
use crate::packing::{pack_of, placed};
use crate::slas::decoder::split_directional;
use crate::small::FreePair;
use crate::sorting::{Order, Ranking};

verus! {

/// Piece ordering criterion.
#[derive(Debug, Clone, Copy, PartialEq, Eq, Structural)]
pub enum SortKey {
    /// `w * h`.
    Area,
    /// `min(w, h)`, ties broken by `max(w, h)`.
    ShortSide,
    /// `max(w, h)`, ties broken by `min(w, h)`.
    LongSide,
    /// `w + h`.
    Perimeter,
    /// `|w - h|`.
    Diff,
    /// `w / h`, compared by cross-multiplication.
    Ratio,
}

#[derive(Debug, Clone, Copy, PartialEq, Eq, Structural)]
pub enum SortDir {
    Asc,
    Desc,
}

/// Free-rectangle selection criterion; the candidate with the least score wins.
#[derive(Debug, Clone, Copy, PartialEq, Eq, Structural)]
pub enum SelectionRule {
    /// Smallest rectangle area.
    Area,
    /// Smallest `min(fr.w - pw, fr.h - ph)`: tightest short-side fit.
    ShortSide,
    /// Smallest `max(fr.w - pw, fr.h - ph)`: tightest long-side fit.
    LongSide,
}

/// Direction of the full cut after a piece is placed in a free rectangle.
#[derive(Debug, Clone, Copy, PartialEq, Eq, Structural)]
pub enum SplitRule {
    /// Horizontal when the right leftover strip is not the wider one.
    ShorterLeftover,
    /// Horizontal when the right leftover strip is the wider one.
    LongerLeftover,
    /// Horizontal when the free rectangle is taller than wide.
    ShortAxis,
    /// Horizontal when the free rectangle is wider than tall.
    LongAxis,
}

pub open spec fn least(a: int, b: int) -> int {
    if a <= b {
        a
    } else {
        b
    }
}

pub open spec fn greatest(a: int, b: int) -> int {
    if a >= b {
        a
    } else {
        b
    }
}

/// `(a, b)` does not come behind `(c, d)` in dictionary order.
pub open spec fn pair_leq(a: int, b: int, c: int, d: int) -> bool {
    a < c || (a == c && b <= d)
}

/// Piece `p` does not come behind `q` in ascending order of the key.
pub open spec fn key_leq(p: Piece, q: Piece, key: SortKey) -> bool {
    let (pw, ph) = (p.width as int, p.height as int);
    let (qw, qh) = (q.width as int, q.height as int);
    match key {
        SortKey::Area => pw * ph <= qw * qh,
        SortKey::ShortSide => pair_leq(
            least(pw, ph),
            greatest(pw, ph),
            least(qw, qh),
            greatest(qw, qh),
        ),
        SortKey::LongSide => pair_leq(
            greatest(pw, ph),
            least(pw, ph),
            greatest(qw, qh),
            least(qw, qh),
        ),
        SortKey::Perimeter => pw + ph <= qw + qh,
        SortKey::Diff => greatest(pw, ph) - least(pw, ph) <= greatest(qw, qh) - least(qw, qh),
        SortKey::Ratio => pw * qh <= qw * ph,
    }
}

/// Pieces ordered by a key in one direction.
pub struct PieceOrder {
    pub pieces: Seq<Piece>,
    pub key: SortKey,
    pub dir: SortDir,
}

impl Order for PieceOrder {
    /// A piece without any extent has no aspect ratio.
    open spec fn ranks(self, i: int) -> bool {
        0 <= i < self.pieces.len() && (self.key == SortKey::Ratio ==> self.pieces[i].width > 0
            || self.pieces[i].height > 0)
    }

    open spec fn leq(self, a: int, b: int) -> bool {
        match self.dir {
            SortDir::Asc => key_leq(self.pieces[a], self.pieces[b], self.key),
            SortDir::Desc => key_leq(self.pieces[b], self.pieces[a], self.key),
        }
    }

    proof fn leq_total(self, a: int, b: int) {
    }

    proof fn leq_trans(self, a: int, b: int, c: int) {
        if self.key == SortKey::Ratio {
            match self.dir {
                SortDir::Asc => {
                    lemma_ratio_trans(self.pieces[a], self.pieces[b], self.pieces[c]);
                },
                SortDir::Desc => {
                    lemma_ratio_trans(self.pieces[c], self.pieces[b], self.pieces[a]);
                },
            }
        }
    }
}

proof fn lemma_ratio_trans(p: Piece, q: Piece, r: Piece)
    requires
        q.width > 0 || q.height > 0,
        p.width * q.height <= q.width * p.height,
        q.width * r.height <= r.width * q.height,
    ensures
        p.width * r.height <= r.width * p.height,
{
    let (pw, ph) = (p.width as int, p.height as int);
    let (qw, qh) = (q.width as int, q.height as int);
    let (rw, rh) = (r.width as int, r.height as int);
    if qh > 0 {
        assert(pw * rh <= rw * ph) by (nonlinear_arith)
            requires
                pw * qh <= qw * ph,
                qw * rh <= rw * qh,
                qh > 0,
                pw >= 0,
                ph >= 0,
                rh >= 0,
                rw >= 0,
        {
            assert((pw * rh) * qh <= (rw * ph) * qh) by {
                assert((pw * qh) * rh <= (qw * ph) * rh);
                assert((qw * rh) * ph <= (rw * qh) * ph);
            }
        }
    } else {
        assert(rh == 0) by (nonlinear_arith)
            requires
                qw * rh <= rw * qh,
                qh == 0,
                qw > 0,
                rh >= 0,
        ;
        assert(pw * rh == 0 && rw * ph >= 0) by (nonlinear_arith)
            requires
                rh == 0,
                rw >= 0,
                ph >= 0,
        ;
    }
}

/// Pieces of a problem, ranked by a key in one direction.
pub struct PieceRanking<'a> {
    pub problem: &'a Problem,
    pub key: SortKey,
    pub dir: SortDir,
}

impl<'a> Ranking for PieceRanking<'a> {
    type Of = PieceOrder;

    open spec fn order(&self) -> PieceOrder {
        PieceOrder { pieces: self.problem.pieces@, key: self.key, dir: self.dir }
    }

    fn at_most(&self, a: usize, b: usize) -> (r: bool) {
        match self.dir {
            SortDir::Asc => key_at_most(&self.problem.pieces[a], &self.problem.pieces[b], self.key),
            SortDir::Desc => key_at_most(&self.problem.pieces[b], &self.problem.pieces[a], self.key),
        }
    }
}

pub fn small_of(a: u64, b: u64) -> (r: u64)
    ensures
        r == least(a as int, b as int),
{
    if a <= b {
        a
    } else {
        b
    }
}

pub fn great_of(a: u64, b: u64) -> (r: u64)
    ensures
        r == greatest(a as int, b as int),
{
    if a >= b {
        a
    } else {
        b
    }
}

/// Product of two sides.
pub fn product(a: u32, b: u32) -> (r: u64)
    ensures
        r == a * b,
{
    assert(0 <= a * b <= 0xffff_ffff * 0xffff_ffff) by (nonlinear_arith)
        requires
            0 <= a <= 0xffff_ffff,
            0 <= b <= 0xffff_ffff,
    ;
    a as u64 * b as u64
}

/// Whether `p` does not come behind `q` in ascending order of the key.
pub fn key_at_most(p: &Piece, q: &Piece, key: SortKey) -> (r: bool)
    ensures
        r == key_leq(*p, *q, key),
{
    let (pw, ph) = (p.width as u64, p.height as u64);
    let (qw, qh) = (q.width as u64, q.height as u64);
    let (ps, pl) = (small_of(pw, ph), great_of(pw, ph));
    let (qs, ql) = (small_of(qw, qh), great_of(qw, qh));
    match key {
        SortKey::Area => product(p.width, p.height) <= product(q.width, q.height),
        SortKey::ShortSide => ps < qs || (ps == qs && pl <= ql),
        SortKey::LongSide => pl < ql || (pl == ql && ps <= qs),
        SortKey::Perimeter => pw + ph <= qw + qh,
        SortKey::Diff => pl - ps <= ql - qs,
        SortKey::Ratio => product(p.width, q.height) <= product(q.width, p.height),
    }
}

/// Score of a free rectangle for a piece of `pw` x `ph`; the least is best.
pub open spec fn score_of(sel: SelectionRule, fr: FreeRect, pw: u32, ph: u32) -> int {
    match sel {
        SelectionRule::Area => fr.area(),
        SelectionRule::ShortSide => least(fr.w - pw, fr.h - ph),
        SelectionRule::LongSide => greatest(fr.w - pw, fr.h - ph),
    }
}

pub fn selection_score(sel: SelectionRule, fr: &FreeRect, pw: u32, ph: u32) -> (r: u64)
    requires
        pw <= fr.w,
        ph <= fr.h,
    ensures
        r == score_of(sel, *fr, pw, ph),
{
    let lw: u64 = (fr.w - pw) as u64;
    let lh: u64 = (fr.h - ph) as u64;
    match sel {
        SelectionRule::Area => product(fr.w, fr.h),
        SelectionRule::ShortSide => small_of(lw, lh),
        SelectionRule::LongSide => great_of(lw, lh),
    }
}

/// Places a piece in the corner of free rectangle `idx` of the list.
pub fn place_into(
    free: &mut Vec<FreeRect>,
    placements: &mut Vec<Placement>,
    spot: (usize, u32, u32, bool),
    piece_idx: usize,
    horizontal: bool,
)
    requires
        spot.0 < old(free)@.len(),
        spot.1 <= old(free)@[spot.0 as int].w,
        spot.2 <= old(free)@[spot.0 as int].h,
        old(free)@[spot.0 as int].right() <= u32::MAX,
        old(free)@[spot.0 as int].bottom() <= u32::MAX,
    ensures
        forall|n: int|
            pack_of(final(free)@, final(placements)@, n) == placed(
                #[trigger] pack_of(old(free)@, old(placements)@, n),
                spot.0 as int,
                piece_idx,
                spot.1,
                spot.2,
                spot.3,
                horizontal,
            ),
{
    let (idx, pw, ph, rotated) = spot;
    let fr = free.remove(idx);
    placements.push(
        Placement { sheet_idx: fr.sheet_idx, piece_idx, x: fr.x, y: fr.y, rotated },
    );
    let parts = split_directional(&fr, pw, ph, horizontal);
    extend_free(free, &parts);
}

/// Appends the leftovers of a split.
pub fn extend_free(free: &mut Vec<FreeRect>, parts: &FreePair)
    ensures
        final(free)@ == old(free)@ + parts@,
{
    let mut k: usize = 0;
    assert(free@ =~= old(free)@ + parts@.take(0));
    while k < parts.len()
        invariant
            k <= parts@.len(),
            free@ == old(free)@ + parts@.take(k as int),
        decreases parts@.len() - k,
    {
        free.push(parts.at(k));
        k += 1;
        assert(free@ =~= old(free)@ + parts@.take(k as int));
    }
    assert(parts@.take(k as int) =~= parts@);
}

} // verus!
