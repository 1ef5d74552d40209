//! Recovering the guillotine cuts of a sheet from the pieces placed on it.

use vstd::multiset::Multiset;
use vstd::prelude::*;
use vstd::string::StringExecFns;

use crate::model::{count_sheets, sheet_count, FreeRect, Piece, Placement, Problem, Sheet};
use crate::text::{append_number, decimal};

verus! {

/// A node in the guillotine cut tree of one sheet.
#[derive(Debug)]
pub enum CutNode {
    /// Leaf: a single placed piece.
    Piece { piece_idx: usize, x: u32, y: u32, pw: u32, ph: u32 },
    /// Leaf: an unused waste rectangle.
    Waste { x: u32, y: u32, w: u32, h: u32 },
    /// Internal: horizontal cut at `cut_y`.
    HSplit { cut_y: u32, top: Box<CutNode>, bottom: Box<CutNode> },
    /// Internal: vertical cut at `cut_x`.
    VSplit { cut_x: u32, left: Box<CutNode>, right: Box<CutNode> },
}

/// A piece and the rectangle that it covers on its sheet.
#[derive(Debug, Clone, Copy, PartialEq, Eq, Structural)]
pub struct PlacedPiece {
    pub piece_idx: usize,
    pub x: u32,
    pub y: u32,
    pub pw: u32,
    pub ph: u32,
}

impl PlacedPiece {
    /// First coordinate that the piece covers, across the cut: `y` for a
    /// horizontal cut, `x` for a vertical one.
    pub open spec fn near(self, horizontal: bool) -> int {
        if horizontal {
            self.y as int
        } else {
            self.x as int
        }
    }

    /// First coordinate behind the piece, across the cut.
    pub open spec fn far(self, horizontal: bool) -> int {
        if horizontal {
            self.y + self.ph
        } else {
            self.x + self.pw
        }
    }

    /// One of the two edges along the cut lies on the line `at`.
    pub open spec fn touches(self, horizontal: bool, at: int) -> bool {
        self.near(horizontal) == at || self.far(horizontal) == at
    }

    pub open spec fn solid(self) -> bool {
        self.pw > 0 && self.ph > 0
    }

    pub open spec fn cell(self, sheet_idx: usize) -> FreeRect {
        FreeRect { sheet_idx, x: self.x, y: self.y, w: self.pw, h: self.ph }
    }

    fn near_edge(&self, horizontal: bool) -> (r: u64)
        ensures
            r == self.near(horizontal),
    {
        if horizontal {
            self.y as u64
        } else {
            self.x as u64
        }
    }

    fn far_edge(&self, horizontal: bool) -> (r: u64)
        ensures
            r == self.far(horizontal),
    {
        if horizontal {
            self.y as u64 + self.ph as u64
        } else {
            self.x as u64 + self.pw as u64
        }
    }
}

/// The region `[x0, x1) x [y0, y1)` of a sheet.
pub struct Bounds {
    pub x0: int,
    pub y0: int,
    pub x1: int,
    pub y1: int,
}

impl Bounds {
    pub open spec fn lo(self, horizontal: bool) -> int {
        if horizontal {
            self.y0
        } else {
            self.x0
        }
    }

    pub open spec fn hi(self, horizontal: bool) -> int {
        if horizontal {
            self.y1
        } else {
            self.x1
        }
    }

    /// The part in front of a cut at `at`.
    pub open spec fn before(self, horizontal: bool, at: int) -> Bounds {
        if horizontal {
            Bounds { y1: at, ..self }
        } else {
            Bounds { x1: at, ..self }
        }
    }

    /// The part behind a cut at `at`.
    pub open spec fn after(self, horizontal: bool, at: int) -> Bounds {
        if horizontal {
            Bounds { y0: at, ..self }
        } else {
            Bounds { x0: at, ..self }
        }
    }

    pub open spec fn measure(self) -> nat {
        let w = if self.x1 > self.x0 {
            self.x1 - self.x0
        } else {
            0
        };
        let h = if self.y1 > self.y0 {
            self.y1 - self.y0
        } else {
            0
        };
        (w + h) as nat
    }

    /// `p` lies in the region.
    pub open spec fn holds(self, p: PlacedPiece) -> bool {
        self.x0 <= p.x && self.y0 <= p.y && p.x + p.pw <= self.x1 && p.y + p.ph <= self.y1
    }

    pub open spec fn contains(self, b: Bounds) -> bool {
        self.x0 <= b.x0 && self.y0 <= b.y0 && b.x1 <= self.x1 && b.y1 <= self.y1
    }
}

/// `p` covers the region exactly.
pub open spec fn fills(p: PlacedPiece, b: Bounds) -> bool {
    p.x == b.x0 && p.y == b.y0 && p.x + p.pw == b.x1 && p.y + p.ph == b.y1
}

pub open spec fn sheet_bounds(sheet: Sheet) -> Bounds {
    Bounds { x0: 0, y0: 0, x1: sheet.width as int, y1: sheet.height as int }
}

/// The pieces in front of a cut, in order.
pub open spec fn early(ps: Seq<PlacedPiece>, horizontal: bool, at: int) -> Seq<PlacedPiece>
    decreases ps.len(),
{
    if ps.len() == 0 {
        Seq::empty()
    } else {
        let rest = early(ps.drop_last(), horizontal, at);
        if ps.last().far(horizontal) <= at {
            rest.push(ps.last())
        } else {
            rest
        }
    }
}

/// The pieces behind a cut, in order.
pub open spec fn late(ps: Seq<PlacedPiece>, horizontal: bool, at: int) -> Seq<PlacedPiece>
    decreases ps.len(),
{
    if ps.len() == 0 {
        Seq::empty()
    } else {
        let rest = late(ps.drop_last(), horizontal, at);
        if ps.last().near(horizontal) >= at {
            rest.push(ps.last())
        } else {
            rest
        }
    }
}

/// Some piece has an edge on the line `at`.
pub open spec fn is_edge(ps: Seq<PlacedPiece>, horizontal: bool, at: int) -> bool {
    exists|i: int| 0 <= i < ps.len() && (#[trigger] ps[i]).touches(horizontal, at)
}

/// Every piece is on exactly one side of the line `at`.
pub open spec fn parts(ps: Seq<PlacedPiece>, horizontal: bool, at: int) -> bool {
    forall|i: int|
        0 <= i < ps.len() ==> ((#[trigger] ps[i]).far(horizontal) <= at) != (ps[i].near(horizontal)
            >= at)
}

/// A cut strictly inside the region, along a piece edge and through no piece.
pub open spec fn clean_cut(b: Bounds, ps: Seq<PlacedPiece>, horizontal: bool, at: int) -> bool {
    b.lo(horizontal) < at < b.hi(horizontal) && is_edge(ps, horizontal, at) && parts(
        ps,
        horizontal,
        at,
    )
}

/// Edge-to-edge cuts can free every piece of the region `b`: there is no piece, or one that
/// covers the region, or a clean cut whose two sides can both be cut so.
pub open spec fn cuttable(b: Bounds, ps: Seq<PlacedPiece>) -> bool
    decreases b.measure(),
{
    ps.len() == 0 || (ps.len() == 1 && fills(ps[0], b)) || exists|horizontal: bool, at: int|
        {
            &&& #[trigger] clean_cut(b, ps, horizontal, at)
            &&& cuttable(b.before(horizontal, at), early(ps, horizontal, at))
            &&& cuttable(b.after(horizontal, at), late(ps, horizontal, at))
        }
}

/// A clean cut whose two sides are cuttable.
pub open spec fn good_cut(b: Bounds, ps: Seq<PlacedPiece>, horizontal: bool, at: int) -> bool {
    clean_cut(b, ps, horizontal, at) && cuttable(
        b.before(horizontal, at),
        early(ps, horizontal, at),
    ) && cuttable(b.after(horizontal, at), late(ps, horizontal, at))
}

/// `node` is the cut tree of the region: at every level the good horizontal cut with the
/// least `y` is taken, and the good vertical cut with the least `x` where there is none.
pub open spec fn tree_of(node: CutNode, b: Bounds, ps: Seq<PlacedPiece>) -> bool
    decreases node,
{
    match node {
        CutNode::Waste { x, y, w, h } => ps.len() == 0 && x == b.x0 && y == b.y0 && x + w == b.x1
            && y + h == b.y1,
        CutNode::Piece { piece_idx, x, y, pw, ph } => ps.len() == 1 && fills(ps[0], b) && ps[0]
            == (PlacedPiece { piece_idx, x, y, pw, ph }),
        CutNode::HSplit { cut_y, top, bottom } => {
            &&& ps.len() > 0
            &&& !(ps.len() == 1 && fills(ps[0], b))
            &&& good_cut(b, ps, true, cut_y as int)
            &&& forall|y: int| y < cut_y ==> !good_cut(b, ps, true, y)
            &&& tree_of(*top, b.before(true, cut_y as int), early(ps, true, cut_y as int))
            &&& tree_of(*bottom, b.after(true, cut_y as int), late(ps, true, cut_y as int))
        },
        CutNode::VSplit { cut_x, left, right } => {
            &&& ps.len() > 0
            &&& !(ps.len() == 1 && fills(ps[0], b))
            &&& forall|y: int| !good_cut(b, ps, true, y)
            &&& good_cut(b, ps, false, cut_x as int)
            &&& forall|x: int| x < cut_x ==> !good_cut(b, ps, false, x)
            &&& tree_of(*left, b.before(false, cut_x as int), early(ps, false, cut_x as int))
            &&& tree_of(*right, b.after(false, cut_x as int), late(ps, false, cut_x as int))
        },
    }
}

/// The pieces at the leaves of a cut tree.
pub open spec fn leaf_pieces(node: CutNode) -> Multiset<PlacedPiece>
    decreases node,
{
    match node {
        CutNode::Waste { .. } => Multiset::empty(),
        CutNode::Piece { piece_idx, x, y, pw, ph } => Multiset::singleton(
            PlacedPiece { piece_idx, x, y, pw, ph },
        ),
        CutNode::HSplit { cut_y, top, bottom } => leaf_pieces(*top).add(leaf_pieces(*bottom)),
        CutNode::VSplit { cut_x, left, right } => leaf_pieces(*left).add(leaf_pieces(*right)),
    }
}

proof fn lemma_sides_share_pieces(ps: Seq<PlacedPiece>, horizontal: bool, at: int)
    requires
        parts(ps, horizontal, at),
    ensures
        early(ps, horizontal, at).to_multiset().add(late(ps, horizontal, at).to_multiset())
            == ps.to_multiset(),
    decreases ps.len(),
{
    broadcast use vstd::seq_lib::group_to_multiset_ensures;

    let e = early(ps, horizontal, at);
    let l = late(ps, horizontal, at);
    if ps.len() > 0 {
        let q = ps.drop_last();
        assert forall|i: int| 0 <= i < q.len() implies ((#[trigger] q[i]).far(horizontal) <= at)
            != (q[i].near(horizontal) >= at) by {
            assert(q[i] == ps[i]);
        }
        lemma_sides_share_pieces(q, horizontal, at);
        assert(ps =~= q.push(ps.last()));
        assert(ps.last() == ps[ps.len() - 1]);
    }
    assert(e.to_multiset().add(l.to_multiset()) =~= ps.to_multiset());
}

/// A cut tree frees every piece of its region, each as often as it is there, and no other.
pub proof fn law_tree_frees_each_piece(node: CutNode, b: Bounds, ps: Seq<PlacedPiece>)
    requires
        tree_of(node, b, ps),
    ensures
        leaf_pieces(node) == ps.to_multiset(),
    decreases node,
{
    broadcast use vstd::seq_lib::group_to_multiset_ensures;

    match node {
        CutNode::Waste { .. } => {
            assert(ps =~= Seq::empty());
            assert(leaf_pieces(node) =~= ps.to_multiset());
        },
        CutNode::Piece { .. } => {
            assert(ps =~= Seq::empty().push(ps[0]));
            assert(leaf_pieces(node) =~= ps.to_multiset());
        },
        CutNode::HSplit { cut_y, top, bottom } => {
            let at = cut_y as int;
            law_tree_frees_each_piece(*top, b.before(true, at), early(ps, true, at));
            law_tree_frees_each_piece(*bottom, b.after(true, at), late(ps, true, at));
            lemma_sides_share_pieces(ps, true, at);
        },
        CutNode::VSplit { cut_x, left, right } => {
            let at = cut_x as int;
            law_tree_frees_each_piece(*left, b.before(false, at), early(ps, false, at));
            law_tree_frees_each_piece(*right, b.after(false, at), late(ps, false, at));
            lemma_sides_share_pieces(ps, false, at);
        },
    }
}

/// A region and its pieces have one cut tree.
pub proof fn law_tree_is_unique(m: CutNode, n: CutNode, b: Bounds, ps: Seq<PlacedPiece>)
    requires
        tree_of(m, b, ps),
        tree_of(n, b, ps),
    ensures
        m == n,
    decreases m,
{
    match (m, n) {
        (
            CutNode::HSplit { cut_y, top, bottom },
            CutNode::HSplit { cut_y: other, top: upper, bottom: lower },
        ) => {
            let at = cut_y as int;
            assert(at == other as int);
            law_tree_is_unique(*top, *upper, b.before(true, at), early(ps, true, at));
            law_tree_is_unique(*bottom, *lower, b.after(true, at), late(ps, true, at));
        },
        (
            CutNode::VSplit { cut_x, left, right },
            CutNode::VSplit { cut_x: other, left: first, right: second },
        ) => {
            let at = cut_x as int;
            assert(at == other as int);
            law_tree_is_unique(*left, *first, b.before(false, at), early(ps, false, at));
            law_tree_is_unique(*right, *second, b.after(false, at), late(ps, false, at));
        },
        _ => {},
    }
}

/// The pieces placed on one sheet, in placement order.
pub open spec fn on_sheet(
    pieces: Seq<Piece>,
    placements: Seq<Placement>,
    sheet_idx: int,
) -> Seq<PlacedPiece>
    decreases placements.len(),
{
    if placements.len() == 0 {
        Seq::empty()
    } else {
        let rest = on_sheet(pieces, placements.drop_last(), sheet_idx);
        let last = placements.last();
        let p = pieces[last.piece_idx as int];
        if last.sheet_idx == sheet_idx {
            rest.push(
                PlacedPiece {
                    piece_idx: last.piece_idx,
                    x: last.x,
                    y: last.y,
                    pw: p.placed_w(last.rotated),
                    ph: p.placed_h(last.rotated),
                },
            )
        } else {
            rest
        }
    }
}

/// The pieces on sheet `s` can be cut out by edge-to-edge cuts.
pub open spec fn sheet_cuttable(problem: Problem, placements: Seq<Placement>, s: int) -> bool {
    cuttable(sheet_bounds(problem.sheet), on_sheet(problem.pieces@, placements, s))
}

/// What is said of the sheet `s` that cannot be cut.
pub open spec fn uncuttable_message(sheet: Sheet, s: int) -> Seq<char> {
    "sheet "@ + decimal(s as nat) + ": region (0,0 "@ + decimal(sheet.width as nat) + "\u{d7}"@
        + decimal(sheet.height as nat) + ") cannot be guillotine-split"@
}

/// Bounding rectangle used during recursion.
#[derive(Debug, Clone, Copy)]
pub struct Rect {
    pub x: u32,
    pub y: u32,
    pub w: u32,
    pub h: u32,
}

impl Rect {
    pub open spec fn bounds(self) -> Bounds {
        Bounds {
            x0: self.x as int,
            y0: self.y as int,
            x1: self.x + self.w,
            y1: self.y + self.h,
        }
    }

    pub open spec fn representable(self) -> bool {
        self.x + self.w <= u32::MAX && self.y + self.h <= u32::MAX
    }

    /// Whether the point lies in the rectangle, whose right and bottom sides are not part of it.
    pub fn contains_point(&self, px: u32, py: u32) -> (r: bool)
        ensures
            r == (self.x <= px < self.x + self.w && self.y <= py < self.y + self.h),
    {
        px >= self.x && (px as u64) < self.x as u64 + self.w as u64 && py >= self.y && (py as u64)
            < self.y as u64 + self.h as u64
    }

    fn before_cut(&self, horizontal: bool, at: u32) -> (r: Rect)
        requires
            self.representable(),
            self.bounds().lo(horizontal) < at < self.bounds().hi(horizontal),
        ensures
            r.representable(),
            r.bounds() == self.bounds().before(horizontal, at as int),
    {
        if horizontal {
            Rect { x: self.x, y: self.y, w: self.w, h: at - self.y }
        } else {
            Rect { x: self.x, y: self.y, w: at - self.x, h: self.h }
        }
    }

    fn after_cut(&self, horizontal: bool, at: u32) -> (r: Rect)
        requires
            self.representable(),
            self.bounds().lo(horizontal) < at < self.bounds().hi(horizontal),
        ensures
            r.representable(),
            r.bounds() == self.bounds().after(horizontal, at as int),
    {
        if horizontal {
            Rect { x: self.x, y: at, w: self.w, h: self.y + self.h - at }
        } else {
            Rect { x: at, y: self.y, w: self.x + self.w - at, h: self.h }
        }
    }
}

/// Adds `v` to the strictly increasing `list`, unless it is there already.
fn insert_edge(list: &mut Vec<u32>, v: u32)
    requires
        forall|i: int, j: int| 0 <= i < j < old(list).len() ==> old(list)[i] < old(list)[j],
    ensures
        forall|i: int, j: int| 0 <= i < j < final(list).len() ==> final(list)[i] < final(list)[j],
        forall|u: u32| final(list)@.contains(u) <==> old(list)@.contains(u) || u == v,
{
    let mut k: usize = 0;
    while k < list.len() && list[k] < v
        invariant
            k <= list.len(),
            list@ == old(list)@,
            forall|i: int| 0 <= i < k ==> list[i] < v,
        decreases list.len() - k,
    {
        k += 1;
    }
    let ghost before = list@;
    if k < list.len() && list[k] == v {
        assert(before[k as int] == v);
    } else {
        list.insert(k, v);
        assert(list@[k as int] == v);
        assert forall|u: u32| list@.contains(u) <==> before.contains(u) || u == v by {
            if before.contains(u) {
                let i = choose|i: int| 0 <= i < before.len() && before[i] == u;
                if i < k {
                    assert(list@[i] == u);
                } else {
                    assert(list@[i + 1] == u);
                }
            }
            if list@.contains(u) && u != v {
                let i = choose|i: int| 0 <= i < list@.len() && list@[i] == u;
                if i < k {
                    assert(before[i] == u);
                } else {
                    assert(before[i - 1] == u);
                }
            }
        }
    }
}

/// The lines strictly inside the region along which some piece has an edge, in
/// increasing order.
fn edge_lines(rect: Rect, pieces: &Vec<PlacedPiece>, horizontal: bool) -> (out: Vec<u32>)
    requires
        rect.representable(),
    ensures
        forall|i: int, j: int| 0 <= i < j < out.len() ==> out[i] < out[j],
        forall|v: u32|
            out@.contains(v) <==> rect.bounds().lo(horizontal) < v < rect.bounds().hi(horizontal)
                && is_edge(pieces@, horizontal, v as int),
{
    let lo: u64 = if horizontal {
        rect.y as u64
    } else {
        rect.x as u64
    };
    let hi: u64 = if horizontal {
        rect.y as u64 + rect.h as u64
    } else {
        rect.x as u64 + rect.w as u64
    };
    let mut out: Vec<u32> = Vec::new();
    let mut k: usize = 0;
    while k < pieces.len()
        invariant
            k <= pieces.len(),
            lo == rect.bounds().lo(horizontal),
            hi == rect.bounds().hi(horizontal),
            rect.representable(),
            forall|i: int, j: int| 0 <= i < j < out.len() ==> out[i] < out[j],
            forall|v: u32|
                out@.contains(v) <==> lo < v < hi && is_edge(
                    pieces@.take(k as int),
                    horizontal,
                    v as int,
                ),
        decreases pieces.len() - k,
    {
        let near: u64 = pieces[k].near_edge(horizontal);
        let far: u64 = pieces[k].far_edge(horizontal);
        if lo < near && near < hi {
            insert_edge(&mut out, near as u32);
        }
        if lo < far && far < hi {
            insert_edge(&mut out, far as u32);
        }
        assert forall|v: u32|
            out@.contains(v) <==> lo < v < hi && is_edge(
                pieces@.take(k + 1),
                horizontal,
                v as int,
            ) by {
            lemma_edge_next(pieces@, k as int, horizontal, v as int);
        }
        k += 1;
    }
    assert(pieces@.take(k as int) =~= pieces@);
    out
}

proof fn lemma_edge_next(ps: Seq<PlacedPiece>, k: int, horizontal: bool, v: int)
    requires
        0 <= k < ps.len(),
    ensures
        is_edge(ps.take(k + 1), horizontal, v) <==> is_edge(ps.take(k), horizontal, v)
            || ps[k].near(horizontal) == v || ps[k].far(horizontal) == v,
{
    let t = ps.take(k);
    let u = ps.take(k + 1);
    assert(u[k] == ps[k]);
    if is_edge(t, horizontal, v) {
        let i = choose|i: int| 0 <= i < t.len() && (#[trigger] t[i]).touches(horizontal, v);
        assert(u[i] == t[i]);
    }
    if is_edge(u, horizontal, v) {
        let i = choose|i: int| 0 <= i < u.len() && (#[trigger] u[i]).touches(horizontal, v);
        if i < k {
            assert(u[i] == t[i]);
        }
    }
}

/// The pieces on both sides of a line, unless some piece is not on exactly one side.
fn part_pieces(pieces: &Vec<PlacedPiece>, horizontal: bool, at: u32) -> (r: Option<
    (Vec<PlacedPiece>, Vec<PlacedPiece>),
>)
    ensures
        r is Some <==> parts(pieces@, horizontal, at as int),
        r matches Some(sides) ==> sides.0@ == early(pieces@, horizontal, at as int) && sides.1@
            == late(pieces@, horizontal, at as int),
{
    let mut front: Vec<PlacedPiece> = Vec::new();
    let mut back: Vec<PlacedPiece> = Vec::new();
    let mut k: usize = 0;
    assert(pieces@.take(0) =~= Seq::empty());
    while k < pieces.len()
        invariant
            k <= pieces.len(),
            front@ == early(pieces@.take(k as int), horizontal, at as int),
            back@ == late(pieces@.take(k as int), horizontal, at as int),
            parts(pieces@.take(k as int), horizontal, at as int),
        decreases pieces.len() - k,
    {
        let p = pieces[k];
        let is_front = p.far_edge(horizontal) <= at as u64;
        let is_back = p.near_edge(horizontal) >= at as u64;
        if is_front == is_back {
            assert(!parts(pieces@, horizontal, at as int)) by {
                assert(pieces@[k as int] == p);
            }
            return None;
        }
        proof {
            let t = pieces@.take(k + 1);
            assert(t.drop_last() =~= pieces@.take(k as int));
            assert(t.last() == p);
            assert forall|i: int| 0 <= i < t.len() implies ((#[trigger] t[i]).far(horizontal) <= at)
                != (t[i].near(horizontal) >= at) by {
                if i < k {
                    assert(t[i] == pieces@.take(k as int)[i]);
                }
            }
        }
        if is_front {
            front.push(p);
        }
        if is_back {
            back.push(p);
        }
        k += 1;
    }
    assert(pieces@.take(k as int) =~= pieces@);
    Some((front, back))
}

/// Tries the cuts of one direction in increasing order; the first that works gives the line
/// and the trees of its two sides.
fn first_cut(rect: Rect, pieces: &Vec<PlacedPiece>, horizontal: bool) -> (r: Option<
    (u32, CutNode, CutNode),
>)
    requires
        rect.representable(),
    ensures
        r is None <==> forall|at: int| !good_cut(rect.bounds(), pieces@, horizontal, at),
        r matches Some(c) ==> {
            &&& good_cut(rect.bounds(), pieces@, horizontal, c.0 as int)
            &&& forall|at: int| at < c.0 ==> !good_cut(rect.bounds(), pieces@, horizontal, at)
            &&& tree_of(
                c.1,
                rect.bounds().before(horizontal, c.0 as int),
                early(pieces@, horizontal, c.0 as int),
            )
            &&& tree_of(
                c.2,
                rect.bounds().after(horizontal, c.0 as int),
                late(pieces@, horizontal, c.0 as int),
            )
        },
    decreases rect.w + rect.h, 0int,
{
    let lines = edge_lines(rect, pieces, horizontal);
    let mut k: usize = 0;
    while k < lines.len()
        invariant
            k <= lines.len(),
            rect.representable(),
            forall|i: int, j: int| 0 <= i < j < lines.len() ==> lines[i] < lines[j],
            forall|v: u32|
                lines@.contains(v) <==> rect.bounds().lo(horizontal) < v < rect.bounds().hi(
                    horizontal,
                ) && is_edge(pieces@, horizontal, v as int),
            forall|i: int|
                0 <= i < k ==> !good_cut(
                    rect.bounds(),
                    pieces@,
                    horizontal,
                    #[trigger] lines[i] as int,
                ),
        decreases lines.len() - k,
    {
        let at: u32 = lines[k];
        assert(lines@.contains(at));
        if let Some((front, back)) = part_pieces(pieces, horizontal, at) {
            let first = split(rect.before_cut(horizontal, at), &front);
            let second = split(rect.after_cut(horizontal, at), &back);
            if let (Some(a), Some(b)) = (first, second) {
                assert forall|v: int| v < at implies !good_cut(
                    rect.bounds(),
                    pieces@,
                    horizontal,
                    v,
                ) by {
                    if good_cut(rect.bounds(), pieces@, horizontal, v) {
                        assert(lines@.contains(v as u32));
                        let i = choose|i: int| 0 <= i < lines@.len() && lines@[i] == v as u32;
                        assert(i < k);
                        assert(!good_cut(rect.bounds(), pieces@, horizontal, lines[i] as int));
                    }
                }
                assert(good_cut(rect.bounds(), pieces@, horizontal, at as int));
                return Some((at, a, b));
            }
        }
        k += 1;
    }
    assert forall|v: int| !good_cut(rect.bounds(), pieces@, horizontal, v) by {
        if good_cut(rect.bounds(), pieces@, horizontal, v) {
            assert(lines@.contains(v as u32));
            let i = choose|i: int| 0 <= i < lines@.len() && lines@[i] == v as u32;
            assert(!good_cut(rect.bounds(), pieces@, horizontal, lines[i] as int));
        }
    }
    None
}

/// Recursively cuts `rect` into its pieces: the cut tree, or `None` if edge-to-edge cuts
/// cannot free every piece.
pub fn split(rect: Rect, pieces: &Vec<PlacedPiece>) -> (r: Option<CutNode>)
    requires
        rect.representable(),
    ensures
        r is Some <==> cuttable(rect.bounds(), pieces@),
        r matches Some(node) ==> tree_of(node, rect.bounds(), pieces@),
    decreases rect.w + rect.h, 1int,
{
    if pieces.len() == 0 {
        return Some(CutNode::Waste { x: rect.x, y: rect.y, w: rect.w, h: rect.h });
    }
    if pieces.len() == 1 {
        let p = pieces[0];
        if p.x == rect.x && p.y == rect.y && p.pw == rect.w && p.ph == rect.h {
            return Some(
                CutNode::Piece { piece_idx: p.piece_idx, x: p.x, y: p.y, pw: p.pw, ph: p.ph },
            );
        }
    }
    if let Some((cut_y, top, bottom)) = first_cut(rect, pieces, true) {
        assert(clean_cut(rect.bounds(), pieces@, true, cut_y as int));
        return Some(CutNode::HSplit { cut_y, top: Box::new(top), bottom: Box::new(bottom) });
    }
    if let Some((cut_x, left, right)) = first_cut(rect, pieces, false) {
        assert(clean_cut(rect.bounds(), pieces@, false, cut_x as int));
        return Some(CutNode::VSplit { cut_x, left: Box::new(left), right: Box::new(right) });
    }
    proof {
        let b = rect.bounds();
        let ps = pieces@;
        if cuttable(b, ps) {
            let (horizontal, at) = choose|horizontal: bool, at: int|
                {
                    &&& #[trigger] clean_cut(b, ps, horizontal, at)
                    &&& cuttable(b.before(horizontal, at), early(ps, horizontal, at))
                    &&& cuttable(b.after(horizontal, at), late(ps, horizontal, at))
                };
            assert(good_cut(b, ps, horizontal, at));
        }
    }
    None
}

/// The pieces placed on one sheet, with the rectangles that they cover.
fn sheet_pieces(problem: &Problem, placements: &[Placement], sheet_idx: usize) -> (out: Vec<
    PlacedPiece,
>)
    requires
        forall|i: int|
            0 <= i < placements@.len() ==> (#[trigger] placements@[i]).piece_idx
                < problem.pieces.len(),
    ensures
        out@ == on_sheet(problem.pieces@, placements@, sheet_idx as int),
{
    let mut out: Vec<PlacedPiece> = Vec::new();
    let mut k: usize = 0;
    assert(placements@.take(0) =~= Seq::empty());
    while k < placements.len()
        invariant
            k <= placements@.len(),
            forall|i: int|
                0 <= i < placements@.len() ==> (#[trigger] placements@[i]).piece_idx
                    < problem.pieces.len(),
            out@ == on_sheet(problem.pieces@, placements@.take(k as int), sheet_idx as int),
        decreases placements@.len() - k,
    {
        let pl = placements[k];
        assert(placements@.take(k + 1).drop_last() =~= placements@.take(k as int));
        assert(placements@.take(k + 1).last() == pl);
        if pl.sheet_idx == sheet_idx {
            let piece = &problem.pieces[pl.piece_idx];
            let (pw, ph) = if pl.rotated {
                (piece.height, piece.width)
            } else {
                (piece.width, piece.height)
            };
            out.push(PlacedPiece { piece_idx: pl.piece_idx, x: pl.x, y: pl.y, pw, ph });
        }
        k += 1;
    }
    assert(placements@.take(k as int) =~= placements@);
    out
}

/// Reconstructs the guillotine cut tree of every sheet from the placed pieces, by trying
/// cuts along piece edges until each region splits into independent halves.
///
/// Returns one tree per sheet, or a message on the first sheet that cannot be cut so.
pub fn build_cut_tree(problem: &Problem, placements: &[Placement]) -> (r: Result<
    Vec<CutNode>,
    String,
>)
    requires
        forall|i: int|
            0 <= i < placements@.len() ==> {
                &&& (#[trigger] placements@[i]).piece_idx < problem.pieces.len()
                &&& placements@[i].sheet_idx < usize::MAX
            },
    ensures
        r is Ok <==> forall|s: int|
            0 <= s < sheet_count(placements@) ==> sheet_cuttable(*problem, placements@, s),
        r matches Ok(trees) ==> {
            &&& trees.len() == sheet_count(placements@)
            &&& forall|s: int|
                0 <= s < trees.len() ==> tree_of(
                    #[trigger] trees[s],
                    sheet_bounds(problem.sheet),
                    on_sheet(problem.pieces@, placements@, s),
                )
        },
        r matches Err(message) ==> exists|s: int|
            {
                &&& 0 <= s < sheet_count(placements@)
                &&& !sheet_cuttable(*problem, placements@, s)
                &&& forall|k: int| 0 <= k < s ==> sheet_cuttable(*problem, placements@, k)
                &&& message@ == #[trigger] uncuttable_message(problem.sheet, s)
            },
{
    let n: usize = count_sheets(placements);
    let mut trees: Vec<CutNode> = Vec::new();
    let mut s: usize = 0;
    while s < n
        invariant
            s <= n,
            n == sheet_count(placements@),
            trees.len() == s,
            forall|i: int|
                0 <= i < placements@.len() ==> (#[trigger] placements@[i]).piece_idx
                    < problem.pieces.len(),
            forall|k: int|
                0 <= k < s ==> sheet_cuttable(*problem, placements@, k) && tree_of(
                    #[trigger] trees[k],
                    sheet_bounds(problem.sheet),
                    on_sheet(problem.pieces@, placements@, k),
                ),
            forall|k: int| 0 <= k < s ==> sheet_cuttable(*problem, placements@, k),
        decreases n - s,
    {
        let pieces = sheet_pieces(problem, placements, s);
        let rect = Rect { x: 0, y: 0, w: problem.sheet.width, h: problem.sheet.height };
        assert(rect.bounds() == sheet_bounds(problem.sheet));
        match split(rect, &pieces) {
            Some(node) => {
                assert(sheet_cuttable(*problem, placements@, s as int));
                trees.push(node);
            },
            None => {
                assert(!sheet_cuttable(*problem, placements@, s as int));
                return Err(uncuttable_text(problem.sheet, s));
            },
        }
        s += 1;
    }
    Ok(trees)
}

fn uncuttable_text(sheet: Sheet, sheet_idx: usize) -> (r: String)
    ensures
        r@ == uncuttable_message(sheet, sheet_idx as int),
{
    let mut out = String::from_str("sheet ");
    append_number(&mut out, sheet_idx as u64);
    out.append(": region (0,0 ");
    append_number(&mut out, sheet.width as u64);
    out.append("\u{d7}");
    append_number(&mut out, sheet.height as u64);
    out.append(") cannot be guillotine-split");
    out
}

} // verus!
