use vstd::prelude::*;

use super::common::{product, PieceRanking, SortDir, SortKey};
use super::gbaf::all_fit;
use super::jylanki::{extended, keyed_order, nth_sort_key, sort_key, turns};
use crate::group_fill::{best_group, cross_of, law_best_group, len_of, Strip};
use crate::laying::{goes, goes_nowhere, lying_h, lying_w, room};
use crate::layout::{bottom_part, left_part, right_part, slices, slicing_ok, top_part, Slicing};
use crate::model::{cells, FreeRect, Piece, Placement, Problem, Solution};
use crate::offcuts::{gradable, objective_of, scorable};
use crate::packing::{
    bottom_rest, coherent, complete, few_sheets, fresh, lemma_coherent_sliced, lemma_cornered,
    lemma_fewer_free, lemma_free_within, lemma_fresh, lemma_opened, lemma_refined, opened, pack_of,
    placed_indices, right_rest, sliced, Pack,
};
use crate::score::{best_index, law_best_index, Objective};
use crate::slas::decoder::{fits_sheet, sheet_rect};
use crate::sorting::{
    arranged, lemma_arranged, lemma_in_order_all, order_of, ranked, Order, Ranking,
};
use crate::tiling::{
    area_on, lemma_area_push, lemma_tiles_exchange, lemma_tiles_fresh, lemma_tiles_opened, tiled,
    tiles,
};

verus! {

/// The head fits in the rectangle in some orientation.
pub open spec fn head_fits(p: Piece, fr: FreeRect) -> bool {
    (p.width <= fr.w && p.height <= fr.h) || (turns(p) && p.height <= fr.w && p.width <= fr.h)
}

/// The smallest of the first `n` free rectangles that the head fits in, the first one where
/// several are equal.
pub open spec fn smallest_room(free: Seq<FreeRect>, p: Piece, n: nat) -> Option<int>
    decreases n,
{
    if n == 0 {
        None
    } else {
        let best = smallest_room(free, p, (n - 1) as nat);
        if head_fits(p, free[n - 1]) && (best is None || free[n - 1].area()
            < free[best->0].area()) {
            Some(n - 1)
        } else {
            best
        }
    }
}

/// A strip that the head begins, with the group that tops it up.
pub struct Block {
    pub vertical: bool,
    pub rotated: bool,
    pub group: Seq<(usize, bool)>,
}

/// Piece area of a group.
pub open spec fn group_area(pieces: Seq<Piece>, group: Seq<(usize, bool)>) -> int
    decreases group.len(),
{
    if group.len() == 0 {
        0
    } else {
        group_area(pieces, group.drop_last()) + pieces[group.last().0 as int].area()
    }
}

/// The strip in one direction that the head begins in one orientation, topped up as far as
/// possible from the remaining pieces; none where the head does not fit so.
pub open spec fn shape(
    problem: Problem,
    fr: FreeRect,
    head: int,
    rest: Seq<usize>,
    vertical: bool,
    rotated: bool,
) -> Option<Block> {
    let p = problem.pieces[head];
    let pw = p.placed_w(rotated);
    let ph = p.placed_h(rotated);
    if (rotated && !turns(p)) || pw > fr.w || ph > fr.h {
        None
    } else {
        let cap = if vertical {
            pw
        } else {
            ph
        };
        let budget = if vertical {
            fr.h - ph
        } else {
            fr.w - pw
        };
        let strip = Strip { pieces: problem.pieces@, candidates: rest, cross_cap: cap, vertical };
        Some(Block { vertical, rotated, group: strip.best(budget as u32) })
    }
}

/// The block that packs more piece area; the former where they are equal.
pub open spec fn denser(pieces: Seq<Piece>, a: Option<Block>, b: Option<Block>) -> Option<Block> {
    if b is Some && (a is None || group_area(pieces, b->0.group) > group_area(
        pieces,
        a->0.group,
    )) {
        b
    } else {
        a
    }
}

/// The densest of the up to four blocks that the head can begin: columns before rows, the head
/// as it is before rotated.
pub open spec fn densest(problem: Problem, fr: FreeRect, head: int, rest: Seq<usize>) -> Option<
    Block,
> {
    let ps = problem.pieces@;
    denser(
        ps,
        denser(
            ps,
            denser(
                ps,
                shape(problem, fr, head, rest, true, false),
                shape(problem, fr, head, rest, true, true),
            ),
            shape(problem, fr, head, rest, false, false),
        ),
        shape(problem, fr, head, rest, false, true),
    )
}

/// The head and its group, longest member first and then by index.
pub struct MemberOrder {
    pub pieces: Seq<Piece>,
    pub members: Seq<(usize, bool)>,
    pub vertical: bool,
}

impl Order for MemberOrder {
    open spec fn ranks(self, i: int) -> bool {
        0 <= i < self.members.len() && self.members[i].0 < self.pieces.len()
    }

    open spec fn leq(self, a: int, b: int) -> bool {
        let (p, q) = (self.members[a], self.members[b]);
        let lp = len_of(self.pieces[p.0 as int], p.1, self.vertical);
        let lq = len_of(self.pieces[q.0 as int], q.1, self.vertical);
        lp > lq || (lp == lq && p.0 <= q.0)
    }

    proof fn leq_total(self, a: int, b: int) {
    }

    proof fn leq_trans(self, a: int, b: int, c: int) {
    }
}

struct MemberRanking<'a> {
    problem: &'a Problem,
    members: &'a Vec<(usize, bool)>,
    vertical: bool,
}

/// Width and height of a piece in an orientation.
fn turned_size(p: &Piece, rotated: bool) -> (r: (u32, u32))
    ensures
        r.0 == p.placed_w(rotated),
        r.1 == p.placed_h(rotated),
{
    if rotated {
        (p.height, p.width)
    } else {
        (p.width, p.height)
    }
}

impl<'a> Ranking for MemberRanking<'a> {
    type Of = MemberOrder;

    closed spec fn order(&self) -> MemberOrder {
        MemberOrder {
            pieces: self.problem.pieces@,
            members: self.members@,
            vertical: self.vertical,
        }
    }

    fn at_most(&self, a: usize, b: usize) -> (r: bool) {
        let p = self.members[a];
        let q = self.members[b];
        let (pw, ph) = turned_size(&self.problem.pieces[p.0], p.1);
        let (qw, qh) = turned_size(&self.problem.pieces[q.0], q.1);
        let (lp, lq) = if self.vertical {
            (ph, qh)
        } else {
            (pw, qw)
        };
        lp > lq || (lp == lq && p.0 <= q.0)
    }
}

/// The members of a block in the order in which they are laid.
pub open spec fn laid_order(problem: Problem, head: usize, block: Block) -> Seq<(usize, bool)> {
    let members = seq![(head, block.rotated)] + block.group;
    let order = order_of(
        MemberOrder { pieces: problem.pieces@, members, vertical: block.vertical },
        members.len(),
    );
    arranged(members, order)
}

/// Position along the strip behind the first `k` members.
pub open spec fn laid_len(problem: Problem, ms: Seq<(usize, bool)>, vertical: bool, k: nat) -> int
    decreases k,
{
    if k == 0 {
        0
    } else {
        laid_len(problem, ms, vertical, (k - 1) as nat) + len_of(
            problem.pieces[ms[k - 1].0 as int],
            ms[k - 1].1,
            vertical,
        )
    }
}

/// Where member `k` is laid.
pub open spec fn laid_placement(
    problem: Problem,
    fr: FreeRect,
    ms: Seq<(usize, bool)>,
    vertical: bool,
    k: int,
) -> Placement {
    let at = laid_len(problem, ms, vertical, k as nat);
    Placement {
        sheet_idx: fr.sheet_idx,
        piece_idx: ms[k].0,
        x: if vertical {
            fr.x
        } else {
            (fr.x + at) as u32
        },
        y: if vertical {
            (fr.y + at) as u32
        } else {
            fr.y
        },
        rotated: ms[k].1,
    }
}

pub open spec fn laid(
    problem: Problem,
    fr: FreeRect,
    ms: Seq<(usize, bool)>,
    vertical: bool,
    n: nat,
) -> Seq<Placement> {
    Seq::new(n, |k: int| laid_placement(problem, fr, ms, vertical, k))
}

/// What is left beside member `k`, across the strip of extent `cross`.
pub open spec fn trim(
    problem: Problem,
    fr: FreeRect,
    ms: Seq<(usize, bool)>,
    vertical: bool,
    cross: u32,
    k: int,
) -> FreeRect {
    let c = laid_placement(problem, fr, ms, vertical, k).cell(problem.pieces@);
    if vertical {
        FreeRect { x: (c.x + c.w) as u32, w: (cross - c.w) as u32, ..c }
    } else {
        FreeRect { y: (c.y + c.h) as u32, h: (cross - c.h) as u32, ..c }
    }
}

/// What is left beside the first `n` members, where they are narrower than the strip.
pub open spec fn trims(
    problem: Problem,
    fr: FreeRect,
    ms: Seq<(usize, bool)>,
    vertical: bool,
    cross: u32,
    n: nat,
) -> Seq<FreeRect>
    decreases n,
{
    if n == 0 {
        Seq::empty()
    } else {
        let rest = trims(problem, fr, ms, vertical, cross, (n - 1) as nat);
        if cross_of(problem.pieces[ms[n - 1].0 as int], ms[n - 1].1, vertical) < cross {
            rest.push(trim(problem, fr, ms, vertical, cross, n - 1))
        } else {
            rest
        }
    }
}

/// What is left of the strip behind `filled`.
pub open spec fn strip_tail(fr: FreeRect, vertical: bool, cross: u32, filled: int) -> FreeRect {
    if vertical {
        FreeRect {
            y: (fr.y + filled) as u32,
            w: cross,
            h: (fr.h - filled) as u32,
            ..fr
        }
    } else {
        FreeRect {
            x: (fr.x + filled) as u32,
            w: (fr.w - filled) as u32,
            h: cross,
            ..fr
        }
    }
}

/// What is left of the rectangle beside the strip.
pub open spec fn beside_strip(fr: FreeRect, vertical: bool, cross: u32) -> FreeRect {
    if vertical {
        right_part(fr, cross)
    } else {
        bottom_part(fr, cross)
    }
}

/// All leftovers of a rectangle that holds a block: the trims, then the end of the strip and
/// the rest of the rectangle where they have area.
pub open spec fn block_rest(
    problem: Problem,
    fr: FreeRect,
    ms: Seq<(usize, bool)>,
    vertical: bool,
    cross: u32,
) -> Seq<FreeRect> {
    let filled = laid_len(problem, ms, vertical, ms.len());
    let a = trims(problem, fr, ms, vertical, cross, ms.len());
    let b = if filled < (if vertical {
        fr.h
    } else {
        fr.w
    }) {
        a.push(strip_tail(fr, vertical, cross, filled))
    } else {
        a
    };
    if cross < (if vertical {
        fr.w
    } else {
        fr.h
    }) {
        b.push(beside_strip(fr, vertical, cross))
    } else {
        b
    }
}

/// The pieces of `s` that are not members.
pub open spec fn without(s: Seq<usize>, ms: Seq<(usize, bool)>) -> Seq<usize>
    decreases s.len(),
{
    if s.len() == 0 {
        Seq::empty()
    } else {
        let rest = without(s.drop_last(), ms);
        if is_member(ms, s.last()) {
            rest
        } else {
            rest.push(s.last())
        }
    }
}

pub open spec fn is_member(ms: Seq<(usize, bool)>, i: usize) -> bool {
    exists|k: int| 0 <= k < ms.len() && (#[trigger] ms[k]).0 == i
}

/// State of a pass: the packing and the pieces that remain.
pub struct Pass {
    pub pack: Pack,
    pub remaining: Seq<usize>,
}

/// The rectangle for the head: the smallest that it fits in, else a new sheet.
pub open spec fn head_room(problem: Problem, st: Pack, head: int) -> (Pack, int) {
    match smallest_room(st.free, problem.pieces[head], st.free.len()) {
        Some(i) => (st, i),
        None => (opened(problem.sheet, st), st.free.len() as int),
    }
}

/// The extent of the block across its strip.
pub open spec fn block_cross(problem: Problem, head: int, block: Block) -> u32 {
    cross_of(problem.pieces[head], block.rotated, block.vertical)
}

/// The first remaining piece begins a block, which is laid in its rectangle.
pub open spec fn groupsub_step(problem: Problem, st: Pass) -> Pass {
    let head = st.remaining[0];
    let (p, fi) = head_room(problem, st.pack, head as int);
    let fr = p.free[fi];
    let block = densest(problem, fr, head as int, st.remaining.drop_first())->0;
    let ms = laid_order(problem, head, block);
    let cross = block_cross(problem, head as int, block);
    Pass {
        pack: Pack {
            free: p.free.remove(fi) + block_rest(problem, fr, ms, block.vertical, cross),
            placements: p.placements + laid(problem, fr, ms, block.vertical, ms.len()),
            sheets: p.sheets,
        },
        remaining: without(st.remaining, ms),
    }
}

/// The pass goes on until no piece remains.
pub open spec fn groupsub_run(problem: Problem, st: Pass) -> Pass
    decreases st.remaining.len(),
{
    if st.remaining.len() == 0 {
        st
    } else {
        let next = groupsub_step(problem, st);
        if next.remaining.len() < st.remaining.len() {
            groupsub_run(problem, next)
        } else {
            next
        }
    }
}

/// The result of the pass that takes the pieces in the order of a key.
#[verifier::opaque]
pub open spec fn groupsub_result(problem: Problem, key: SortKey, dir: SortDir) -> Pack {
    groupsub_run(
        problem,
        Pass { pack: fresh(problem.sheet), remaining: keyed_order(problem, key, dir) },
    ).pack
}

pub(crate) proof fn lemma_smallest_room(free: Seq<FreeRect>, p: Piece, n: nat)
    requires
        n <= free.len(),
    ensures
        smallest_room(free, p, n) matches Some(i) ==> 0 <= i < n && head_fits(p, free[i]),
        forall|i: int|
            0 <= i < n && head_fits(p, #[trigger] free[i]) ==> {
                &&& smallest_room(free, p, n) is Some
                &&& free[smallest_room(free, p, n)->0].area() <= free[i].area()
            },
    decreases n,
{
    if n > 0 {
        lemma_smallest_room(free, p, (n - 1) as nat);
    }
}

fn find_room(free: &Vec<FreeRect>, p: &Piece) -> (r: Option<usize>)
    ensures
        match smallest_room(free@, *p, free@.len()) {
            Some(i) => r is Some && r->0 == i,
            None => r is None,
        },
{
    let mut best: Option<usize> = None;
    let turn = p.can_rotate && p.width != p.height;
    let mut k: usize = 0;
    while k < free.len()
        invariant
            k <= free.len(),
            turn == turns(*p),
            match smallest_room(free@, *p, k as nat) {
                Some(i) => best is Some && best->0 == i && i < k,
                None => best is None,
            },
        decreases free.len() - k,
    {
        let fr = free[k];
        if (p.width <= fr.w && p.height <= fr.h) || (turn && p.height <= fr.w && p.width
            <= fr.h) {
            match best {
                None => {
                    best = Some(k);
                },
                Some(i) => {
                    if product(fr.w, fr.h) < product(free[i].w, free[i].h) {
                        best = Some(k);
                    }
                },
            }
        }
        k += 1;
    }
    best
}

/// A block that was found.
struct FoundBlock {
    packed: u128,
    vertical: bool,
    rotated: bool,
    group: Vec<(usize, bool)>,
}

impl FoundBlock {
    spec fn block(self) -> Block {
        Block { vertical: self.vertical, rotated: self.rotated, group: self.group@ }
    }
}

spec fn found_view(f: Option<FoundBlock>) -> Option<Block> {
    match f {
        Some(b) => Some(b.block()),
        None => None,
    }
}

spec fn found_ok(problem: Problem, f: Option<FoundBlock>) -> bool {
    f matches Some(b) ==> b.packed == group_area(problem.pieces@, b.group@)
}

fn area_of_group(problem: &Problem, group: &Vec<(usize, bool)>) -> (r: u128)
    requires
        forall|i: int|
            0 <= i < group@.len() ==> (#[trigger] group@[i]).0 < problem.pieces@.len(),
    ensures
        r == group_area(problem.pieces@, group@),
{
    let mut sum: u128 = 0;
    let mut k: usize = 0;
    assert(group@.take(0) =~= Seq::empty());
    while k < group.len()
        invariant
            k <= group.len(),
            forall|i: int|
                0 <= i < group@.len() ==> (#[trigger] group@[i]).0 < problem.pieces@.len(),
            sum == group_area(problem.pieces@, group@.take(k as int)),
            sum <= k * 0xffff_ffff_ffff_ffff,
        decreases group.len() - k,
    {
        assert(group@.take(k + 1).drop_last() =~= group@.take(k as int));
        let p = &problem.pieces[group[k].0];
        let area: u64 = product(p.width, p.height);
        assert(k * 0xffff_ffff_ffff_ffff + 0xffff_ffff_ffff_ffff
            <= 0xffff_ffff_ffff_ffff_ffff_ffff_ffff_ffff) by (nonlinear_arith)
            requires
                0 <= k < 0xffff_ffff_ffff_ffff,
        ;
        sum = sum + area as u128;
        k += 1;
    }
    assert(group@.take(k as int) =~= group@);
    sum
}

/// Scores one more block shape and keeps the denser one.
fn try_shape(
    problem: &Problem,
    fr: &FreeRect,
    head: usize,
    rest: &[usize],
    vertical: bool,
    rotated: bool,
    best: Option<FoundBlock>,
) -> (r: Option<FoundBlock>)
    requires
        head < problem.pieces@.len(),
        forall|i: int| 0 <= i < rest@.len() ==> #[trigger] rest@[i] < problem.pieces@.len(),
        found_ok(*problem, best),
        fr.w < usize::MAX,
        fr.h < usize::MAX,
        rest@.len() <= usize::MAX,
    ensures
        found_view(r) == denser(
            problem.pieces@,
            found_view(best),
            shape(*problem, *fr, head as int, rest@, vertical, rotated),
        ),
        found_ok(*problem, r),
{
    let p = &problem.pieces[head];
    if rotated && !(p.can_rotate && p.width != p.height) {
        return best;
    }
    let (pw, ph) = turned_size(p, rotated);
    if pw > fr.w || ph > fr.h {
        return best;
    }
    let (cap, budget) = if vertical {
        (pw, fr.h - ph)
    } else {
        (ph, fr.w - pw)
    };
    let group = best_group(problem.pieces.as_slice(), rest, cap, budget, vertical);
    proof {
        let strip = Strip { pieces: problem.pieces@, candidates: rest@, cross_cap: cap, vertical };
        law_best_group(strip, budget);
        assert forall|i: int| 0 <= i < group@.len() implies (#[trigger] group@[i]).0
            < problem.pieces@.len() by {
            assert(group@[i] == strip.best(budget)[i]);
            assert(rest@.contains(group@[i].0));
        }
    }
    let packed: u128 = area_of_group(problem, &group);
    let better = match &best {
        None => true,
        Some(b) => packed > b.packed,
    };
    if better {
        Some(FoundBlock { packed, vertical, rotated, group })
    } else {
        best
    }
}

fn find_block(problem: &Problem, fr: &FreeRect, head: usize, rest: &[usize]) -> (r: Option<
    FoundBlock,
>)
    requires
        head < problem.pieces@.len(),
        forall|i: int| 0 <= i < rest@.len() ==> #[trigger] rest@[i] < problem.pieces@.len(),
        fr.w < usize::MAX,
        fr.h < usize::MAX,
        rest@.len() <= usize::MAX,
    ensures
        found_view(r) == densest(*problem, *fr, head as int, rest@),
{
    let a = try_shape(problem, fr, head, rest, true, false, None);
    let b = try_shape(problem, fr, head, rest, true, true, a);
    let c = try_shape(problem, fr, head, rest, false, false, b);
    try_shape(problem, fr, head, rest, false, true, c)
}

/// A block that goes into the rectangle: its members name different pieces, none is wider than
/// the strip, and all of them together are no longer.
spec fn block_ok(
    problem: Problem,
    fr: FreeRect,
    ms: Seq<(usize, bool)>,
    vertical: bool,
    cross: u32,
) -> bool {
    &&& cross <= (if vertical {
        fr.w
    } else {
        fr.h
    })
    &&& laid_len(problem, ms, vertical, ms.len()) <= (if vertical {
        fr.h
    } else {
        fr.w
    })
    &&& forall|k: int|
        0 <= k < ms.len() ==> {
            &&& (#[trigger] ms[k]).0 < problem.pieces@.len()
            &&& cross_of(problem.pieces[ms[k].0 as int], ms[k].1, vertical) <= cross
        }
}

proof fn lemma_laid_len_grows(
    problem: Problem,
    ms: Seq<(usize, bool)>,
    vertical: bool,
    j: nat,
    k: nat,
)
    requires
        j <= k,
    ensures
        0 <= laid_len(problem, ms, vertical, j) <= laid_len(problem, ms, vertical, k),
    decreases k,
{
    if j < k {
        lemma_laid_len_grows(problem, ms, vertical, j, (k - 1) as nat);
    } else if k > 0 {
        lemma_laid_len_grows(problem, ms, vertical, (k - 1) as nat, (k - 1) as nat);
    }
}

/// The block after `k` members, seen as a cutting: the rest of the strip is the last free
/// rectangle, and what is beside the strip the one before it.
spec fn block_pack(
    problem: Problem,
    p: Pack,
    fi: int,
    ms: Seq<(usize, bool)>,
    vertical: bool,
    cross: u32,
    k: nat,
) -> Pack {
    let fr = p.free[fi];
    Pack {
        free: (p.free.remove(fi) + Seq::new(
            k,
            |j: int| trim(problem, fr, ms, vertical, cross, j),
        )).push(beside_strip(fr, vertical, cross)).push(
            strip_tail(fr, vertical, cross, laid_len(problem, ms, vertical, k)),
        ),
        placements: p.placements + laid(problem, fr, ms, vertical, k),
        sheets: p.sheets,
    }
}

proof fn lemma_block_start(
    problem: Problem,
    p: Pack,
    fi: int,
    ms: Seq<(usize, bool)>,
    vertical: bool,
    cross: u32,
)
    requires
        coherent(problem, p),
        0 <= fi < p.free.len(),
        block_ok(problem, p.free[fi], ms, vertical, cross),
    ensures
        coherent(problem, block_pack(problem, p, fi, ms, vertical, cross, 0)),
{
    let fr = p.free[fi];
    let st2 = block_pack(problem, p, fi, ms, vertical, cross, 0);
    lemma_free_within(problem, p, fi);
    let u = if vertical {
        Slicing::Beside {
            at: cross,
            left: Box::new(Slicing::Whole),
            right: Box::new(Slicing::Whole),
        }
    } else {
        Slicing::Stacked {
            at: cross,
            top: Box::new(Slicing::Whole),
            bottom: Box::new(Slicing::Whole),
        }
    };
    reveal_with_fuel(slicing_ok, 3);
    reveal_with_fuel(slices, 3);
    let b = beside_strip(fr, vertical, cross);
    let t = strip_tail(fr, vertical, cross, 0);
    assert(t == if vertical {
        left_part(fr, cross)
    } else {
        top_part(fr, cross)
    });
    let none = Seq::<Placement>::empty();
    let e = Seq::<FreeRect>::empty();
    e.to_multiset_ensures();
    e.push(b).to_multiset_ensures();
    let rest = e.push(b).push(t);
    assert(cells(problem.pieces@, none) =~= e);
    assert(cells(problem.pieces@, none).to_multiset().add(rest.to_multiset()).subset_of(
        slices(u, fr),
    ));
    assert(laid(problem, fr, ms, vertical, 0) =~= none);
    assert(st2.placements =~= p.placements + none);
    let base = p.free.remove(fi);
    base.to_multiset_ensures();
    base.push(b).to_multiset_ensures();
    assert(st2.free =~= base.push(b).push(t));
    assert(st2.free.to_multiset() =~= base.to_multiset().add(rest.to_multiset()));
    lemma_refined(problem, p, fi, u, none, rest, st2);
}

proof fn lemma_block_next(
    problem: Problem,
    p: Pack,
    fi: int,
    ms: Seq<(usize, bool)>,
    vertical: bool,
    cross: u32,
    k: nat,
)
    requires
        coherent(problem, p),
        coherent(problem, block_pack(problem, p, fi, ms, vertical, cross, k)),
        0 <= fi < p.free.len(),
        block_ok(problem, p.free[fi], ms, vertical, cross),
        k < ms.len(),
    ensures
        coherent(problem, block_pack(problem, p, fi, ms, vertical, cross, k + 1)),
{
    let fr = p.free[fi];
    lemma_free_within(problem, p, fi);
    lemma_laid_len_grows(problem, ms, vertical, k, k);
    lemma_laid_len_grows(problem, ms, vertical, k + 1, ms.len());
    let a = block_pack(problem, p, fi, ms, vertical, cross, k);
    let b = block_pack(problem, p, fi, ms, vertical, cross, k + 1);
    let pl = laid_placement(problem, fr, ms, vertical, k as int);
    let c = pl.cell(problem.pieces@);
    let idx = a.free.len() - 1;
    assert(ms[k as int].0 < problem.pieces@.len());
    let strip = strip_tail(fr, vertical, cross, laid_len(problem, ms, vertical, k));
    assert(a.free[idx] == strip);
    let side = beside_strip(fr, vertical, cross);
    let t = trim(problem, fr, ms, vertical, cross, k as int);
    let strip2 = strip_tail(fr, vertical, cross, laid_len(problem, ms, vertical, k + 1));
    if vertical {
        assert(right_rest(strip, c.w, c.h, true) == t);
        assert(bottom_rest(strip, c.w, c.h, true) == strip2);
    } else {
        assert(right_rest(strip, c.w, c.h, false) == strip2);
        assert(bottom_rest(strip, c.w, c.h, false) == t);
    }
    let base = p.free.remove(fi);
    let ts = Seq::new(k, |j: int| trim(problem, fr, ms, vertical, cross, j));
    let q = base + ts;
    q.to_multiset_ensures();
    q.push(side).to_multiset_ensures();
    q.push(t).to_multiset_ensures();
    q.push(t).push(side).to_multiset_ensures();
    assert(a.free.remove(idx) =~= q.push(side));
    assert(b.free =~= q.push(t).push(side).push(strip2));
    assert(b.free.to_multiset() =~= q.push(side).to_multiset().insert(t).insert(strip2));
    assert(b.free.to_multiset() =~= q.push(side).to_multiset().insert(strip2).insert(t));
    assert(b.placements =~= a.placements.push(pl));
    lemma_cornered(problem, a, idx, pl, vertical, true, b);
}

proof fn lemma_trims_fewer(
    problem: Problem,
    fr: FreeRect,
    ms: Seq<(usize, bool)>,
    vertical: bool,
    cross: u32,
    n: nat,
)
    ensures
        trims(problem, fr, ms, vertical, cross, n).to_multiset().subset_of(
            Seq::new(n, |j: int| trim(problem, fr, ms, vertical, cross, j)).to_multiset(),
        ),
    decreases n,
{
    let all = Seq::new(n, |j: int| trim(problem, fr, ms, vertical, cross, j));
    let some = trims(problem, fr, ms, vertical, cross, n);
    if n > 0 {
        let m = (n - 1) as nat;
        lemma_trims_fewer(problem, fr, ms, vertical, cross, m);
        let all2 = Seq::new(m, |j: int| trim(problem, fr, ms, vertical, cross, j));
        let some2 = trims(problem, fr, ms, vertical, cross, m);
        let t = trim(problem, fr, ms, vertical, cross, n - 1);
        all2.to_multiset_ensures();
        some2.to_multiset_ensures();
        assert(all =~= all2.push(t));
        assert forall|v: FreeRect| some.to_multiset().count(v) <= all.to_multiset().count(v) by {
            assert(some2.to_multiset().count(v) <= all2.to_multiset().count(v));
        }
    } else {
        assert(all =~= some);
    }
}

/// Laying a block keeps the state a cutting of the sheets.
proof fn lemma_block_laid(
    problem: Problem,
    p: Pack,
    fi: int,
    ms: Seq<(usize, bool)>,
    vertical: bool,
    cross: u32,
)
    requires
        coherent(problem, p),
        0 <= fi < p.free.len(),
        block_ok(problem, p.free[fi], ms, vertical, cross),
    ensures
        coherent(
            problem,
            pack_of(
                p.free.remove(fi) + block_rest(problem, p.free[fi], ms, vertical, cross),
                p.placements + laid(problem, p.free[fi], ms, vertical, ms.len()),
                p.sheets,
            ),
        ),
{
    let fr = p.free[fi];
    let n = ms.len();
    lemma_block_start(problem, p, fi, ms, vertical, cross);
    lemma_block_steps(problem, p, fi, ms, vertical, cross, n);
    let a = block_pack(problem, p, fi, ms, vertical, cross, n);
    let rest = block_rest(problem, fr, ms, vertical, cross);
    let base = p.free.remove(fi);
    let b = pack_of(base + rest, a.placements, p.sheets);
    let all = Seq::new(n, |j: int| trim(problem, fr, ms, vertical, cross, j));
    let some = trims(problem, fr, ms, vertical, cross, n);
    lemma_trims_fewer(problem, fr, ms, vertical, cross, n);
    let side = beside_strip(fr, vertical, cross);
    let tail = strip_tail(fr, vertical, cross, laid_len(problem, ms, vertical, n));
    vstd::seq_lib::lemma_multiset_commutative(base, all);
    vstd::seq_lib::lemma_multiset_commutative(base, rest);
    let q = base + all;
    q.to_multiset_ensures();
    q.push(side).to_multiset_ensures();
    some.to_multiset_ensures();
    some.push(tail).to_multiset_ensures();
    assert forall|v: FreeRect| b.free.to_multiset().count(v) <= a.free.to_multiset().count(v) by {
        assert(some.to_multiset().count(v) <= all.to_multiset().count(v));
    }
    lemma_fewer_free(problem, a, b);
}

proof fn lemma_block_steps(
    problem: Problem,
    p: Pack,
    fi: int,
    ms: Seq<(usize, bool)>,
    vertical: bool,
    cross: u32,
    k: nat,
)
    requires
        coherent(problem, p),
        0 <= fi < p.free.len(),
        block_ok(problem, p.free[fi], ms, vertical, cross),
        k <= ms.len(),
    ensures
        coherent(problem, block_pack(problem, p, fi, ms, vertical, cross, k)),
    decreases k,
{
    if k == 0 {
        lemma_block_start(problem, p, fi, ms, vertical, cross);
    } else {
        lemma_block_steps(problem, p, fi, ms, vertical, cross, (k - 1) as nat);
        lemma_block_next(problem, p, fi, ms, vertical, cross, (k - 1) as nat);
    }
}

proof fn lemma_laid_len_prefix(
    problem: Problem,
    s: Seq<(usize, bool)>,
    t: Seq<(usize, bool)>,
    vertical: bool,
    k: nat,
)
    requires
        k <= s.len(),
        k <= t.len(),
        forall|i: int| 0 <= i < k ==> s[i] == t[i],
    ensures
        laid_len(problem, s, vertical, k) == laid_len(problem, t, vertical, k),
    decreases k,
{
    if k > 0 {
        lemma_laid_len_prefix(problem, s, t, vertical, (k - 1) as nat);
    }
}

proof fn lemma_laid_len_remove(problem: Problem, t: Seq<(usize, bool)>, vertical: bool, j: int)
    requires
        0 <= j < t.len(),
    ensures
        laid_len(problem, t, vertical, t.len()) == laid_len(
            problem,
            t.remove(j),
            vertical,
            (t.len() - 1) as nat,
        ) + len_of(problem.pieces[t[j].0 as int], t[j].1, vertical),
    decreases t.len(),
{
    let n = (t.len() - 1) as nat;
    let d = t.drop_last();
    lemma_laid_len_prefix(problem, t, d, vertical, n);
    if j < n {
        lemma_laid_len_remove(problem, d, vertical, j);
        let r = t.remove(j);
        assert(r.drop_last() =~= d.remove(j));
        lemma_laid_len_prefix(problem, r, d.remove(j), vertical, (n - 1) as nat);
        assert(r[n - 1] == t[n as int]);
    } else {
        assert(t.remove(j) =~= d);
    }
}

/// The length of a block does not depend on the order of its members.
proof fn lemma_laid_len_any_order(
    problem: Problem,
    s: Seq<(usize, bool)>,
    t: Seq<(usize, bool)>,
    vertical: bool,
)
    requires
        s.to_multiset() == t.to_multiset(),
    ensures
        laid_len(problem, s, vertical, s.len()) == laid_len(problem, t, vertical, t.len()),
        s.len() == t.len(),
    decreases s.len(),
{
    s.to_multiset_ensures();
    t.to_multiset_ensures();
    if s.len() > 0 {
        let n = s.len() - 1;
        let last = s[n];
        assert(s.contains(last));
        assert(s.to_multiset().count(last) > 0);
        assert(t.to_multiset().count(last) > 0);
        assert(t.contains(last));
        let j = choose|j: int| 0 <= j < t.len() && t[j] == last;
        let a = s.remove(n);
        let b = t.remove(j);
        lemma_laid_len_any_order(problem, a, b, vertical);
        lemma_laid_len_remove(problem, s, vertical, n);
        lemma_laid_len_remove(problem, t, vertical, j);
    }
}

/// The length of a group is the sum of its lengths.
proof fn lemma_laid_len_total(problem: Problem, strip: Strip, g: Seq<(usize, bool)>)
    requires
        strip.pieces == problem.pieces@,
    ensures
        laid_len(problem, g, strip.vertical, g.len()) == strip.total(g),
    decreases g.len(),
{
    if g.len() > 0 {
        lemma_laid_len_total(problem, strip, g.drop_first());
        assert(g.remove(0) =~= g.drop_first());
        lemma_laid_len_remove(problem, g, strip.vertical, 0);
    }
}

/// The densest block exists where the head fits, and it is one of the four shapes.
proof fn lemma_densest(problem: Problem, fr: FreeRect, head: int, rest: Seq<usize>)
    requires
        0 <= head < problem.pieces@.len(),
        head_fits(problem.pieces[head], fr),
    ensures
        densest(problem, fr, head, rest) is Some,
        ({
            let b = densest(problem, fr, head, rest)->0;
            shape(problem, fr, head, rest, b.vertical, b.rotated) == Some(b)
        }),
{
}

/// The members of the densest block go into the rectangle, and they are the head and different
/// pieces of the rest.
proof fn lemma_block_of(problem: Problem, fr: FreeRect, head: usize, rest: Seq<usize>)
    requires
        head < problem.pieces@.len(),
        head_fits(problem.pieces[head as int], fr),
        forall|i: int| 0 <= i < rest.len() ==> #[trigger] rest[i] < problem.pieces@.len(),
        rest.no_duplicates(),
        !rest.contains(head),
        rest.len() < usize::MAX,
    ensures
        ({
            let b = densest(problem, fr, head as int, rest)->0;
            let ms = laid_order(problem, head, b);
            let members = seq![(head, b.rotated)] + b.group;
            let o = MemberOrder { pieces: problem.pieces@, members, vertical: b.vertical };
            &&& block_ok(problem, fr, ms, b.vertical, block_cross(problem, head as int, b))
            &&& is_member(ms, head)
            &&& ms.len() == members.len()
            &&& 1 <= ms.len() <= rest.len() + 1
            &&& forall|k: int|
                0 <= k < ms.len() ==> (#[trigger] ms[k]).0 == head || rest.contains(ms[k].0)
            &&& forall|i: int, j: int|
                0 <= i < j < ms.len() ==> (#[trigger] ms[i]).0 != (#[trigger] ms[j]).0
            &&& forall|i: int| 0 <= i < members.len() ==> #[trigger] o.ranks(i)
        }),
{
    let ps = problem.pieces@;
    lemma_densest(problem, fr, head as int, rest);
    let b = densest(problem, fr, head as int, rest)->0;
    let p = problem.pieces[head as int];
    let cap = block_cross(problem, head as int, b);
    let budget = (if b.vertical {
        fr.h - p.placed_h(b.rotated)
    } else {
        fr.w - p.placed_w(b.rotated)
    }) as u32;
    let strip = Strip { pieces: ps, candidates: rest, cross_cap: cap, vertical: b.vertical };
    assert(b.group == strip.best(budget));
    law_best_group(strip, budget);
    let members = seq![(head, b.rotated)] + b.group;
    let o = MemberOrder { pieces: ps, members, vertical: b.vertical };
    assert forall|i: int| 0 <= i < members.len() implies {
        &&& (#[trigger] members[i]).0 < ps.len()
        &&& cross_of(ps[members[i].0 as int], members[i].1, b.vertical) <= cap
        &&& members[i].0 == head || rest.contains(members[i].0)
    } by {
        if i > 0 {
            assert(members[i] == strip.best(budget)[i - 1]);
            assert(rest.contains(members[i].0));
        }
    }
    assert forall|i: int| 0 <= i < members.len() implies #[trigger] o.ranks(i) by {
        assert(members[i].0 < ps.len());
    }
    crate::sorting::lemma_order_exists(o, members.len());
    let order = order_of(o, members.len());
    lemma_in_order_all(o, members.len(), order, 0);
    let ms = laid_order(problem, head, b);
    lemma_arranged(members, order);
    lemma_laid_len_any_order(problem, ms, members, b.vertical);
    lemma_laid_len_remove(problem, members, b.vertical, 0);
    assert(members.remove(0) =~= b.group);
    lemma_laid_len_total(problem, strip, b.group);
    assert forall|k: int| 0 <= k < ms.len() implies {
        &&& (#[trigger] ms[k]).0 < ps.len()
        &&& cross_of(ps[ms[k].0 as int], ms[k].1, b.vertical) <= cap
        &&& ms[k].0 == head || rest.contains(ms[k].0)
    } by {
        assert(ms[k] == members[order[k] as int]);
    }
    assert forall|i: int, j: int| 0 <= i < members.len() && 0 <= j < members.len() && i
        != j implies (#[trigger] members[i]).0 != (#[trigger] members[j]).0 by {
        if i == 0 {
            assert(members[j] == strip.best(budget)[j - 1]);
            assert(rest.contains(members[j].0));
        } else if j == 0 {
            assert(members[i] == strip.best(budget)[i - 1]);
            assert(rest.contains(members[i].0));
        } else {
            let (x, y) = (strip.best(budget)[i - 1], strip.best(budget)[j - 1]);
            assert(members[i] == x && members[j] == y);
        }
    }
    assert forall|i: int, j: int| 0 <= i < j < ms.len() implies (#[trigger] ms[i]).0 != (
    #[trigger] ms[j]).0 by {
        assert(order[i] != order[j]);
        assert(ms[i] == members[order[i] as int] && ms[j] == members[order[j] as int]);
    }
    assert(order.contains(0));
    let z = choose|z: int| 0 <= z < order.len() && order[z] == 0;
    assert(ms[z] == members[0]);
    assert(ms[z].0 == head);
}

pub(crate) proof fn lemma_without(s: Seq<usize>, ms: Seq<(usize, bool)>)
    ensures
        without(s, ms).len() <= s.len(),
        forall|v: usize|
            without(s, ms).contains(v) <==> s.contains(v) && !is_member(ms, v),
        s.no_duplicates() ==> without(s, ms).no_duplicates(),
        (exists|i: int| 0 <= i < s.len() && is_member(ms, #[trigger] s[i])) ==> without(
            s,
            ms,
        ).len() < s.len(),
    decreases s.len(),
{
    if s.len() > 0 {
        let d = s.drop_last();
        let w = without(d, ms);
        let x = without(s, ms);
        lemma_without(d, ms);
        assert(s[s.len() - 1] == s.last());
        assert forall|v: usize| #[trigger] s.contains(v) <==> d.contains(v) || v == s.last() by {
            if d.contains(v) {
                let i = choose|i: int| 0 <= i < d.len() && d[i] == v;
                assert(s[i] == v);
            }
            if s.contains(v) && v != s.last() {
                let i = choose|i: int| 0 <= i < s.len() && s[i] == v;
                assert(d[i] == v);
            }
        }
        if !is_member(ms, s.last()) {
            assert forall|v: usize| #[trigger] x.contains(v) <==> w.contains(v) || v
                == s.last() by {
                if w.contains(v) {
                    let i = choose|i: int| 0 <= i < w.len() && w[i] == v;
                    assert(x[i] == v);
                }
                assert(x[x.len() - 1] == s.last());
            }
        }
        if s.no_duplicates() {
            assert(d.no_duplicates()) by {
                assert forall|i: int, j: int|
                    0 <= i < d.len() && 0 <= j < d.len() && i != j implies d[i] != d[j] by {
                    assert(d[i] == s[i] && d[j] == s[j]);
                }
            }
            if !is_member(ms, s.last()) {
                assert(!d.contains(s.last())) by {
                    if d.contains(s.last()) {
                        let i = choose|i: int| 0 <= i < d.len() && d[i] == s.last();
                        assert(s[i] == s[s.len() - 1]);
                    }
                }
                assert(!w.contains(s.last()));
            }
        }
        if exists|i: int| 0 <= i < s.len() && is_member(ms, #[trigger] s[i]) {
            let i = choose|i: int| 0 <= i < s.len() && is_member(ms, #[trigger] s[i]);
            if i < d.len() {
                assert(d[i] == s[i]);
            }
        }
    } else {
        assert(without(s, ms) =~= s);
    }
}

/// Every piece is either placed once or remains.
spec fn shared_out(problem: Problem, st: Pass) -> bool {
    let s = placed_indices(st.pack.placements);
    &&& s.no_duplicates()
    &&& st.remaining.no_duplicates()
    &&& forall|i: int|
        0 <= i < st.remaining.len() ==> #[trigger] st.remaining[i] < problem.pieces@.len()
    &&& forall|v: usize| v < problem.pieces@.len() ==> s.contains(v) != st.remaining.contains(v)
}

/// What holds during a pass.
spec fn pass_ok(problem: Problem, st: Pass) -> bool {
    &&& coherent(problem, st.pack)
    &&& tiles(problem, st.pack)
    &&& shared_out(problem, st)
    &&& st.pack.sheets <= st.pack.placements.len() + 1
    &&& st.pack.placements.len() + st.remaining.len() == problem.pieces@.len()
    &&& st.pack.placements.len() > 0 ==> st.pack.sheets <= st.pack.placements.len()
    &&& st.pack.placements.len() == 0 ==> st.pack == fresh(problem.sheet)
}

/// The members of a block and the trims beside them have the area of the strip that they fill.
proof fn lemma_members_area(
    problem: Problem,
    fr: FreeRect,
    ms: Seq<(usize, bool)>,
    vertical: bool,
    cross: u32,
    k: nat,
)
    requires
        k <= ms.len(),
        forall|j: int|
            0 <= j < ms.len() ==> cross_of(
                problem.pieces[(#[trigger] ms[j]).0 as int],
                ms[j].1,
                vertical,
            ) <= cross,
    ensures
        area_on(
            cells(problem.pieces@, laid(problem, fr, ms, vertical, k)),
            fr.sheet_idx as int,
        ) + area_on(trims(problem, fr, ms, vertical, cross, k), fr.sheet_idx as int) == cross
            * laid_len(problem, ms, vertical, k),
        forall|j: int|
            0 <= j < trims(problem, fr, ms, vertical, cross, k).len() ==> (#[trigger] trims(
                problem,
                fr,
                ms,
                vertical,
                cross,
                k,
            )[j]).sheet_idx == fr.sheet_idx,
    decreases k,
{
    let s = fr.sheet_idx as int;
    if k == 0 {
        assert(cells(problem.pieces@, laid(problem, fr, ms, vertical, 0)) =~= Seq::empty());
        assert(cross * 0 == 0);
    } else {
        let m = (k - 1) as nat;
        lemma_members_area(problem, fr, ms, vertical, cross, m);
        let pl = laid_placement(problem, fr, ms, vertical, m as int);
        let c = pl.cell(problem.pieces@);
        let before = cells(problem.pieces@, laid(problem, fr, ms, vertical, m));
        assert(cells(problem.pieces@, laid(problem, fr, ms, vertical, k)) =~= before.push(c));
        lemma_area_push(before, c, s);
        let t = trim(problem, fr, ms, vertical, cross, m as int);
        lemma_area_push(trims(problem, fr, ms, vertical, cross, m), t, s);
        let p = problem.pieces[ms[m as int].0 as int];
        let wide = cross_of(p, ms[m as int].1, vertical) as int;
        let long = len_of(p, ms[m as int].1, vertical) as int;
        let (x, l) = (cross as int, laid_len(problem, ms, vertical, m));
        assert(wide <= x);
        assert(x * (l + long) == x * l + wide * long + (x - wide) * long) by (nonlinear_arith);
        assert(long * wide == wide * long && long * (x - wide) == (x - wide) * long)
            by (nonlinear_arith);
        assert(x == wide ==> (x - wide) * long == 0) by (nonlinear_arith);
    }
}

/// Laying a block loses nothing.
proof fn lemma_block_tiles(
    problem: Problem,
    p: Pack,
    fi: int,
    ms: Seq<(usize, bool)>,
    vertical: bool,
    cross: u32,
)
    requires
        tiles(problem, p),
        0 <= fi < p.free.len(),
        block_ok(problem, p.free[fi], ms, vertical, cross),
    ensures
        tiles(
            problem,
            pack_of(
                p.free.remove(fi) + block_rest(problem, p.free[fi], ms, vertical, cross),
                p.placements + laid(problem, p.free[fi], ms, vertical, ms.len()),
                p.sheets,
            ),
        ),
{
    let fr = p.free[fi];
    let n = ms.len();
    let s = fr.sheet_idx as int;
    assert forall|j: int| 0 <= j < ms.len() implies cross_of(
        problem.pieces[(#[trigger] ms[j]).0 as int],
        ms[j].1,
        vertical,
    ) <= cross by {}
    lemma_members_area(problem, fr, ms, vertical, cross, n);
    lemma_laid_len_grows(problem, ms, vertical, 0, n);
    let filled = laid_len(problem, ms, vertical, n);
    let a = trims(problem, fr, ms, vertical, cross, n);
    let tail = strip_tail(fr, vertical, cross, filled);
    let side = beside_strip(fr, vertical, cross);
    let (wide, long) = if vertical {
        (fr.w as int, fr.h as int)
    } else {
        (fr.h as int, fr.w as int)
    };
    let b = if filled < long {
        a.push(tail)
    } else {
        a
    };
    lemma_area_push(a, tail, s);
    lemma_area_push(b, side, s);
    let x = cross as int;
    assert(x * filled + x * (long - filled) + (wide - x) * long == wide * long)
        by (nonlinear_arith);
    assert(long == filled ==> x * (long - filled) == 0) by (nonlinear_arith);
    assert(wide == x ==> (wide - x) * long == 0) by (nonlinear_arith);
    assert(long * (wide - x) == (wide - x) * long && (long - filled) * x == x * (long - filled)
        && fr.h * fr.w == fr.w * fr.h) by (nonlinear_arith);
    let rest = block_rest(problem, fr, ms, vertical, cross);
    assert forall|i: int| 0 <= i < rest.len() implies (#[trigger] rest[i]).sheet_idx
        == fr.sheet_idx by {
        if i < a.len() {
            assert(rest[i] == a[i]);
        }
    }
    lemma_tiles_exchange(
        problem,
        p,
        fi,
        laid(problem, fr, ms, vertical, n),
        rest,
        pack_of(
            p.free.remove(fi) + rest,
            p.placements + laid(problem, fr, ms, vertical, n),
            p.sheets,
        ),
    );
}

proof fn lemma_head_room(problem: Problem, st: Pack, head: int)
    requires
        coherent(problem, st),
        tiles(problem, st),
        0 <= head < problem.pieces@.len(),
        fits_sheet(problem, head),
        st.sheets <= usize::MAX,
    ensures
        ({
            let (p, fi) = head_room(problem, st, head);
            &&& coherent(problem, p)
            &&& tiles(problem, p)
            &&& 0 <= fi < p.free.len()
            &&& head_fits(problem.pieces[head], p.free[fi])
            &&& p.placements == st.placements
            &&& st.sheets <= p.sheets <= st.sheets + 1
            &&& st == fresh(problem.sheet) ==> p == st
        }),
{
    lemma_smallest_room(st.free, problem.pieces[head], st.free.len());
    if smallest_room(st.free, problem.pieces[head], st.free.len()) is None {
        lemma_opened(problem, st);
        lemma_tiles_opened(problem, st);
        if st == fresh(problem.sheet) {
            assert(head_fits(problem.pieces[head], st.free[0]));
        }
    }
}

proof fn lemma_groupsub_step(problem: Problem, st: Pass)
    requires
        pass_ok(problem, st),
        all_fit(problem),
        st.remaining.len() > 0,
        problem.pieces@.len() < usize::MAX,
    ensures
        pass_ok(problem, groupsub_step(problem, st)),
        groupsub_step(problem, st).remaining.len() < st.remaining.len(),
{
    let head = st.remaining[0];
    assert(fits_sheet(problem, head as int));
    lemma_head_room(problem, st.pack, head as int);
    let (p, fi) = head_room(problem, st.pack, head as int);
    let fr = p.free[fi];
    let rest = st.remaining.drop_first();
    assert forall|i: int| 0 <= i < rest.len() implies #[trigger] rest[i]
        < problem.pieces@.len() by {
        assert(rest[i] == st.remaining[i + 1]);
    }
    assert(rest.no_duplicates());
    assert(!rest.contains(head)) by {
        if rest.contains(head) {
            let i = choose|i: int| 0 <= i < rest.len() && rest[i] == head;
            assert(st.remaining[i + 1] == st.remaining[0]);
        }
    }
    lemma_block_of(problem, fr, head, rest);
    let b = densest(problem, fr, head as int, rest)->0;
    let ms = laid_order(problem, head, b);
    let cross = block_cross(problem, head as int, b);
    lemma_block_laid(problem, p, fi, ms, b.vertical, cross);
    lemma_block_tiles(problem, p, fi, ms, b.vertical, cross);
    let st2 = groupsub_step(problem, st);
    let s = placed_indices(st.pack.placements);
    let t = placed_indices(st2.pack.placements);
    let more = laid(problem, fr, ms, b.vertical, ms.len());
    lemma_without(st.remaining, ms);
    assert(is_member(ms, st.remaining[0]));
    assert(t.len() == s.len() + ms.len());
    assert forall|i: int| 0 <= i < t.len() implies t[i] == (if i < s.len() {
        s[i]
    } else {
        ms[i - s.len()].0
    }) by {
        if i < s.len() {
            assert(st2.pack.placements[i] == st.pack.placements[i]);
        } else {
            assert(st2.pack.placements[i] == more[i - s.len()]);
        }
    }
    assert forall|v: usize| #[trigger] t.contains(v) <==> s.contains(v) || is_member(ms, v) by {
        if s.contains(v) {
            let i = choose|i: int| 0 <= i < s.len() && s[i] == v;
            assert(t[i] == v);
        }
        if is_member(ms, v) {
            let k = choose|k: int| 0 <= k < ms.len() && (#[trigger] ms[k]).0 == v;
            assert(t[s.len() + k] == v);
        }
        if t.contains(v) {
            let i = choose|i: int| 0 <= i < t.len() && t[i] == v;
            if i < s.len() {
                assert(s[i] == v);
            } else {
                assert(ms[i - s.len()].0 == v);
            }
        }
    }
    assert forall|v: usize| #[trigger] is_member(ms, v) implies st.remaining.contains(v) by {
        let k = choose|k: int| 0 <= k < ms.len() && (#[trigger] ms[k]).0 == v;
        if v != head {
            assert(rest.contains(v));
            let i = choose|i: int| 0 <= i < rest.len() && rest[i] == v;
            assert(st.remaining[i + 1] == v);
        }
    }
    assert(t.no_duplicates()) by {
        assert forall|i: int, j: int| 0 <= i < j < t.len() implies t[i] != t[j] by {
            if j < s.len() {
                assert(s[i] != s[j]);
            } else {
                assert(is_member(ms, ms[j - s.len()].0));
                if i < s.len() {
                    assert(s.contains(s[i]));
                    assert(st.remaining.contains(t[j]));
                    assert(t[j] < problem.pieces@.len());
                } else {
                    assert(ms[i - s.len()].0 != ms[j - s.len()].0);
                }
            }
        }
    }
    assert forall|i: int| 0 <= i < st2.remaining.len() implies #[trigger] st2.remaining[i]
        < problem.pieces@.len() by {
        assert(st2.remaining.contains(st2.remaining[i]));
        assert(st.remaining.contains(st2.remaining[i]));
    }
    assert forall|v: usize| v < problem.pieces@.len() implies t.contains(v)
        != st2.remaining.contains(v) by {
        assert(s.contains(v) != st.remaining.contains(v));
        if is_member(ms, v) {
            assert(st.remaining.contains(v));
        }
    }
    lemma_partition_lengths(problem, t, st2.remaining);
}

/// Two lists that share out the numbers below `n` have `n` items together.
proof fn lemma_partition_lengths(problem: Problem, s: Seq<usize>, r: Seq<usize>)
    requires
        s.no_duplicates(),
        r.no_duplicates(),
        problem.pieces@.len() < usize::MAX,
        forall|i: int| 0 <= i < s.len() ==> #[trigger] s[i] < problem.pieces@.len(),
        forall|i: int| 0 <= i < r.len() ==> #[trigger] r[i] < problem.pieces@.len(),
        forall|v: usize| v < problem.pieces@.len() ==> s.contains(v) != r.contains(v),
    ensures
        s.len() + r.len() == problem.pieces@.len(),
{
    let n = problem.pieces@.len();
    let a = s + r;
    assert(a.no_duplicates()) by {
        assert forall|i: int, j: int| 0 <= i < j < a.len() implies a[i] != a[j] by {
            if i < s.len() && j >= s.len() {
                assert(s.contains(s[i]));
                assert(r.contains(r[j - s.len()]));
            }
        }
    }
    a.unique_seq_to_set();
    let all = Seq::new(n, |i: int| i as usize);
    assert(all.no_duplicates());
    all.unique_seq_to_set();
    assert(a.to_set() =~= all.to_set()) by {
        assert forall|v: usize| a.to_set().contains(v) <==> all.to_set().contains(v) by {
            if v < n {
                assert(all[v as int] == v);
                assert(all.contains(v));
                if s.contains(v) {
                    let i = choose|i: int| 0 <= i < s.len() && s[i] == v;
                    assert(a[i] == v);
                } else {
                    assert(r.contains(v));
                    let i = choose|i: int| 0 <= i < r.len() && r[i] == v;
                    assert(a[s.len() + i] == v);
                }
                assert(a.contains(v));
            }
            if a.contains(v) {
                let i = choose|i: int| 0 <= i < a.len() && a[i] == v;
                if i < s.len() {
                    assert(s[i] == v);
                } else {
                    assert(r[i - s.len()] == v);
                }
            }
            if all.contains(v) {
                let i = choose|i: int| 0 <= i < all.len() && all[i] == v;
            }
        }
    }
}

/// The members of a block in the order in which they are laid.
fn order_members(problem: &Problem, head: usize, found: &FoundBlock) -> (r: Vec<(usize, bool)>)
    requires
        head < problem.pieces@.len(),
        forall|i: int|
            0 <= i < found.group@.len() ==> (#[trigger] found.group@[i]).0 < problem.pieces@.len(),
        found.group@.len() < usize::MAX,
    ensures
        r@ == laid_order(*problem, head, found.block()),
{
    let mut members: Vec<(usize, bool)> = Vec::new();
    members.push((head, found.rotated));
    let mut k: usize = 0;
    while k < found.group.len()
        invariant
            k <= found.group@.len(),
            members@ =~= seq![(head, found.rotated)] + found.group@.take(k as int),
        decreases found.group@.len() - k,
    {
        members.push(found.group[k]);
        k += 1;
    }
    assert(found.group@.take(k as int) =~= found.group@);
    let rank = MemberRanking { problem, members: &members, vertical: found.vertical };
    assert forall|i: int| 0 <= i < members@.len() implies #[trigger] rank.order().ranks(i) by {
        if i > 0 {
            assert(members@[i] == found.group@[i - 1]);
        }
    }
    let order = ranked(&rank, members.len());
    let mut out: Vec<(usize, bool)> = Vec::new();
    let mut j: usize = 0;
    while j < order.len()
        invariant
            j <= order@.len(),
            order@.len() == members@.len(),
            forall|i: int| 0 <= i < order@.len() ==> #[trigger] order@[i] < members@.len(),
            out@.len() == j,
            forall|i: int| 0 <= i < j ==> out@[i] == members@[order@[i] as int],
        decreases order@.len() - j,
    {
        out.push(members[order[j]]);
        j += 1;
    }
    assert(out@ =~= laid_order(*problem, head, found.block()));
    out
}

/// Lays the members one behind the other; what is left beside them becomes free. Returns the
/// length that they take.
fn lay_members(
    problem: &Problem,
    fr: &FreeRect,
    ms: &Vec<(usize, bool)>,
    vertical: bool,
    cross: u32,
    free: &mut Vec<FreeRect>,
    placements: &mut Vec<Placement>,
) -> (filled: u32)
    requires
        block_ok(*problem, *fr, ms@, vertical, cross),
        fr.right() <= u32::MAX,
        fr.bottom() <= u32::MAX,
    ensures
        filled == laid_len(*problem, ms@, vertical, ms@.len()),
        final(free)@ == old(free)@ + trims(*problem, *fr, ms@, vertical, cross, ms@.len()),
        final(placements)@ == old(placements)@ + laid(*problem, *fr, ms@, vertical, ms@.len()),
{
    let mut at: u32 = 0;
    let mut k: usize = 0;
    assert(free@ =~= old(free)@ + trims(*problem, *fr, ms@, vertical, cross, 0));
    assert(placements@ =~= old(placements)@ + laid(*problem, *fr, ms@, vertical, 0));
    while k < ms.len()
        invariant
            k <= ms@.len(),
            block_ok(*problem, *fr, ms@, vertical, cross),
            fr.right() <= u32::MAX,
            fr.bottom() <= u32::MAX,
            at == laid_len(*problem, ms@, vertical, k as nat),
            free@ == old(free)@ + trims(*problem, *fr, ms@, vertical, cross, k as nat),
            placements@ == old(placements)@ + laid(*problem, *fr, ms@, vertical, k as nat),
        decreases ms@.len() - k,
    {
        let (i, rotated) = ms[k];
        proof {
            lemma_laid_len_grows(*problem, ms@, vertical, (k + 1) as nat, ms@.len());
            assert(ms@[k as int].0 < problem.pieces@.len());
        }
        let (w, h) = turned_size(&problem.pieces[i], rotated);
        let (x, y) = if vertical {
            (fr.x, fr.y + at)
        } else {
            (fr.x + at, fr.y)
        };
        placements.push(Placement { sheet_idx: fr.sheet_idx, piece_idx: i, x, y, rotated });
        assert(placements@ =~= old(placements)@ + laid(
            *problem,
            *fr,
            ms@,
            vertical,
            (k + 1) as nat,
        ));
        let (across, along) = if vertical {
            (w, h)
        } else {
            (h, w)
        };
        if across < cross {
            if vertical {
                free.push(
                    FreeRect { sheet_idx: fr.sheet_idx, x: x + w, y, w: cross - w, h },
                );
            } else {
                free.push(
                    FreeRect { sheet_idx: fr.sheet_idx, x, y: y + h, w, h: cross - h },
                );
            }
            assert(free@ =~= old(free)@ + trims(
                *problem,
                *fr,
                ms@,
                vertical,
                cross,
                (k + 1) as nat,
            ));
        }
        at = at + along;
        k += 1;
    }
    at
}

/// The pieces that are not members.
fn drop_members(remaining: &Vec<usize>, ms: &Vec<(usize, bool)>) -> (r: Vec<usize>)
    ensures
        r@ == without(remaining@, ms@),
{
    let mut out: Vec<usize> = Vec::new();
    let mut k: usize = 0;
    assert(remaining@.take(0) =~= Seq::empty());
    while k < remaining.len()
        invariant
            k <= remaining@.len(),
            out@ == without(remaining@.take(k as int), ms@),
        decreases remaining@.len() - k,
    {
        let i: usize = remaining[k];
        assert(remaining@.take(k + 1).drop_last() =~= remaining@.take(k as int));
        let mut found = false;
        let mut j: usize = 0;
        while j < ms.len()
            invariant
                j <= ms@.len(),
                found <==> exists|q: int| 0 <= q < j && (#[trigger] ms@[q]).0 == i,
            decreases ms@.len() - j,
        {
            if ms[j].0 == i {
                found = true;
                assert(ms@[j as int].0 == i);
            }
            j += 1;
        }
        assert(found == is_member(ms@, i));
        if !found {
            out.push(i);
        }
        k += 1;
    }
    assert(remaining@.take(k as int) =~= remaining@);
    out
}

/// Adds what is left of the rectangle behind and beside the strip, where it has area.
fn push_ends(fr: &FreeRect, vertical: bool, cross: u32, filled: u32, free: &mut Vec<FreeRect>)
    requires
        cross <= (if vertical { fr.w } else { fr.h }),
        filled <= (if vertical { fr.h } else { fr.w }),
        fr.right() <= u32::MAX,
        fr.bottom() <= u32::MAX,
    ensures
        ({
            let a = old(free)@;
            let b = if filled < (if vertical {
                fr.h
            } else {
                fr.w
            }) {
                a.push(strip_tail(*fr, vertical, cross, filled as int))
            } else {
                a
            };
            final(free)@ == if cross < (if vertical {
                fr.w
            } else {
                fr.h
            }) {
                b.push(beside_strip(*fr, vertical, cross))
            } else {
                b
            }
        }),
{
    if vertical {
        if filled < fr.h {
            free.push(
                FreeRect {
                    sheet_idx: fr.sheet_idx,
                    x: fr.x,
                    y: fr.y + filled,
                    w: cross,
                    h: fr.h - filled,
                },
            );
        }
        if cross < fr.w {
            free.push(
                FreeRect {
                    sheet_idx: fr.sheet_idx,
                    x: fr.x + cross,
                    y: fr.y,
                    w: fr.w - cross,
                    h: fr.h,
                },
            );
        }
    } else {
        if filled < fr.w {
            free.push(
                FreeRect {
                    sheet_idx: fr.sheet_idx,
                    x: fr.x + filled,
                    y: fr.y,
                    w: fr.w - filled,
                    h: cross,
                },
            );
        }
        if cross < fr.h {
            free.push(
                FreeRect {
                    sheet_idx: fr.sheet_idx,
                    x: fr.x,
                    y: fr.y + cross,
                    w: fr.w,
                    h: fr.h - cross,
                },
            );
        }
    }
}

pub open spec fn pass_of(
    free: Seq<FreeRect>,
    placements: Seq<Placement>,
    sheets: int,
    remaining: Seq<usize>,
) -> Pass {
    Pass { pack: pack_of(free, placements, sheets), remaining }
}

/// Lays the block that the first remaining piece begins.
#[verifier::rlimit(60)]
fn place_block(
    problem: &Problem,
    free: &mut Vec<FreeRect>,
    placements: &mut Vec<Placement>,
    sheets_open: usize,
    remaining: Vec<usize>,
) -> (r: (usize, Vec<usize>))
    requires
        pass_ok(
            *problem,
            pass_of(old(free)@, old(placements)@, sheets_open as int, remaining@),
        ),
        all_fit(*problem),
        remaining@.len() > 0,
        problem.pieces@.len() < usize::MAX,
        problem.sheet.width < usize::MAX,
        problem.sheet.height < usize::MAX,
    ensures
        pass_of(final(free)@, final(placements)@, r.0 as int, r.1@) == groupsub_step(
            *problem,
            pass_of(old(free)@, old(placements)@, sheets_open as int, remaining@),
        ),
{
    let ghost st = pass_of(free@, placements@, sheets_open as int, remaining@);
    let head: usize = remaining[0];
    proof {
        assert(fits_sheet(*problem, head as int));
        lemma_head_room(*problem, st.pack, head as int);
    }
    let mut sheets: usize = sheets_open;
    let fi: usize = match find_room(free, &problem.pieces[head]) {
        Some(i) => i,
        None => {
            let i: usize = free.len();
            free.push(sheet_rect(problem, sheets_open));
            sheets = sheets_open + 1;
            i
        },
    };
    let ghost p = pack_of(free@, placements@, sheets as int);
    proof {
        assert(p == head_room(*problem, st.pack, head as int).0);
        lemma_free_within(*problem, p, fi as int);
    }
    let fr = free.remove(fi);
    let rest = vstd::slice::slice_subrange(remaining.as_slice(), 1, remaining.len());
    assert(rest@ =~= remaining@.drop_first());
    proof {
        assert forall|i: int| 0 <= i < rest@.len() implies #[trigger] rest@[i]
            < problem.pieces@.len() by {
            assert(rest@[i] == st.remaining[i + 1]);
        }
        assert(rest@.no_duplicates());
        assert(!rest@.contains(head)) by {
            if rest@.contains(head) {
                let i = choose|i: int| 0 <= i < rest@.len() && rest@[i] == head;
                assert(st.remaining[i + 1] == st.remaining[0]);
            }
        }
        lemma_densest(*problem, fr, head as int, rest@);
        lemma_block_of(*problem, fr, head, rest@);
    }
    if let Some(found) = find_block(problem, &fr, head, rest) {
        let ghost b = found.block();
        assert(b == densest(*problem, fr, head as int, rest@)->0);
        proof {
            let members = seq![(head, b.rotated)] + b.group;
            let o = MemberOrder { pieces: problem.pieces@, members, vertical: b.vertical };
            assert forall|i: int| 0 <= i < found.group@.len() implies (
            #[trigger] found.group@[i]).0 < problem.pieces@.len() by {
                assert(o.ranks(i + 1));
                assert(members[i + 1] == found.group@[i]);
            }
        }
        let ms = order_members(problem, head, &found);
        let (w, h) = turned_size(&problem.pieces[head], found.rotated);
        let cross: u32 = if found.vertical {
            w
        } else {
            h
        };
        let ghost base = free@;
        let filled: u32 = lay_members(
            problem,
            &fr,
            &ms,
            found.vertical,
            cross,
            free,
            placements,
        );
        push_ends(&fr, found.vertical, cross, filled, free);
        assert(free@ =~= base + block_rest(*problem, fr, ms@, found.vertical, cross));
        return (sheets, drop_members(&remaining, &ms));
    }
    (sheets, Vec::new())
}

/// One deterministic pass with a fixed piece order. The first remaining piece begins a strip in
/// the smallest free rectangle that it fits in; of the columns and rows that it can begin, each
/// topped up with the group of remaining pieces that fills it best, the one that packs most
/// piece area is laid, longest member first. What is left beside the members, behind the strip
/// and beside the strip becomes free.
pub fn groupsub_pass(problem: &Problem, key: SortKey, dir: SortDir) -> (r: Solution)
    requires
        all_fit(*problem),
        extended(*problem),
        problem.pieces@.len() < usize::MAX,
        problem.sheet.width < usize::MAX,
        problem.sheet.height < usize::MAX,
    ensures
        r.placements@ == groupsub_result(*problem, key, dir).placements,
        r.leftovers@ == groupsub_result(*problem, key, dir).free,
        complete(*problem, r.placements@),
        few_sheets(r.placements@, problem.pieces@.len()),
        sliced(*problem, r.placements@, r.leftovers@),
        tiled(*problem, r.placements@, r.leftovers@),
        scorable(problem.sheet, problem.pieces@.len()) ==> gradable(*problem, r.placements@),
{
    let n: usize = problem.pieces.len();
    let rank = PieceRanking { problem, key, dir };
    let mut remaining = ranked(&rank, n);
    let mut placements: Vec<Placement> = Vec::new();
    let mut free: Vec<FreeRect> = vec![sheet_rect(problem, 0)];
    let mut sheets_open: usize = 1;
    proof {
        reveal(groupsub_result);
        let st = pass_of(free@, placements@, 1, remaining@);
        assert(free@ =~= fresh(problem.sheet).free);
        assert(st.pack == fresh(problem.sheet));
        lemma_fresh(*problem);
        lemma_tiles_fresh(*problem);
        assert(placed_indices(placements@) =~= Seq::empty());
        if n > 0 {
            lemma_in_order_all(rank.order(), n as nat, remaining@, 0);
        }
        assert(remaining@.no_duplicates());
        assert forall|v: usize| v < n implies remaining@.contains(v) by {
            lemma_in_order_all(rank.order(), n as nat, remaining@, v);
        }
    }
    let ghost all = groupsub_run(*problem, pass_of(free@, placements@, 1, remaining@));
    while remaining.len() > 0
        invariant
            n == problem.pieces@.len(),
            n < usize::MAX,
            problem.sheet.width < usize::MAX,
            problem.sheet.height < usize::MAX,
            all_fit(*problem),
            pass_ok(*problem, pass_of(free@, placements@, sheets_open as int, remaining@)),
            all == groupsub_run(
                *problem,
                pass_of(free@, placements@, sheets_open as int, remaining@),
            ),
        decreases remaining@.len(),
    {
        let ghost st = pass_of(free@, placements@, sheets_open as int, remaining@);
        proof {
            lemma_groupsub_step(*problem, st);
        }
        let (sheets, left) = place_block(
            problem,
            &mut free,
            &mut placements,
            sheets_open,
            remaining,
        );
        sheets_open = sheets;
        remaining = left;
    }
    proof {
        let st = pass_of(free@, placements@, sheets_open as int, remaining@);
        lemma_coherent_sliced(*problem, st.pack);
        assert(tiles(*problem, pack_of(free@, placements@, sheets_open as int)));
        if scorable(problem.sheet, problem.pieces@.len()) {
            crate::packing::lemma_coherent_gradable(*problem, st.pack);
        }
    }
    Solution { placements, leftovers: free }
}

/// Number of piece orders.
pub const ORDERS: usize = 12;

/// Result of pass number `c`: the sort keys vary slowest.
pub open spec fn ordered_result(problem: Problem, c: int) -> Pack {
    groupsub_result(
        problem,
        sort_key(c / 2),
        if c % 2 == 0 {
            SortDir::Asc
        } else {
            SortDir::Desc
        },
    )
}

/// The objectives of all passes.
pub open spec fn ordered_objectives(problem: Problem) -> Seq<Objective> {
    Seq::new(
        ORDERS as nat,
        |c: int| objective_of(problem, ordered_result(problem, c).placements),
    )
}

/// The best of the first `n` passes; the earliest where several are best.
pub open spec fn best_order(problem: Problem, n: nat) -> int {
    best_index(ordered_objectives(problem), n)
}

/// No pass beats the one that is returned.
pub proof fn law_orders_best(problem: Problem, c: int)
    requires
        0 <= c < ORDERS,
    ensures
        0 <= best_order(problem, ORDERS as nat) < ORDERS,
        !objective_of(problem, ordered_result(problem, c).placements).beats(
            objective_of(
                problem,
                ordered_result(problem, best_order(problem, ORDERS as nat)).placements,
            ),
        ),
{
    law_best_index(ordered_objectives(problem), ORDERS as nat, c);
}

fn run_order(problem: &Problem, c: usize) -> (r: Solution)
    requires
        all_fit(*problem),
        extended(*problem),
        problem.pieces@.len() < usize::MAX,
        problem.sheet.width < usize::MAX,
        problem.sheet.height < usize::MAX,
    ensures
        r.placements@ == ordered_result(*problem, c as int).placements,
        r.leftovers@ == ordered_result(*problem, c as int).free,
        complete(*problem, r.placements@),
        few_sheets(r.placements@, problem.pieces@.len()),
        sliced(*problem, r.placements@, r.leftovers@),
        tiled(*problem, r.placements@, r.leftovers@),
        scorable(problem.sheet, problem.pieces@.len()) ==> gradable(*problem, r.placements@),
{
    let dir = if c % 2 == 0 {
        SortDir::Asc
    } else {
        SortDir::Desc
    };
    groupsub_pass(problem, nth_sort_key(c / 2), dir)
}

/// The results of all passes can be scored.
pub open spec fn orders_gradable(problem: Problem) -> bool {
    forall|c: int|
        0 <= c < ORDERS ==> gradable(
            problem,
            (#[trigger] ordered_result(problem, c)).placements,
        )
}

/// Portfolio packer that fills strips with groups of pieces: runs a pass for every piece order
/// and returns the result with the best objective, the earliest one where several are best.
pub fn groupsub_solve(problem: &Problem) -> (r: Solution)
    requires
        all_fit(*problem),
        extended(*problem),
        problem.pieces@.len() < usize::MAX,
        problem.sheet.width < usize::MAX,
        problem.sheet.height < usize::MAX,
        scorable(problem.sheet, problem.pieces@.len()) || orders_gradable(*problem),
    ensures
        r.placements@ == ordered_result(
            *problem,
            best_order(*problem, ORDERS as nat),
        ).placements,
        r.leftovers@ == ordered_result(*problem, best_order(*problem, ORDERS as nat)).free,
        complete(*problem, r.placements@),
        few_sheets(r.placements@, problem.pieces@.len()),
        sliced(*problem, r.placements@, r.leftovers@),
        tiled(*problem, r.placements@, r.leftovers@),
{
    let mut best = run_order(problem, 0);
    let mut best_obj: Objective = best.eval(problem);
    let mut c: usize = 1;
    while c < ORDERS
        invariant
            1 <= c <= ORDERS,
            all_fit(*problem),
            extended(*problem),
            problem.pieces@.len() < usize::MAX,
            problem.sheet.width < usize::MAX,
            problem.sheet.height < usize::MAX,
            scorable(problem.sheet, problem.pieces@.len()) || orders_gradable(*problem),
            best.placements@ == ordered_result(
                *problem,
                best_order(*problem, c as nat),
            ).placements,
            best.leftovers@ == ordered_result(*problem, best_order(*problem, c as nat)).free,
            best_obj == ordered_objectives(*problem)[best_order(*problem, c as nat)],
            0 <= best_order(*problem, c as nat) < c,
            complete(*problem, best.placements@),
            few_sheets(best.placements@, problem.pieces@.len()),
            sliced(*problem, best.placements@, best.leftovers@),
            tiled(*problem, best.placements@, best.leftovers@),
        decreases ORDERS - c,
    {
        let sol = run_order(problem, c);
        let obj = sol.eval(problem);
        assert(obj == ordered_objectives(*problem)[c as int]);
        if obj.is_better(&best_obj) {
            best = sol;
            best_obj = obj;
        }
        c += 1;
    }
    best
}

/// No rectangle that the piece goes into is smaller than number `slot`, and none in front of it
/// is as small.
pub open spec fn least_room(free: Seq<FreeRect>, piece: Piece, slot: int) -> bool {
    forall|j: int|
        0 <= j < free.len() && (goes(#[trigger] free[j], piece, false) || goes(
            free[j],
            piece,
            true,
        )) ==> {
            let (a, b) = (free[slot].w * free[slot].h, free[j].w * free[j].h);
            a < b || (a == b && slot <= j)
        }
}

proof fn lemma_least_room(free: Seq<FreeRect>, p: Piece, n: nat)
    requires
        n <= free.len(),
    ensures
        match smallest_room(free, p, n) {
            Some(i) => {
                &&& 0 <= i < n
                &&& goes(free[i], p, false) || goes(free[i], p, true)
                &&& forall|j: int|
                    0 <= j < n && (goes(#[trigger] free[j], p, false) || goes(free[j], p, true))
                        ==> {
                        let (a, b) = (free[i].w * free[i].h, free[j].w * free[j].h);
                        a < b || (a == b && i <= j)
                    }
            },
            None => forall|j: int|
                0 <= j < n ==> !goes(#[trigger] free[j], p, false) && !goes(free[j], p, true),
        },
    decreases n,
{
    if n > 0 {
        lemma_least_room(free, p, (n - 1) as nat);
    }
}

/// Extent of a member along a column or a row.
pub open spec fn along(problem: Problem, m: (usize, bool), vertical: bool) -> int {
    let p = problem.pieces@[m.0 as int];
    if vertical {
        lying_h(p, m.1)
    } else {
        lying_w(p, m.1)
    }
}

/// The strip that a head begins in one direction and one orientation, to be topped up from `rest`.
pub open spec fn strip_of(
    problem: Problem,
    head: usize,
    rest: Seq<usize>,
    vertical: bool,
    rotated: bool,
) -> Strip {
    let p = problem.pieces@[head as int];
    Strip {
        pieces: problem.pieces@,
        candidates: rest,
        cross_cap: (if vertical {
            lying_w(p, rotated)
        } else {
            lying_h(p, rotated)
        }) as u32,
        vertical,
    }
}

/// What the head leaves of the rectangle along its strip.
pub open spec fn budget_of(
    problem: Problem,
    fr: FreeRect,
    head: usize,
    vertical: bool,
    rotated: bool,
) -> int {
    let p = problem.pieces@[head as int];
    if vertical {
        fr.h - lying_h(p, rotated)
    } else {
        fr.w - lying_w(p, rotated)
    }
}

/// From `a` to `b` the first piece that remains is laid in room number `slot` at the head of a
/// strip, topped up by a group of the others. The room is the smallest that the head goes into,
/// and a new sheet only where it goes into none. The group is the longest that the strip has room
/// for, and no strip that the head could begin here holds a group of more area. The members
/// stand one behind the other, the longest first, of equally long ones the one with the smaller
/// number.
pub open spec fn tops_up(
    problem: Problem,
    a: Pass,
    b: Pass,
    slot: int,
    vertical: bool,
    rotated: bool,
    group: Seq<(usize, bool)>,
    ms: Seq<(usize, bool)>,
) -> bool {
    let head = a.remaining[0];
    let rest = a.remaining.drop_first();
    let p = problem.pieces@[head as int];
    let fr = room(problem.sheet, a.pack, slot);
    let strip = strip_of(problem, head, rest, vertical, rotated);
    let budget = budget_of(problem, fr, head, vertical, rotated);
    let done = a.pack.placements.len() as int;
    &&& 0 <= slot <= a.pack.free.len()
    &&& slot < a.pack.free.len() ==> least_room(a.pack.free, p, slot)
    &&& slot == a.pack.free.len() ==> goes_nowhere(a.pack.free, p)
    &&& b.pack.sheets == if slot < a.pack.free.len() {
        a.pack.sheets
    } else {
        a.pack.sheets + 1
    }
    &&& goes(fr, p, rotated)
    &&& strip.total(group) <= budget
    &&& strip.reachable(rest.len(), strip.total(group))
    &&& forall|v: int|
        strip.total(group) < v <= budget ==> !#[trigger] strip.reachable(rest.len(), v)
    &&& forall|v2: bool, r2: bool|
        goes(fr, p, r2) ==> group_area(problem.pieces@, group) >= group_area(
            problem.pieces@,
            (#[trigger] strip_of(problem, head, rest, v2, r2)).best(
                budget_of(problem, fr, head, v2, r2) as u32,
            ),
        )
    &&& ms.to_multiset() == (seq![(head, rotated)] + group).to_multiset()
    &&& forall|i: int, j: int|
        0 <= i < j < ms.len() ==> {
            let (x, y) = (
                along(problem, #[trigger] ms[i], vertical),
                along(problem, #[trigger] ms[j], vertical),
            );
            x > y || (x == y && ms[i].0 <= ms[j].0)
        }
    &&& b.pack.placements.len() == done + ms.len()
    &&& b.pack.placements.take(done) == a.pack.placements
    &&& forall|i: int|
        0 <= i < ms.len() ==> {
            let pl = #[trigger] b.pack.placements[done + i];
            &&& pl.sheet_idx == fr.sheet_idx
            &&& pl.piece_idx == ms[i].0
            &&& pl.rotated == ms[i].1
            &&& if vertical {
                pl.x == fr.x
            } else {
                pl.y == fr.y
            }
            &&& i == 0 ==> pl.x == fr.x && pl.y == fr.y
            &&& i > 0 ==> {
                let before = b.pack.placements[done + i - 1];
                if vertical {
                    pl.y == before.y + along(problem, ms[i - 1], vertical)
                } else {
                    pl.x == before.x + along(problem, ms[i - 1], vertical)
                }
            }
        }
    &&& forall|v: usize|
        #[trigger] b.remaining.contains(v) <==> a.remaining.contains(v) && !is_member(ms, v)
}

/// No block is denser than the one that is chosen.
proof fn lemma_none_denser(
    problem: Problem,
    fr: FreeRect,
    head: usize,
    rest: Seq<usize>,
    vertical: bool,
    rotated: bool,
)
    requires
        head < problem.pieces@.len(),
        goes(fr, problem.pieces@[head as int], rotated),
    ensures
        ({
            let b = densest(problem, fr, head as int, rest)->0;
            group_area(problem.pieces@, b.group) >= group_area(
                problem.pieces@,
                strip_of(problem, head, rest, vertical, rotated).best(
                    budget_of(problem, fr, head, vertical, rotated) as u32,
                ),
            )
        }),
{
    let p = problem.pieces@[head as int];
    let r = if turns(p) {
        rotated
    } else {
        false
    };
    assert(shape(problem, fr, head as int, rest, vertical, r) is Some);
    let s = shape(problem, fr, head as int, rest, vertical, r)->0;
    assert(strip_of(problem, head, rest, vertical, rotated) == strip_of(
        problem,
        head,
        rest,
        vertical,
        r,
    ));
    assert(s.group == strip_of(problem, head, rest, vertical, r).best(
        budget_of(problem, fr, head, vertical, r) as u32,
    ));
    let ps = problem.pieces@;
    let x1 = shape(problem, fr, head as int, rest, true, false);
    let x2 = shape(problem, fr, head as int, rest, true, true);
    let x3 = shape(problem, fr, head as int, rest, false, false);
    let x4 = shape(problem, fr, head as int, rest, false, true);
    let d2 = denser(ps, x1, x2);
    let d3 = denser(ps, d2, x3);
    let d4 = denser(ps, d3, x4);
    assert(densest(problem, fr, head as int, rest) == d4);
}

/// The members of a block are the head and its group, in order of length.
proof fn lemma_members_in_order(problem: Problem, head: usize, b: Block)
    requires
        b.group.len() < usize::MAX,
        ({
            let members = seq![(head, b.rotated)] + b.group;
            let o = MemberOrder { pieces: problem.pieces@, members, vertical: b.vertical };
            forall|i: int| 0 <= i < members.len() ==> #[trigger] o.ranks(i)
        }),
    ensures
        ({
            let ms = laid_order(problem, head, b);
            &&& ms.to_multiset() == (seq![(head, b.rotated)] + b.group).to_multiset()
            &&& forall|i: int, j: int|
                0 <= i < j < ms.len() ==> {
                    let (x, y) = (
                        along(problem, #[trigger] ms[i], b.vertical),
                        along(problem, #[trigger] ms[j], b.vertical),
                    );
                    x > y || (x == y && ms[i].0 <= ms[j].0)
                }
        }),
{
    let members = seq![(head, b.rotated)] + b.group;
    let o = MemberOrder { pieces: problem.pieces@, members, vertical: b.vertical };
    let n = members.len();
    crate::sorting::lemma_order_exists(o, n);
    let order = order_of(o, n);
    assert(crate::sorting::in_order(o, n, order));
    assert(order.no_duplicates()) by {
        assert forall|i: int, j: int| 0 <= i < order.len() && 0 <= j < order.len() && i
            != j implies order[i] != order[j] by {
            if i < j {
                assert(crate::sorting::precedes(o, order[i] as int, order[j] as int));
            } else {
                assert(crate::sorting::precedes(o, order[j] as int, order[i] as int));
            }
        }
    }
    lemma_arranged(members, order);
    let ms = laid_order(problem, head, b);
    assert forall|i: int, j: int| 0 <= i < j < ms.len() implies ({
        let (x, y) = (
            along(problem, #[trigger] ms[i], b.vertical),
            along(problem, #[trigger] ms[j], b.vertical),
        );
        x > y || (x == y && ms[i].0 <= ms[j].0)
    }) by {
        assert(crate::sorting::precedes(o, order[i] as int, order[j] as int));
    }
}

/// The members of a block stand one behind the other.
proof fn lemma_members_stand(
    problem: Problem,
    fr: FreeRect,
    ms: Seq<(usize, bool)>,
    vertical: bool,
    i: int,
)
    requires
        0 <= i < ms.len(),
        laid_len(problem, ms, vertical, ms.len()) <= if vertical {
            fr.h
        } else {
            fr.w
        },
        fr.right() <= u32::MAX,
        fr.bottom() <= u32::MAX,
    ensures
        ({
            let list = laid(problem, fr, ms, vertical, ms.len());
            let pl = list[i];
            &&& pl.sheet_idx == fr.sheet_idx
            &&& pl.piece_idx == ms[i].0
            &&& pl.rotated == ms[i].1
            &&& if vertical {
                pl.x == fr.x
            } else {
                pl.y == fr.y
            }
            &&& i == 0 ==> pl.x == fr.x && pl.y == fr.y
            &&& i > 0 ==> {
                let before = list[i - 1];
                if vertical {
                    pl.y == before.y + along(problem, ms[i - 1], vertical)
                } else {
                    pl.x == before.x + along(problem, ms[i - 1], vertical)
                }
            }
        }),
{
    lemma_laid_len_grows(problem, ms, vertical, i as nat, ms.len());
    if i > 0 {
        lemma_laid_len_grows(problem, ms, vertical, (i - 1) as nat, ms.len());
    }
}

/// One step of a pass tops up one strip.
#[verifier::rlimit(40)]
proof fn lemma_tops_up(problem: Problem, st: Pass)
    requires
        pass_ok(problem, st),
        all_fit(problem),
        st.remaining.len() > 0,
        problem.pieces@.len() < usize::MAX,
    ensures
        one_block(problem, st, groupsub_step(problem, st)),
{
    let head = st.remaining[0];
    let piece = problem.pieces@[head as int];
    assert(fits_sheet(problem, head as int));
    lemma_head_room(problem, st.pack, head as int);
    lemma_least_room(st.pack.free, problem.pieces[head as int], st.pack.free.len());
    let (p, fi) = head_room(problem, st.pack, head as int);
    let fr = p.free[fi];
    assert(fr == room(problem.sheet, st.pack, fi));
    lemma_free_within(problem, p, fi);
    let rest = st.remaining.drop_first();
    assert forall|i: int| 0 <= i < rest.len() implies #[trigger] rest[i]
        < problem.pieces@.len() by {
        assert(rest[i] == st.remaining[i + 1]);
    }
    assert(!rest.contains(head)) by {
        if rest.contains(head) {
            let i = choose|i: int| 0 <= i < rest.len() && rest[i] == head;
            assert(st.remaining[i + 1] == st.remaining[0]);
        }
    }
    lemma_block_of(problem, fr, head, rest);
    lemma_densest(problem, fr, head as int, rest);
    let b = densest(problem, fr, head as int, rest)->0;
    let ms = laid_order(problem, head, b);
    let strip = strip_of(problem, head, rest, b.vertical, b.rotated);
    let budget = budget_of(problem, fr, head, b.vertical, b.rotated);
    assert(b.group == strip.best(budget as u32));
    law_best_group(strip, budget as u32);
    assert forall|v2: bool, r2: bool| goes(fr, piece, r2) implies group_area(
        problem.pieces@,
        b.group,
    ) >= group_area(
        problem.pieces@,
        (#[trigger] strip_of(problem, head, rest, v2, r2)).best(
            budget_of(problem, fr, head, v2, r2) as u32,
        ),
    ) by {
        lemma_none_denser(problem, fr, head, rest, v2, r2);
    }
    lemma_members_in_order(problem, head, b);
    let st2 = groupsub_step(problem, st);
    lemma_without(st.remaining, ms);
    let more = laid(problem, fr, ms, b.vertical, ms.len());
    let done = st.pack.placements.len() as int;
    assert(st2.pack.placements == st.pack.placements + more);
    assert(st2.pack.placements.take(done) =~= st.pack.placements);
    assert forall|i: int| 0 <= i < ms.len() implies ({
        let pl = #[trigger] st2.pack.placements[done + i];
        &&& pl.sheet_idx == fr.sheet_idx
        &&& pl.piece_idx == ms[i].0
        &&& pl.rotated == ms[i].1
        &&& if b.vertical {
            pl.x == fr.x
        } else {
            pl.y == fr.y
        }
        &&& i == 0 ==> pl.x == fr.x && pl.y == fr.y
        &&& i > 0 ==> {
            let before = st2.pack.placements[done + i - 1];
            if b.vertical {
                pl.y == before.y + along(problem, ms[i - 1], b.vertical)
            } else {
                pl.x == before.x + along(problem, ms[i - 1], b.vertical)
            }
        }
    }) by {
        lemma_members_stand(problem, fr, ms, b.vertical, i);
        assert(st2.pack.placements[done + i] == more[i]);
        if i > 0 {
            assert(st2.pack.placements[done + i - 1] == more[i - 1]);
        }
    }
    assert(tops_up(problem, st, st2, fi, b.vertical, b.rotated, b.group, ms));
}

/// One strip is topped up, in some room, direction and orientation.
pub open spec fn one_block(problem: Problem, a: Pass, b: Pass) -> bool {
    exists|
        slot: int,
        vertical: bool,
        rotated: bool,
        group: Seq<(usize, bool)>,
        ms: Seq<(usize, bool)>,
    | #[trigger] tops_up(problem, a, b, slot, vertical, rotated, group, ms)
}

/// A pass goes block by block until no piece remains.
pub open spec fn block_by_block(problem: Problem, passes: Seq<Pass>) -> bool {
    &&& passes.len() >= 1
    &&& passes.last().remaining.len() == 0
    &&& forall|m: int|
        0 <= m < passes.len() - 1 ==> one_block(problem, #[trigger] passes[m], passes[m + 1])
}

proof fn lemma_block_by_block(problem: Problem, st: Pass) -> (passes: Seq<Pass>)
    requires
        pass_ok(problem, st),
        all_fit(problem),
        problem.pieces@.len() < usize::MAX,
    ensures
        block_by_block(problem, passes),
        passes[0] == st,
        passes.last() == groupsub_run(problem, st),
    decreases st.remaining.len(),
{
    if st.remaining.len() == 0 {
        seq![st]
    } else {
        lemma_groupsub_step(problem, st);
        lemma_tops_up(problem, st);
        let later = lemma_block_by_block(problem, groupsub_step(problem, st));
        let passes = seq![st] + later;
        assert forall|m: int| 0 <= m < passes.len() - 1 implies one_block(
            problem,
            #[trigger] passes[m],
            passes[m + 1],
        ) by {
            assert(passes[m + 1] == later[m]);
            if m > 0 {
                assert(passes[m] == later[m - 1]);
                assert(later[m] == later[(m - 1) + 1]);
            }
        }
        assert(passes.last() == later.last());
        passes
    }
}

/// A pass takes the pieces in the order of its key, block by block: from one whole sheet and all
/// pieces to where none remains.
pub proof fn law_pass_goes_block_by_block(problem: Problem, key: SortKey, dir: SortDir)
    requires
        all_fit(problem),
        problem.pieces@.len() < usize::MAX,
        forall|i: int|
            0 <= i < problem.pieces@.len() ==> (#[trigger] problem.pieces@[i]).width > 0
                && problem.pieces@[i].height > 0,
    ensures
        exists|passes: Seq<Pass>|
            {
                &&& #[trigger] block_by_block(problem, passes)
                &&& passes[0].remaining == keyed_order(problem, key, dir)
                &&& passes[0].pack == fresh(problem.sheet)
                &&& passes.last().pack == groupsub_result(problem, key, dir)
            },
{
    reveal(groupsub_result);
    super::choices::law_pieces_by_key(problem, key, dir);
    let order = keyed_order(problem, key, dir);
    let st = Pass { pack: fresh(problem.sheet), remaining: order };
    lemma_fresh(problem);
    lemma_tiles_fresh(problem);
    let s = placed_indices(st.pack.placements);
    assert(s =~= Seq::empty());
    assert forall|v: usize| v < problem.pieces@.len() implies s.contains(v)
        != order.contains(v) by {
        crate::sorting::lemma_all_present(order, problem.pieces@.len(), v);
    }
    let passes = lemma_block_by_block(problem, st);
    assert(block_by_block(problem, passes));
}

} // verus!
