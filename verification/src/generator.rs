//! Random problems with a known solution: sheets cut into rows and the rows into pieces.

use rand_xoshiro::Xoshiro256StarStar;
use vstd::multiset::Multiset;
use vstd::prelude::*;

use crate::bounds::law_area_bound;
use crate::cuts::{cut_of, cut_pieces, part_sum, weight_sum, well_cut};
use crate::decoder::plain;
use crate::exact::bpc::piece_area;
use crate::layout::{
    bottom_part, lemma_packed_none, lemma_packed_open, lemma_packed_refine, left_part, packed,
    right_part, slices, slicing_ok, top_part, Slicing,
};
use crate::model::{cells, sheet_cell, FreeRect, Piece, Placement, Sheet, Solution};
use crate::packing::{complete, few_sheets, known_pieces, placed_indices, sliced, sliced_sheets};
use crate::parse::FlatProblem;
use crate::rng::{after_shuffle, shuffle, shuffle_of};
use crate::sorting::{arranged, lemma_arranged};
use crate::text::{append_number, decimal};

verus! {

/// A problem and a solution of it.
pub struct Output {
    pub problem: FlatProblem,
    pub optimal_solution: Solution,
}

/// Settings of the generator.
pub struct GeneratorConfig {
    pub sheet: Sheet,
    /// Number of sheets that are cut up.
    pub k: usize,
    /// Least side of a piece.
    pub min_size: u32,
    /// Width of the saw cut; the edges of the sheet are not sawn.
    pub kerf: u32,
    /// `weights[i]` is the chance that a rectangle is cut `i + 1` times in one direction,
    /// compared with the other weights. Where so many cuts leave a piece too small, fewer are
    /// made.
    pub weights: Vec<u32>,
}

/// What of a length is in front of part `k`.
pub open spec fn offset_of(lengths: Seq<u32>, kerf: u32, k: nat) -> int
    decreases k,
{
    if k == 0 {
        0
    } else {
        offset_of(lengths, kerf, (k - 1) as nat) + lengths[k - 1] + kerf
    }
}

/// Part `i` of a rectangle that is cut into lengths, from left to right where `vertical`, from
/// top to bottom else.
pub open spec fn cut_part(
    fr: FreeRect,
    lengths: Seq<u32>,
    kerf: u32,
    vertical: bool,
    i: int,
) -> FreeRect {
    let o = offset_of(lengths, kerf, i as nat);
    if vertical {
        FreeRect { x: (fr.x + o) as u32, w: lengths[i], ..fr }
    } else {
        FreeRect { y: (fr.y + o) as u32, h: lengths[i], ..fr }
    }
}

/// All parts of a rectangle.
pub open spec fn cut_parts(fr: FreeRect, lengths: Seq<u32>, kerf: u32, vertical: bool) -> Seq<
    FreeRect,
> {
    Seq::new(lengths.len(), |i: int| cut_part(fr, lengths, kerf, vertical, i))
}

/// The side along which a rectangle is cut.
pub open spec fn extent_of(fr: FreeRect, vertical: bool) -> u32 {
    if vertical {
        fr.w
    } else {
        fr.h
    }
}

/// The first `k` rectangles of a list, each cut.
pub open spec fn stage(
    cfg: GeneratorConfig,
    list: Seq<FreeRect>,
    vertical: bool,
    k: nat,
    rng: Xoshiro256StarStar,
) -> (Seq<FreeRect>, Xoshiro256StarStar)
    decreases k,
{
    if k == 0 {
        (Seq::empty(), rng)
    } else {
        let (done, r) = stage(cfg, list, vertical, (k - 1) as nat, rng);
        let fr = list[k - 1];
        let (lengths, r2) = cut_of(
            extent_of(fr, vertical),
            cfg.min_size,
            cfg.kerf,
            cfg.weights@,
            r,
        );
        (done + cut_parts(fr, lengths, cfg.kerf, vertical), r2)
    }
}

/// The pieces of sheet `s`: it is cut into rows, and these into pieces.
pub open spec fn sheet_pieces(cfg: GeneratorConfig, s: int, rng: Xoshiro256StarStar) -> (
    Seq<FreeRect>,
    Xoshiro256StarStar,
) {
    let (rows, r) = stage(cfg, seq![sheet_cell(cfg.sheet, s)], false, 1, rng);
    stage(cfg, rows, true, rows.len(), r)
}

/// The pieces of the first `n` sheets.
pub open spec fn all_pieces(cfg: GeneratorConfig, n: nat, rng: Xoshiro256StarStar) -> (
    Seq<FreeRect>,
    Xoshiro256StarStar,
)
    decreases n,
{
    if n == 0 {
        (Seq::empty(), rng)
    } else {
        let (list, r) = all_pieces(cfg, (n - 1) as nat, rng);
        let (more, r2) = sheet_pieces(cfg, n - 1, r);
        (list + more, r2)
    }
}

/// The settings make sense: pieces have a size and fit on a sheet.
pub open spec fn settled(cfg: GeneratorConfig) -> bool {
    &&& 1 <= cfg.min_size <= cfg.sheet.width
    &&& cfg.min_size <= cfg.sheet.height
    &&& 0 < cfg.weights@.len() < u32::MAX
    &&& weight_sum(cfg.weights@, cfg.weights@.len()) > 0
}

/// The cuts that part a rectangle from part `i` on; the saw takes a part of its own.
spec fn part_slicing(lengths: Seq<u32>, kerf: u32, vertical: bool, i: int) -> Slicing
    decreases lengths.len() - i,
{
    if i + 1 >= lengths.len() {
        Slicing::Whole
    } else {
        let rest = part_slicing(lengths, kerf, vertical, i + 1);
        if vertical {
            Slicing::Beside {
                at: lengths[i],
                left: Box::new(Slicing::Whole),
                right: Box::new(
                    Slicing::Beside {
                        at: kerf,
                        left: Box::new(Slicing::Whole),
                        right: Box::new(rest),
                    },
                ),
            }
        } else {
            Slicing::Stacked {
                at: lengths[i],
                top: Box::new(Slicing::Whole),
                bottom: Box::new(
                    Slicing::Stacked {
                        at: kerf,
                        top: Box::new(Slicing::Whole),
                        bottom: Box::new(rest),
                    },
                ),
            }
        }
    }
}

/// What is left of a rectangle from part `i` on.
spec fn rest_from(fr: FreeRect, lengths: Seq<u32>, kerf: u32, vertical: bool, i: int) -> FreeRect {
    let o = offset_of(lengths, kerf, i as nat);
    if vertical {
        FreeRect { x: (fr.x + o) as u32, w: (fr.w - o) as u32, ..fr }
    } else {
        FreeRect { y: (fr.y + o) as u32, h: (fr.h - o) as u32, ..fr }
    }
}

proof fn lemma_offsets(lengths: Seq<u32>, kerf: u32, k: nat)
    requires
        k <= lengths.len(),
    ensures
        offset_of(lengths, kerf, k) == part_sum(lengths.take(k as int)) + k * kerf,
        0 <= offset_of(lengths, kerf, k),
    decreases k,
{
    let t = lengths.take(k as int);
    if k > 0 {
        lemma_offsets(lengths, kerf, (k - 1) as nat);
        assert(t.drop_last() =~= lengths.take(k - 1));
        assert(k * kerf == (k - 1) * kerf + kerf) by (nonlinear_arith);
    } else {
        assert(0 * kerf == 0);
    }
}

proof fn lemma_offset_grows(lengths: Seq<u32>, kerf: u32, j: nat, k: nat)
    requires
        j <= k <= lengths.len(),
    ensures
        offset_of(lengths, kerf, j) <= offset_of(lengths, kerf, k),
    decreases k,
{
    if j < k {
        lemma_offset_grows(lengths, kerf, j, (k - 1) as nat);
    }
}

/// A well cut length ends where its last part does.
proof fn lemma_last_end(extent: u32, min_size: u32, kerf: u32, lengths: Seq<u32>)
    requires
        well_cut(extent, min_size, kerf, lengths),
    ensures
        offset_of(lengths, kerf, (lengths.len() - 1) as nat) + lengths.last() == extent,
{
    let n = lengths.len();
    lemma_offsets(lengths, kerf, (n - 1) as nat);
    assert(lengths.drop_last() =~= lengths.take(n - 1));
}

proof fn lemma_part_slicing(
    fr: FreeRect,
    lengths: Seq<u32>,
    kerf: u32,
    min_size: u32,
    vertical: bool,
    i: int,
)
    requires
        well_cut(extent_of(fr, vertical), min_size, kerf, lengths),
        0 <= i < lengths.len(),
        fr.right() <= u32::MAX,
        fr.bottom() <= u32::MAX,
    ensures
        ({
            let u = part_slicing(lengths, kerf, vertical, i);
            let r = rest_from(fr, lengths, kerf, vertical, i);
            &&& slicing_ok(u, r)
            &&& cut_parts(fr, lengths, kerf, vertical).skip(i).to_multiset().subset_of(
                slices(u, r),
            )
        }),
    decreases lengths.len() - i,
{
    let u = part_slicing(lengths, kerf, vertical, i);
    let r = rest_from(fr, lengths, kerf, vertical, i);
    let parts = cut_parts(fr, lengths, kerf, vertical);
    let all = parts.skip(i);
    let p = parts[i];
    let e = Seq::<FreeRect>::empty();
    e.to_multiset_ensures();
    assert(e.to_multiset() =~= Multiset::empty());
    lemma_last_end(extent_of(fr, vertical), min_size, kerf, lengths);
    lemma_offsets(lengths, kerf, i as nat);
    if i + 1 >= lengths.len() {
        assert(all =~= e.push(p));
        assert(p == r);
    } else {
        lemma_part_slicing(fr, lengths, kerf, min_size, vertical, i + 1);
        lemma_offset_grows(lengths, kerf, (i + 1) as nat, (lengths.len() - 1) as nat);
        let next = rest_from(fr, lengths, kerf, vertical, i + 1);
        let o = offset_of(lengths, kerf, i as nat);
        assert(offset_of(lengths, kerf, (i + 1) as nat) == o + lengths[i] + kerf);
        if vertical {
            assert(left_part(r, lengths[i]) == p);
            assert(right_part(right_part(r, lengths[i]), kerf) == next);
        } else {
            assert(top_part(r, lengths[i]) == p);
            assert(bottom_part(bottom_part(r, lengths[i]), kerf) == next);
        }
        let rest = parts.skip(i + 1);
        assert(seq![p] =~= e.push(p));
        assert(all =~= seq![p] + rest);
        vstd::seq_lib::lemma_multiset_commutative(seq![p], rest);
        reveal_with_fuel(slicing_ok, 3);
        reveal_with_fuel(slices, 3);
        let v2 = part_slicing(lengths, kerf, vertical, i + 1);
        assert forall|v: FreeRect| all.to_multiset().count(v) <= slices(u, r).count(v) by {
            assert(rest.to_multiset().count(v) <= slices(v2, next).count(v));
        }
    }
}

/// A rectangle that is among those cut from some sheets may be cut into parts.
proof fn lemma_cut_one(
    sheet: Sheet,
    n: nat,
    others: Seq<FreeRect>,
    fr: FreeRect,
    lengths: Seq<u32>,
    kerf: u32,
    min_size: u32,
    vertical: bool,
    used: Multiset<FreeRect>,
)
    requires
        packed(sheet, n, used),
        used == others.to_multiset().insert(fr),
        well_cut(extent_of(fr, vertical), min_size, kerf, lengths),
    ensures
        packed(
            sheet,
            n,
            others.to_multiset().add(cut_parts(fr, lengths, kerf, vertical).to_multiset()),
        ),
{
    crate::layout::lemma_packed_within(sheet, n, used, fr);
    let parts = cut_parts(fr, lengths, kerf, vertical);
    let u = part_slicing(lengths, kerf, vertical, 0);
    lemma_part_slicing(fr, lengths, kerf, min_size, vertical, 0);
    assert(rest_from(fr, lengths, kerf, vertical, 0) == fr);
    assert(parts.skip(0) =~= parts);
    lemma_packed_refine(sheet, n, used, fr, u, parts.to_multiset());
    assert(used.remove(fr) =~= others.to_multiset());
}

/// The area of all rectangles.
pub open spec fn area_sum(list: Seq<FreeRect>) -> int
    decreases list.len(),
{
    if list.len() == 0 {
        0
    } else {
        area_sum(list.drop_last()) + list.last().w * list.last().h
    }
}

proof fn lemma_area_concat(a: Seq<FreeRect>, b: Seq<FreeRect>)
    ensures
        area_sum(a + b) == area_sum(a) + area_sum(b),
    decreases b.len(),
{
    if b.len() == 0 {
        assert(a + b =~= a);
    } else {
        lemma_area_concat(a, b.drop_last());
        assert((a + b).drop_last() =~= a + b.drop_last());
    }
}

proof fn lemma_area_remove(list: Seq<FreeRect>, i: int)
    requires
        0 <= i < list.len(),
    ensures
        area_sum(list.remove(i)) == area_sum(list) - list[i].w * list[i].h,
    decreases list.len(),
{
    let d = list.drop_last();
    let r = list.remove(i);
    if i == list.len() - 1 {
        assert(r =~= d);
    } else {
        lemma_area_remove(d, i);
        assert(r.drop_last() =~= d.remove(i));
    }
}

/// The order of rectangles is of no account for their area.
proof fn lemma_area_order(a: Seq<FreeRect>, b: Seq<FreeRect>)
    requires
        a.to_multiset() == b.to_multiset(),
    ensures
        area_sum(a) == area_sum(b),
    decreases a.len(),
{
    a.to_multiset_ensures();
    b.to_multiset_ensures();
    if a.len() > 0 {
        let v = a.last();
        assert(a[a.len() - 1] == v);
        assert(a.contains(v));
        assert(b.to_multiset().count(v) > 0);
        assert(b.contains(v));
        let i = choose|i: int| 0 <= i < b.len() && b[i] == v;
        assert(a.remove(a.len() - 1) =~= a.drop_last());
        assert(a.drop_last().to_multiset() =~= b.remove(i).to_multiset());
        lemma_area_order(a.drop_last(), b.remove(i));
        lemma_area_remove(b, i);
    } else {
        assert(b.len() == 0);
    }
}

/// Without a saw cut the parts have the area of the whole.
proof fn lemma_parts_area(fr: FreeRect, lengths: Seq<u32>, vertical: bool, k: nat)
    requires
        k <= lengths.len(),
    ensures
        area_sum(cut_parts(fr, lengths, 0, vertical).take(k as int)) == part_sum(
            lengths.take(k as int),
        ) * (if vertical {
            fr.h as int
        } else {
            fr.w as int
        }),
    decreases k,
{
    let parts = cut_parts(fr, lengths, 0, vertical);
    let other = if vertical {
        fr.h as int
    } else {
        fr.w as int
    };
    let (t, l) = (parts.take(k as int), lengths.take(k as int));
    if k == 0 {
        assert(0 * other == 0);
    } else {
        lemma_parts_area(fr, lengths, vertical, (k - 1) as nat);
        assert(t.drop_last() =~= parts.take(k - 1));
        assert(l.drop_last() =~= lengths.take(k - 1));
        let (a, b) = (part_sum(l.drop_last()), l.last() as int);
        assert((a + b) * other == a * other + b * other) by (nonlinear_arith);
        assert(b * other == other * b) by (nonlinear_arith);
    }
}

proof fn lemma_cut_area(fr: FreeRect, lengths: Seq<u32>, min_size: u32, vertical: bool)
    requires
        well_cut(extent_of(fr, vertical), min_size, 0, lengths),
    ensures
        area_sum(cut_parts(fr, lengths, 0, vertical)) == fr.w * fr.h,
{
    let n = lengths.len();
    lemma_parts_area(fr, lengths, vertical, n);
    assert(cut_parts(fr, lengths, 0, vertical).take(n as int) =~= cut_parts(
        fr,
        lengths,
        0,
        vertical,
    ));
    assert(lengths.take(n as int) =~= lengths);
    assert((n - 1) * 0 == 0);
    let (w, h) = (fr.w as int, fr.h as int);
    assert(w * h == h * w) by (nonlinear_arith);
}

/// Every rectangle has sides that are long enough.
pub open spec fn large_enough(list: Seq<FreeRect>, min_size: u32) -> bool {
    forall|i: int|
        0 <= i < list.len() ==> min_size <= (#[trigger] list[i]).w && min_size <= list[i].h
}

fn cut_one(
    cfg: &GeneratorConfig,
    fr: &FreeRect,
    lengths: &Vec<u32>,
    vertical: bool,
) -> (r: Vec<FreeRect>)
    requires
        well_cut(extent_of(*fr, vertical), cfg.min_size, cfg.kerf, lengths@),
        fr.right() <= u32::MAX,
        fr.bottom() <= u32::MAX,
    ensures
        r@ == cut_parts(*fr, lengths@, cfg.kerf, vertical),
{
    let mut out: Vec<FreeRect> = Vec::new();
    let mut offset: u32 = 0;
    let n: usize = lengths.len();
    let mut i: usize = 0;
    proof {
        lemma_last_end(extent_of(*fr, vertical), cfg.min_size, cfg.kerf, lengths@);
    }
    while i < n
        invariant
            i <= n,
            n == lengths@.len(),
            n >= 1,
            offset_of(lengths@, cfg.kerf, (n - 1) as nat) + lengths@.last() == extent_of(
                *fr,
                vertical,
            ),
            fr.right() <= u32::MAX,
            fr.bottom() <= u32::MAX,
            i < n ==> offset == offset_of(lengths@, cfg.kerf, i as nat),
            out@.len() == i,
            forall|j: int|
                0 <= j < i ==> #[trigger] out@[j] == cut_part(
                    *fr,
                    lengths@,
                    cfg.kerf,
                    vertical,
                    j,
                ),
        decreases n - i,
    {
        let length: u32 = lengths[i];
        proof {
            lemma_offset_grows(lengths@, cfg.kerf, i as nat, (n - 1) as nat);
            lemma_offsets(lengths@, cfg.kerf, i as nat);
        }
        let part = if vertical {
            FreeRect {
                sheet_idx: fr.sheet_idx,
                x: fr.x + offset,
                y: fr.y,
                w: length,
                h: fr.h,
            }
        } else {
            FreeRect {
                sheet_idx: fr.sheet_idx,
                x: fr.x,
                y: fr.y + offset,
                w: fr.w,
                h: length,
            }
        };
        out.push(part);
        if i + 1 < n {
            proof {
                lemma_offset_grows(lengths@, cfg.kerf, (i + 1) as nat, (n - 1) as nat);
            }
            offset = offset + length + cfg.kerf;
        }
        i += 1;
    }
    assert(out@ =~= cut_parts(*fr, lengths@, cfg.kerf, vertical));
    out
}

/// Cuts every rectangle of a list.
fn cut_stage(
    cfg: &GeneratorConfig,
    list: &Vec<FreeRect>,
    vertical: bool,
    rng: &mut Xoshiro256StarStar,
    Ghost(base): Ghost<Seq<FreeRect>>,
    Ghost(n): Ghost<nat>,
) -> (r: Vec<FreeRect>)
    requires
        settled(*cfg),
        large_enough(list@, cfg.min_size),
        packed(cfg.sheet, n, (base + list@).to_multiset()),
    ensures
        (r@, *final(rng)) == stage(*cfg, list@, vertical, list@.len(), *old(rng)),
        large_enough(r@, cfg.min_size),
        packed(cfg.sheet, n, (base + r@).to_multiset()),
        cfg.kerf == 0 ==> area_sum(r@) == area_sum(list@),
{
    let mut out: Vec<FreeRect> = Vec::new();
    let mut k: usize = 0;
    assert(base + out@ + list@.skip(0) =~= base + list@);
    assert(list@.take(0) =~= Seq::empty());
    while k < list.len()
        invariant
            k <= list@.len(),
            settled(*cfg),
            large_enough(list@, cfg.min_size),
            large_enough(out@, cfg.min_size),
            (out@, *rng) == stage(*cfg, list@, vertical, k as nat, *old(rng)),
            packed(cfg.sheet, n, (base + out@ + list@.skip(k as int)).to_multiset()),
            cfg.kerf == 0 ==> area_sum(out@) == area_sum(list@.take(k as int)),
        decreases list@.len() - k,
    {
        let fr = list[k];
        let ghost rest = list@.skip(k + 1);
        let ghost before = out@;
        let ghost others = base + before + rest;
        let ghost used = (base + before + list@.skip(k as int)).to_multiset();
        proof {
            assert(min_side(list@[k as int]) >= cfg.min_size);
            lemma_with_one(base + before, fr, rest);
            assert(list@.skip(k as int) =~= seq![fr] + rest);
            crate::layout::lemma_packed_within(cfg.sheet, n, used, fr);
        }
        let extent: u32 = if vertical {
            fr.w
        } else {
            fr.h
        };
        let lengths = cut_pieces(extent, cfg.min_size, cfg.kerf, &cfg.weights, rng);
        let mut parts = cut_one(cfg, &fr, &lengths, vertical);
        let ghost ps = parts@;
        proof {
            lemma_cut_one(
                cfg.sheet,
                n,
                others,
                fr,
                lengths@,
                cfg.kerf,
                cfg.min_size,
                vertical,
                used,
            );
            lemma_between(base + before, ps, rest);
            assert forall|i: int| 0 <= i < ps.len() implies cfg.min_size <= (#[trigger] ps[i]).w
                && cfg.min_size <= ps[i].h by {
                assert(cfg.min_size <= lengths@[i]);
            }
        }
        out.append(&mut parts);
        proof {
            assert(out@ =~= before + ps);
            assert(base + out@ + rest =~= base + before + ps + rest);
            if cfg.kerf == 0 {
                lemma_cut_area(fr, lengths@, cfg.min_size, vertical);
                lemma_area_concat(before, ps);
                assert(list@.take(k + 1).drop_last() =~= list@.take(k as int));
            }
        }
        k += 1;
    }
    assert(base + out@ + list@.skip(k as int) =~= base + out@);
    assert(list@.take(k as int) =~= list@);
    out
}

/// The shorter side.
spec fn min_side(fr: FreeRect) -> u32 {
    if fr.w <= fr.h {
        fr.w
    } else {
        fr.h
    }
}

proof fn lemma_with_one(a: Seq<FreeRect>, v: FreeRect, b: Seq<FreeRect>)
    ensures
        (a + (seq![v] + b)).to_multiset() == (a + b).to_multiset().insert(v),
{
    let e = Seq::<FreeRect>::empty();
    e.to_multiset_ensures();
    assert(e.to_multiset() =~= Multiset::empty());
    assert(seq![v] =~= e.push(v));
    vstd::seq_lib::lemma_multiset_commutative(seq![v], b);
    vstd::seq_lib::lemma_multiset_commutative(a, seq![v] + b);
    vstd::seq_lib::lemma_multiset_commutative(a, b);
    assert((a + (seq![v] + b)).to_multiset() =~= (a + b).to_multiset().insert(v));
}

proof fn lemma_between(a: Seq<FreeRect>, p: Seq<FreeRect>, b: Seq<FreeRect>)
    ensures
        (a + p + b).to_multiset() == (a + b).to_multiset().add(p.to_multiset()),
{
    vstd::seq_lib::lemma_multiset_commutative(a, p);
    vstd::seq_lib::lemma_multiset_commutative(a + p, b);
    vstd::seq_lib::lemma_multiset_commutative(a, b);
    assert((a + p + b).to_multiset() =~= (a + b).to_multiset().add(p.to_multiset()));
}

/// The pieces of a problem are the rectangles of a list, with their numbers as names.
pub open spec fn pieces_are(pieces: Seq<Piece>, list: Seq<FreeRect>) -> bool {
    &&& pieces.len() == list.len()
    &&& forall|i: int|
        0 <= i < list.len() ==> {
            &&& (#[trigger] pieces[i]).width == list[i].w
            &&& pieces[i].height == list[i].h
            &&& pieces[i].can_rotate
            &&& pieces[i].name@ == decimal((i + 1) as nat)
        }
}

/// Every piece lies where its rectangle was cut.
pub open spec fn lies_at(list: Seq<FreeRect>) -> Seq<Placement> {
    Seq::new(
        list.len(),
        |i: int|
            Placement {
                sheet_idx: list[i].sheet_idx,
                piece_idx: i as usize,
                x: list[i].x,
                y: list[i].y,
                rotated: false,
            },
    )
}

/// The rectangles that a run of the generator cuts, in their final order.
pub open spec fn generated(cfg: GeneratorConfig, rng: Xoshiro256StarStar) -> Seq<FreeRect> {
    let (list, r) = all_pieces(cfg, cfg.k as nat, rng);
    arranged(list, shuffle_of(r, Seq::new(list.len(), |i: int| i as usize)))
}

/// The state of the random numbers after a run of the generator.
pub open spec fn after_generated(
    cfg: GeneratorConfig,
    rng: Xoshiro256StarStar,
) -> Xoshiro256StarStar {
    let (list, r) = all_pieces(cfg, cfg.k as nat, rng);
    after_shuffle(r, list.len())
}

/// A piece lies on sheet `s`.
pub open spec fn is_used(placements: Seq<Placement>, s: int) -> bool {
    exists|i: int| 0 <= i < placements.len() && (#[trigger] placements[i]).sheet_idx == s
}

/// The pieces lie on the first `k` sheets, and on each of them.
pub open spec fn uses_all(placements: Seq<Placement>, k: nat) -> bool {
    few_sheets(placements, k) && forall|s: int| 0 <= s < k ==> #[trigger] is_used(placements, s)
}

/// Some rectangle lies on sheet `s`.
spec fn has_part(list: Seq<FreeRect>, s: int) -> bool {
    exists|i: int| 0 <= i < list.len() && (#[trigger] list[i]).sheet_idx == s
}

proof fn lemma_stage_sheet(
    cfg: GeneratorConfig,
    list: Seq<FreeRect>,
    vertical: bool,
    k: nat,
    rng: Xoshiro256StarStar,
    s: int,
)
    requires
        k <= list.len(),
        forall|i: int| 0 <= i < list.len() ==> (#[trigger] list[i]).sheet_idx == s,
    ensures
        forall|i: int|
            0 <= i < stage(cfg, list, vertical, k, rng).0.len() ==> (#[trigger] stage(
                cfg,
                list,
                vertical,
                k,
                rng,
            ).0[i]).sheet_idx == s,
        k > 0 ==> stage(cfg, list, vertical, k, rng).0.len() > 0,
    decreases k,
{
    if k > 0 {
        lemma_stage_sheet(cfg, list, vertical, (k - 1) as nat, rng, s);
        let done = stage(cfg, list, vertical, (k - 1) as nat, rng).0;
        let all = stage(cfg, list, vertical, k, rng).0;
        assert(list[k - 1].sheet_idx == s);
        assert forall|i: int| 0 <= i < all.len() implies (#[trigger] all[i]).sheet_idx == s by {
            if i < done.len() {
                assert(all[i] == done[i]);
            }
        }
    }
}

proof fn lemma_sheets_cut(cfg: GeneratorConfig, n: nat, rng: Xoshiro256StarStar)
    requires
        n <= usize::MAX,
    ensures
        forall|i: int|
            0 <= i < all_pieces(cfg, n, rng).0.len() ==> (#[trigger] all_pieces(
                cfg,
                n,
                rng,
            ).0[i]).sheet_idx < n,
        forall|s: int| 0 <= s < n ==> #[trigger] has_part(all_pieces(cfg, n, rng).0, s),
    decreases n,
{
    if n > 0 {
        let m = (n - 1) as nat;
        lemma_sheets_cut(cfg, m, rng);
        let (list, r) = all_pieces(cfg, m, rng);
        let first = seq![sheet_cell(cfg.sheet, m as int)];
        let (rows, r2) = stage(cfg, first, false, 1, r);
        lemma_stage_sheet(cfg, first, false, 1, r, m as int);
        lemma_stage_sheet(cfg, rows, true, rows.len(), r2, m as int);
        let more = sheet_pieces(cfg, m as int, r).0;
        let all = all_pieces(cfg, n, rng).0;
        assert forall|i: int| 0 <= i < all.len() implies (#[trigger] all[i]).sheet_idx < n by {
            if i < list.len() {
                assert(all[i] == list[i]);
            } else {
                assert(all[i] == more[i - list.len()]);
            }
        }
        assert forall|s: int| 0 <= s < n implies #[trigger] has_part(all, s) by {
            if s < m {
                assert(has_part(list, s));
                let i = choose|i: int|
                    0 <= i < list.len() && (#[trigger] list[i]).sheet_idx == s;
                assert(all[i].sheet_idx == s);
            } else {
                assert(all[list.len() as int] == more[0]);
                assert(all[list.len() as int].sheet_idx == s);
            }
        }
    }
}

/// The generated pieces lie on all sheets, since they are those that were cut.
proof fn lemma_all_used(list: Seq<FreeRect>, all: Seq<FreeRect>, k: nat)
    requires
        list.to_multiset() == all.to_multiset(),
        forall|i: int| 0 <= i < all.len() ==> (#[trigger] all[i]).sheet_idx < k,
        forall|s: int| 0 <= s < k ==> #[trigger] has_part(all, s),
    ensures
        uses_all(lies_at(list), k),
{
    list.to_multiset_ensures();
    all.to_multiset_ensures();
    let p = lies_at(list);
    assert forall|i: int| 0 <= i < p.len() implies (#[trigger] p[i]).sheet_idx < k by {
        assert(list.contains(list[i]));
        assert(all.to_multiset().count(list[i]) > 0);
        assert(all.contains(list[i]));
        let j = choose|j: int| 0 <= j < all.len() && all[j] == list[i];
        assert(all[j].sheet_idx < k);
    }
    assert forall|s: int| 0 <= s < k implies #[trigger] is_used(p, s) by {
        assert(has_part(all, s));
        let j = choose|j: int| 0 <= j < all.len() && (#[trigger] all[j]).sheet_idx == s;
        assert(all.contains(all[j]));
        assert(list.to_multiset().count(all[j]) > 0);
        assert(list.contains(all[j]));
        let i = choose|i: int| 0 <= i < list.len() && list[i] == all[j];
        assert(p[i].sheet_idx == s);
    }
}

/// A list with the items of `0..n` is a list of each of these.
proof fn lemma_shuffled(order: Seq<usize>, n: nat)
    requires
        n <= usize::MAX,
        order.to_multiset() == Seq::new(n, |i: int| i as usize).to_multiset(),
    ensures
        order.len() == n,
        order.no_duplicates(),
        forall|i: int| 0 <= i < order.len() ==> (#[trigger] order[i]) < n,
{
    let id = Seq::new(n, |i: int| i as usize);
    order.to_multiset_ensures();
    id.to_multiset_ensures();
    assert forall|i: int| 0 <= i < order.len() implies (#[trigger] order[i]) < n by {
        assert(order.contains(order[i]));
        assert(id.to_multiset().count(order[i]) > 0);
        assert(id.contains(order[i]));
    }
    assert(id.no_duplicates());
    id.lemma_multiset_has_no_duplicates();
    order.lemma_multiset_has_no_duplicates_conv();
}

/// Makes a problem with a known solution: `k` sheets are cut into rows and the rows into pieces,
/// which are put in random order.
pub fn generate(cfg: &GeneratorConfig, rng: &mut Xoshiro256StarStar) -> (r: Output)
    requires
        settled(*cfg),
        cfg.k < usize::MAX,
    ensures
        r.problem.sheet == cfg.sheet,
        r.problem.kerf == cfg.kerf,
        pieces_are(r.problem.pieces@, generated(*cfg, *old(rng))),
        r.optimal_solution.placements@ == lies_at(generated(*cfg, *old(rng))),
        r.optimal_solution.leftovers@.len() == 0,
        complete(plain(r.problem), r.optimal_solution.placements@),
        packed(
            cfg.sheet,
            cfg.k as nat,
            cells(r.problem.pieces@, r.optimal_solution.placements@).to_multiset(),
        ),
        sliced(
            plain(r.problem),
            r.optimal_solution.placements@,
            r.optimal_solution.leftovers@,
        ),
        *final(rng) == after_generated(*cfg, *old(rng)),
        generated(*cfg, *old(rng)).to_multiset() == all_pieces(
            *cfg,
            cfg.k as nat,
            *old(rng),
        ).0.to_multiset(),
        uses_all(r.optimal_solution.placements@, cfg.k as nat),
        large_enough(generated(*cfg, *old(rng)), cfg.min_size),
        cfg.kerf == 0 ==> area_sum(generated(*cfg, *old(rng))) == cfg.k * (cfg.sheet.width
            * cfg.sheet.height),
{
    let mut all: Vec<FreeRect> = Vec::new();
    let mut s: usize = 0;
    proof {
        lemma_packed_none(cfg.sheet);
        let e = Seq::<FreeRect>::empty();
        e.to_multiset_ensures();
        assert(all@ =~= e);
        assert(e.to_multiset() =~= Multiset::empty());
        assert(0 * (cfg.sheet.width * cfg.sheet.height) == 0);
    }
    while s < cfg.k
        invariant
            s <= cfg.k,
            cfg.k < usize::MAX,
            settled(*cfg),
            (all@, *rng) == all_pieces(*cfg, s as nat, *old(rng)),
            large_enough(all@, cfg.min_size),
            packed(cfg.sheet, s as nat, all@.to_multiset()),
            cfg.kerf == 0 ==> area_sum(all@) == s * (cfg.sheet.width * cfg.sheet.height),
        decreases cfg.k - s,
    {
        let ghost before = all@;
        let whole = FreeRect {
            sheet_idx: s,
            x: 0,
            y: 0,
            w: cfg.sheet.width,
            h: cfg.sheet.height,
        };
        let mut first: Vec<FreeRect> = Vec::new();
        first.push(whole);
        proof {
            lemma_packed_open(cfg.sheet, s as nat, before.to_multiset());
            assert(whole == sheet_cell(cfg.sheet, s as int));
            assert(first@ =~= seq![whole]);
            lemma_with_one(before, whole, Seq::empty());
            assert(seq![whole] + Seq::empty() =~= seq![whole]);
            assert(before + Seq::empty() =~= before);
        }
        let rows = cut_stage(cfg, &first, false, rng, Ghost(before), Ghost((s + 1) as nat));
        let mut more = cut_stage(cfg, &rows, true, rng, Ghost(before), Ghost((s + 1) as nat));
        let ghost ms = more@;
        all.append(&mut more);
        proof {
            assert(all@ =~= before + ms);
            if cfg.kerf == 0 {
                lemma_area_concat(before, ms);
                reveal_with_fuel(area_sum, 2);
                assert(seq![whole].drop_last() =~= Seq::empty());
                assert(area_sum(first@) == whole.w * whole.h);
                let a = cfg.sheet.width * cfg.sheet.height;
                assert((s + 1) * a == s * a + a) by (nonlinear_arith);
            }
        }
        s += 1;
    }
    let n: usize = all.len();
    let ghost id = Seq::new(n as nat, |i: int| i as usize);
    let mut order: Vec<usize> = Vec::new();
    while order.len() < n
        invariant
            order@.len() <= n,
            id == Seq::new(n as nat, |i: int| i as usize),
            order@ =~= id.take(order@.len() as int),
        decreases n - order@.len(),
    {
        let i: usize = order.len();
        order.push(i);
    }
    assert(order@ =~= id);
    shuffle(&mut order, rng);
    let ghost list = generated(*cfg, *old(rng));
    proof {
        lemma_shuffled(order@, n as nat);
        assert(list == arranged(all@, order@));
        lemma_arranged(all@, order@);
        lemma_sheets_cut(*cfg, cfg.k as nat, *old(rng));
        lemma_all_used(list, all@, cfg.k as nat);
        if cfg.kerf == 0 {
            lemma_area_order(list, all@);
        }
    }
    let mut pieces: Vec<Piece> = Vec::new();
    let mut placements: Vec<Placement> = Vec::new();
    let mut i: usize = 0;
    while i < n
        invariant
            i <= n,
            n == all@.len(),
            order@.len() == n,
            list == arranged(all@, order@),
            forall|j: int| 0 <= j < order@.len() ==> (#[trigger] order@[j]) < n,
            pieces_are(pieces@, list.take(i as int)),
            placements@ == lies_at(list.take(i as int)),
        decreases n - i,
    {
        let ghost (p0, t0) = (pieces@, list.take(i as int));
        assert(order@[i as int] < n);
        let fr = all[order[i]];
        let mut name = String::new();
        append_number(&mut name, i as u64 + 1);
        pieces.push(Piece { name, width: fr.w, height: fr.h, can_rotate: true });
        placements.push(
            Placement { sheet_idx: fr.sheet_idx, piece_idx: i, x: fr.x, y: fr.y, rotated: false },
        );
        proof {
            let t1 = list.take(i + 1);
            assert(list[i as int] == fr);
            assert(t1 =~= t0.push(fr));
            assert(name@ =~= decimal((i + 1) as nat));
            assert forall|j: int| 0 <= j < t1.len() implies {
                &&& (#[trigger] pieces@[j]).width == t1[j].w
                &&& pieces@[j].height == t1[j].h
                &&& pieces@[j].can_rotate
                &&& pieces@[j].name@ == decimal((j + 1) as nat)
            } by {
                if j < i {
                    assert(pieces@[j] == p0[j]);
                    assert(p0[j].width == t0[j].w);
                }
            }
            assert(placements@ =~= lies_at(t1));
        }
        i += 1;
    }
    proof {
        assert(list.take(n as int) =~= list);
    }
    let problem = FlatProblem { sheet: cfg.sheet, kerf: cfg.kerf, pieces };
    let optimal_solution = Solution { placements, leftovers: Vec::new() };
    proof {
        lemma_generated(*cfg, problem, optimal_solution, list, all@);
    }
    Output { problem, optimal_solution }
}

/// What comes out is a complete solution that is cut from the sheets.
proof fn lemma_generated(
    cfg: GeneratorConfig,
    problem: FlatProblem,
    sol: Solution,
    list: Seq<FreeRect>,
    all: Seq<FreeRect>,
)
    requires
        problem.sheet == cfg.sheet,
        list.to_multiset() == all.to_multiset(),
        list.len() <= usize::MAX,
        packed(cfg.sheet, cfg.k as nat, all.to_multiset()),
        large_enough(all, cfg.min_size),
        pieces_are(problem.pieces@, list),
        sol.placements@ == lies_at(list),
        sol.leftovers@.len() == 0,
    ensures
        complete(plain(problem), sol.placements@),
        packed(
            cfg.sheet,
            cfg.k as nat,
            cells(problem.pieces@, sol.placements@).to_multiset(),
        ),
        sliced(plain(problem), sol.placements@, sol.leftovers@),
        large_enough(list, cfg.min_size),
{
    let p = plain(problem);
    let c = cells(problem.pieces@, sol.placements@);
    assert(c =~= list) by {
        assert forall|i: int| 0 <= i < list.len() implies c[i] == list[i] by {
            assert(problem.pieces@[i].width == list[i].w);
        }
    }
    sol.leftovers@.to_multiset_ensures();
    assert(sol.leftovers@.to_multiset() =~= Multiset::empty());
    assert(crate::packing::all_cells(p.pieces@, sol.placements@, sol.leftovers@)
        =~= list.to_multiset());
    assert(known_pieces(p, sol.placements@));
    assert(sliced_sheets(p, sol.placements@, sol.leftovers@, cfg.k as nat));
    let idx = placed_indices(sol.placements@);
    assert(idx.no_duplicates());
    list.to_multiset_ensures();
    all.to_multiset_ensures();
    assert forall|i: int| 0 <= i < list.len() implies cfg.min_size <= (#[trigger] list[i]).w
        && cfg.min_size <= list[i].h by {
        assert(list.contains(list[i]));
        assert(all.to_multiset().count(list[i]) > 0);
        assert(all.contains(list[i]));
        let j = choose|j: int| 0 <= j < all.len() && all[j] == list[i];
        assert(cfg.min_size <= all[j].w);
    }
}

/// Randomly cuts a length; another name of `cut_pieces`.
pub fn cut_extent(
    extent: u32,
    min_size: u32,
    kerf: u32,
    weights: &Vec<u32>,
    rng: &mut Xoshiro256StarStar,
) -> (r: Vec<u32>)
    requires
        0 < weights@.len() < u32::MAX,
        weight_sum(weights@, weights@.len()) > 0,
        min_size <= extent,
    ensures
        (r@, *final(rng)) == cut_of(extent, min_size, kerf, weights@, *old(rng)),
        well_cut(extent, min_size, kerf, r@),
{
    cut_pieces(extent, min_size, kerf, weights, rng)
}

proof fn lemma_generated_area(pieces: Seq<Piece>, list: Seq<FreeRect>, k: nat)
    requires
        pieces_are(pieces, list),
        k <= list.len(),
    ensures
        piece_area(pieces, k) == area_sum(list.take(k as int)),
    decreases k,
{
    if k > 0 {
        lemma_generated_area(pieces, list, (k - 1) as nat);
        assert(list.take(k as int).drop_last() =~= list.take(k - 1));
        assert(pieces[k - 1].width == list[k - 1].w);
    }
}

/// What is generated without a saw cut has no better solution than the known one: no cutting
/// of the pieces takes fewer than `k` sheets.
pub proof fn law_generated_is_optimal(
    problem: FlatProblem,
    list: Seq<FreeRect>,
    k: nat,
    placements: Seq<Placement>,
    n: nat,
)
    requires
        problem.pieces@.len() <= usize::MAX,
        problem.sheet.width > 0,
        problem.sheet.height > 0,
        pieces_are(problem.pieces@, list),
        area_sum(list) == k * (problem.sheet.width * problem.sheet.height),
        complete(plain(problem), placements),
        packed(problem.sheet, n, cells(problem.pieces@, placements).to_multiset()),
    ensures
        k <= n,
{
    let len = list.len();
    lemma_generated_area(problem.pieces@, list, len);
    assert(list.take(len as int) =~= list);
    law_area_bound(plain(problem), placements, n);
    let one = problem.sheet.width * problem.sheet.height;
    assert(k <= n) by (nonlinear_arith)
        requires
            k * one <= n * one,
            one == problem.sheet.width * problem.sheet.height,
            problem.sheet.width > 0,
            problem.sheet.height > 0,
    ;
}

} // verus!
