use vstd::prelude::*;

use crate::expand::{
    copies, expand_problem, is_expansion, lemma_expansion, lemma_layout_shrinkable,
    shrink_solution, shrunk_as, workable,
};
use crate::layout::{bottom_part, right_part};
use crate::model::{
    cells, FreeRect, Piece, PieceType, Placement, Problem, ProblemSpec, Solution, SolutionSpec,
};
use crate::packing::{
    bottom_rest, coherent, complete, corner, corner_slicing, few_sheets, fresh,
    lemma_coherent_sliced, lemma_corner_slicing, lemma_cornered, lemma_fewer_free,
    lemma_free_within, lemma_fresh, lemma_opened, lemma_refined, opened, pack_of, placed_indices,
    right_rest, sliced, solid_pieces, split_parts, Pack,
};
use crate::slas::decoder::{
    find_placement, fit, fits_in, fits_sheet, lemma_first_fit, selected_fit, split_directional,
    spot_of, Spot,
};
use crate::small::{FreeList, Inverses, Selectors, Spots};

verus! {

/// One gene per piece type, which places all its copies batch by batch. `selectors` and
/// `inverses` have one element per copy; only those at which a batch begins are read.
pub struct Gene {
    /// Index into `ProblemSpec::piece_types`.
    pub type_idx: usize,
    /// Prefer the rotated orientation for every copy.
    pub rotate: bool,
    /// Free-leaf selector used when so many copies are placed.
    pub selectors: Selectors,
    /// Direction of the cut used when so many copies are placed.
    pub inverses: Inverses,
}

/// What a gene says.
pub struct GeneView {
    pub type_idx: usize,
    pub rotate: bool,
    pub selectors: Seq<u32>,
    pub inverses: Seq<bool>,
}

impl View for Gene {
    type V = GeneView;

    open spec fn view(&self) -> GeneView {
        GeneView {
            type_idx: self.type_idx,
            rotate: self.rotate,
            selectors: self.selectors@,
            inverses: self.inverses@,
        }
    }
}

impl Clone for Gene {
    fn clone(&self) -> (r: Self)
        ensures
            r@ == self@,
    {
        Gene {
            type_idx: self.type_idx,
            rotate: self.rotate,
            selectors: self.selectors.copy(),
            inverses: self.inverses.copy(),
        }
    }
}

/// Classes of genes, decoded one after the other.
pub type Genome = Vec<Vec<Gene>>;

/// What the genes of a class say.
pub open spec fn class_view(class: Seq<Gene>) -> Seq<GeneView> {
    Seq::new(class.len(), |i: int| class[i]@)
}

/// What the genes of a genome say.
pub open spec fn genome_view(genome: Genome) -> Seq<Seq<GeneView>> {
    Seq::new(genome@.len(), |c: int| class_view(genome@[c]@))
}

/// A batch of equal pieces laid as a grid in the corner of a free rectangle.
pub struct Grid {
    /// Number of pieces.
    pub n: int,
    /// Filled row by row; column by column else.
    pub row_major: bool,
    /// Pieces in a full line.
    pub per_line: int,
    /// Number of full lines.
    pub full: int,
    /// Pieces in the last line where it is not full, else 0.
    pub extra: int,
    /// Width of the whole batch.
    pub cw: int,
    /// Height of the whole batch.
    pub ch: int,
}

/// The number of lines that are begun.
pub open spec fn lines(full: int, extra: int) -> int {
    if extra > 0 {
        full + 1
    } else {
        full
    }
}

/// Extent of the longest line along it, for pieces of length `len`.
pub open spec fn line_len(per_line: int, full: int, extra: int, len: int) -> int {
    if full >= 1 {
        per_line * len
    } else {
        extra * len
    }
}

/// Area that the last line leaves, where it is not full and not the only one.
pub open spec fn hole_area(per_line: int, full: int, extra: int, len: int, across: int) -> int {
    if extra > 0 && full >= 1 {
        (per_line * len - extra * len) * across
    } else {
        0
    }
}

/// The grid of up to `remaining` pieces of `pw` x `ph` in a rectangle of `w` x `h`: as many as
/// fit, by rows or by columns, whichever leaves the smaller hole, by rows where they are equal.
pub open spec fn grid_of(w: u32, h: u32, pw: u32, ph: u32, remaining: int) -> Grid {
    let cols = w as int / pw as int;
    let rows = h as int / ph as int;
    let n = if rows * cols < remaining {
        rows * cols
    } else {
        remaining
    };
    let (row_full, row_extra) = (n / cols, n % cols);
    let (col_full, col_extra) = (n / rows, n % rows);
    if hole_area(cols, row_full, row_extra, pw as int, ph as int) <= hole_area(
        rows,
        col_full,
        col_extra,
        ph as int,
        pw as int,
    ) {
        Grid {
            n,
            row_major: true,
            per_line: cols,
            full: row_full,
            extra: row_extra,
            cw: line_len(cols, row_full, row_extra, pw as int),
            ch: lines(row_full, row_extra) * ph,
        }
    } else {
        Grid {
            n,
            row_major: false,
            per_line: rows,
            full: col_full,
            extra: col_extra,
            cw: lines(col_full, col_extra) * pw,
            ch: line_len(rows, col_full, col_extra, ph as int),
        }
    }
}

/// What holds of a grid: its lines are as long as it says, and it goes into the rectangle.
pub open spec fn grid_ok(g: Grid, w: u32, h: u32, pw: u32, ph: u32) -> bool {
    &&& g.n >= 1
    &&& g.per_line >= 1
    &&& g.full >= 0
    &&& 0 <= g.extra < g.per_line
    &&& g.n == g.full * g.per_line + g.extra
    &&& 0 < g.cw <= w
    &&& 0 < g.ch <= h
    &&& g.row_major ==> g.cw == line_len(g.per_line, g.full, g.extra, pw as int) && g.ch == lines(
        g.full,
        g.extra,
    ) * ph
    &&& !g.row_major ==> g.ch == line_len(g.per_line, g.full, g.extra, ph as int) && g.cw == lines(
        g.full,
        g.extra,
    ) * pw
}

proof fn lemma_lines(n: int, per: int, most: int, len: int, across: int, w: int, h: int)
    requires
        1 <= n <= per * most,
        per >= 1,
        most >= 1,
        len >= 1,
        across >= 1,
        per * len <= w,
        most * across <= h,
    ensures
        n == (n / per) * per + n % per,
        0 <= n % per < per,
        n / per >= 0,
        0 < line_len(per, n / per, n % per, len) <= w,
        0 < lines(n / per, n % per) * across <= h,
        lines(n / per, n % per) <= h,
{
    let full = n / per;
    let extra = n % per;
    vstd::arithmetic::div_mod::lemma_fundamental_div_mod(n, per);
    vstd::arithmetic::div_mod::lemma_mod_bound(n, per);
    vstd::arithmetic::div_mod::lemma_div_pos_is_pos(n, per);
    assert(n == full * per + extra) by (nonlinear_arith)
        requires
            n == per * full + extra,
    ;
    let k = lines(full, extra);
    assert(1 <= k <= most) by (nonlinear_arith)
        requires
            1 <= n <= per * most,
            n == per * full + extra,
            0 <= extra < per,
            full >= 0,
            k == if extra > 0 {
                full + 1
            } else {
                full
            },
            per >= 1,
    ;
    assert(k <= k * across <= most * across) by (nonlinear_arith)
        requires
            1 <= k <= most,
            across >= 1,
    ;
    assert(0 < per * len) by (nonlinear_arith)
        requires
            per >= 1,
            len >= 1,
    ;
    if full < 1 {
        assert(full == 0);
        assert(extra == n) by (nonlinear_arith)
            requires
                n == full * per + extra,
                full == 0,
        ;
        assert(0 < extra * len <= per * len) by (nonlinear_arith)
            requires
                1 <= extra <= per,
                len >= 1,
        ;
    }
}

pub proof fn lemma_grid(w: u32, h: u32, pw: u32, ph: u32, remaining: int)
    requires
        1 <= pw <= w,
        1 <= ph <= h,
        remaining >= 1,
    ensures
        grid_ok(grid_of(w, h, pw, ph, remaining), w, h, pw, ph),
        grid_of(w, h, pw, ph, remaining).n <= remaining,
{
    let cols = w as int / pw as int;
    let rows = h as int / ph as int;
    vstd::arithmetic::div_mod::lemma_fundamental_div_mod(w as int, pw as int);
    vstd::arithmetic::div_mod::lemma_fundamental_div_mod(h as int, ph as int);
    vstd::arithmetic::div_mod::lemma_mod_bound(w as int, pw as int);
    vstd::arithmetic::div_mod::lemma_mod_bound(h as int, ph as int);
    vstd::arithmetic::div_mod::lemma_div_non_zero(w as int, pw as int);
    vstd::arithmetic::div_mod::lemma_div_non_zero(h as int, ph as int);
    assert(cols * pw <= w) by (nonlinear_arith)
        requires
            w == pw * cols + (w as int % pw as int),
            w as int % pw as int >= 0,
    ;
    assert(rows * ph <= h) by (nonlinear_arith)
        requires
            h == ph * rows + (h as int % ph as int),
            h as int % ph as int >= 0,
    ;
    assert(cols >= 1 && rows >= 1);
    assert(rows * cols >= 1) by (nonlinear_arith)
        requires
            cols >= 1,
            rows >= 1,
    ;
    assert(rows * cols == cols * rows) by (nonlinear_arith);
    let n = if rows * cols < remaining {
        rows * cols
    } else {
        remaining
    };
    lemma_lines(n, cols, rows, pw as int, ph as int, w as int, h as int);
    lemma_lines(n, rows, cols, ph as int, pw as int, h as int, w as int);
}

/// Where piece number `i` of the grid goes in the rectangle `fr`.
pub open spec fn grid_placement(
    fr: FreeRect,
    g: Grid,
    pw: u32,
    ph: u32,
    first: int,
    rotated: bool,
    i: int,
) -> Placement {
    let line = i / g.per_line;
    let pos = i % g.per_line;
    let (dx, dy) = if g.row_major {
        (pos * pw, line * ph)
    } else {
        (line * pw, pos * ph)
    };
    Placement {
        sheet_idx: fr.sheet_idx,
        piece_idx: (first + i) as usize,
        x: (fr.x + dx) as u32,
        y: (fr.y + dy) as u32,
        rotated,
    }
}

/// The first `k` pieces of the grid.
pub open spec fn grid_placements(
    fr: FreeRect,
    g: Grid,
    pw: u32,
    ph: u32,
    first: int,
    rotated: bool,
    k: nat,
) -> Seq<Placement> {
    Seq::new(k, |i: int| grid_placement(fr, g, pw, ph, first, rotated, i))
}

/// What the last line of the grid leaves: the rest of the line behind its last piece.
pub open spec fn grid_hole(fr: FreeRect, g: Grid, pw: u32, ph: u32) -> FreeRect {
    if g.row_major {
        FreeRect {
            sheet_idx: fr.sheet_idx,
            x: (fr.x + g.extra * pw) as u32,
            y: (fr.y + g.full * ph) as u32,
            w: (g.cw - g.extra * pw) as u32,
            h: ph,
        }
    } else {
        FreeRect {
            sheet_idx: fr.sheet_idx,
            x: (fr.x + g.full * pw) as u32,
            y: (fr.y + g.extra * ph) as u32,
            w: pw,
            h: (g.ch - g.extra * ph) as u32,
        }
    }
}

/// The list without item `i`, whose place the last item takes.
pub open spec fn swap_removed(free: Seq<FreeRect>, i: int) -> Seq<FreeRect> {
    free.update(i, free.last()).drop_last()
}

/// A batch is laid in the corner of free rectangle `idx`.
pub open spec fn batch_laid(
    st: Pack,
    idx: int,
    pw: u32,
    ph: u32,
    rotated: bool,
    inverse: bool,
    first: int,
    remaining: int,
) -> Pack {
    let fr = st.free[idx];
    let g = grid_of(fr.w, fr.h, pw, ph, remaining);
    let split = swap_removed(st.free, idx) + split_parts(fr, g.cw as u32, g.ch as u32, !inverse);
    Pack {
        free: if g.extra > 0 && g.full >= 1 {
            split.push(grid_hole(fr, g, pw, ph))
        } else {
            split
        },
        placements: st.placements + grid_placements(
            fr,
            g,
            pw,
            ph,
            first,
            rotated,
            g.n as nat,
        ),
        sheets: st.sheets,
    }
}

/// The batch while it is laid, `k` pieces of it placed, seen as a cutting: the corner of the
/// batch is cut line by line.
spec fn batch_rest(fr: FreeRect, g: Grid, pw: u32, ph: u32, k: int) -> FreeRect {
    let c = corner(fr, g.cw as u32, g.ch as u32);
    let line = k / g.per_line;
    let pos = k % g.per_line;
    if pos == 0 {
        if g.row_major {
            bottom_part(c, (line * ph) as u32)
        } else {
            right_part(c, (line * pw) as u32)
        }
    } else {
        if g.row_major {
            FreeRect {
                sheet_idx: fr.sheet_idx,
                x: (fr.x + pos * pw) as u32,
                y: (fr.y + line * ph) as u32,
                w: (g.cw - pos * pw) as u32,
                h: ph,
            }
        } else {
            FreeRect {
                sheet_idx: fr.sheet_idx,
                x: (fr.x + line * pw) as u32,
                y: (fr.y + pos * ph) as u32,
                w: pw,
                h: (g.ch - pos * ph) as u32,
            }
        }
    }
}

/// What is behind the line that is being laid.
spec fn batch_beyond(fr: FreeRect, g: Grid, pw: u32, ph: u32, k: int) -> FreeRect {
    let c = corner(fr, g.cw as u32, g.ch as u32);
    let line = k / g.per_line;
    if g.row_major {
        bottom_part(c, ((line + 1) * ph) as u32)
    } else {
        right_part(c, ((line + 1) * pw) as u32)
    }
}

spec fn batch_pack(
    st: Pack,
    idx: int,
    pw: u32,
    ph: u32,
    rotated: bool,
    inverse: bool,
    first: int,
    remaining: int,
    k: nat,
) -> Pack {
    let fr = st.free[idx];
    let g = grid_of(fr.w, fr.h, pw, ph, remaining);
    let base = st.free.remove(idx) + split_parts(fr, g.cw as u32, g.ch as u32, !inverse);
    let more = base.push(batch_rest(fr, g, pw, ph, k as int));
    Pack {
        free: if k as int % g.per_line == 0 {
            more
        } else {
            more.push(batch_beyond(fr, g, pw, ph, k as int))
        },
        placements: st.placements + grid_placements(fr, g, pw, ph, first, rotated, k),
        sheets: st.sheets,
    }
}

proof fn lemma_batch_start(
    problem: Problem,
    st: Pack,
    idx: int,
    pw: u32,
    ph: u32,
    rotated: bool,
    inverse: bool,
    first: int,
    remaining: int,
)
    requires
        coherent(problem, st),
        0 <= idx < st.free.len(),
        1 <= pw <= st.free[idx].w,
        1 <= ph <= st.free[idx].h,
        remaining >= 1,
    ensures
        coherent(
            problem,
            batch_pack(st, idx, pw, ph, rotated, inverse, first, remaining, 0),
        ),
{
    let fr = st.free[idx];
    let g = grid_of(fr.w, fr.h, pw, ph, remaining);
    lemma_grid(fr.w, fr.h, pw, ph, remaining);
    lemma_free_within(problem, st, idx);
    let st2 = batch_pack(st, idx, pw, ph, rotated, inverse, first, remaining, 0);
    let (cw, ch) = (g.cw as u32, g.ch as u32);
    let parts = split_parts(fr, cw, ch, !inverse);
    let c = corner(fr, cw, ch);
    lemma_corner_slicing(fr, cw, ch, !inverse);
    assert(0int / g.per_line == 0 && 0int % g.per_line == 0) by {
        vstd::arithmetic::div_mod::lemma_small_mod(0, g.per_line as nat);
        vstd::arithmetic::div_mod::lemma_basic_div(0, g.per_line);
    }
    assert(0 * ph == 0 && 0 * pw == 0);
    assert(batch_rest(fr, g, pw, ph, 0) == c);
    let none = Seq::<Placement>::empty();
    let rest = parts.push(c);
    parts.to_multiset_ensures();
    let e = Seq::<FreeRect>::empty();
    e.to_multiset_ensures();
    assert(cells(problem.pieces@, none) =~= e);
    assert(cells(problem.pieces@, none).to_multiset().add(rest.to_multiset())
        =~= parts.to_multiset().insert(c));
    let base = st.free.remove(idx);
    vstd::seq_lib::lemma_multiset_commutative(base, parts);
    (base + parts).to_multiset_ensures();
    assert(st2.free.to_multiset() =~= base.to_multiset().add(rest.to_multiset()));
    assert(grid_placements(fr, g, pw, ph, first, rotated, 0) =~= none);
    assert(st2.placements =~= st.placements + none);
    lemma_refined(problem, st, idx, corner_slicing(cw, ch, !inverse), none, rest, st2);
}

proof fn lemma_step_div(k: int, per: int)
    requires
        k >= 0,
        per >= 1,
    ensures
        0 <= k % per < per,
        k / per >= 0,
        k == (k / per) * per + k % per,
        (k + 1) % per == (if k % per + 1 == per {
            0
        } else {
            k % per + 1
        }),
        (k + 1) / per == (if k % per + 1 == per {
            k / per + 1
        } else {
            k / per
        }),
{
    let q = k / per;
    let r = k % per;
    vstd::arithmetic::div_mod::lemma_fundamental_div_mod(k, per);
    vstd::arithmetic::div_mod::lemma_mod_bound(k, per);
    vstd::arithmetic::div_mod::lemma_div_pos_is_pos(k, per);
    assert(k == q * per + r) by (nonlinear_arith)
        requires
            k == per * q + r,
    ;
    if r + 1 == per {
        assert(k + 1 == (q + 1) * per + 0) by (nonlinear_arith)
            requires
                k == q * per + r,
                r + 1 == per,
        ;
        vstd::arithmetic::div_mod::lemma_fundamental_div_mod_converse(k + 1, per, q + 1, 0);
    } else {
        vstd::arithmetic::div_mod::lemma_fundamental_div_mod_converse(k + 1, per, q, r + 1);
    }
}

/// Room for the next piece of a grid: its place along the line and its line.
proof fn lemma_grid_room(g: Grid, w: u32, h: u32, pw: u32, ph: u32, k: int)
    requires
        grid_ok(g, w, h, pw, ph),
        0 <= k < g.n,
        pw >= 1,
        ph >= 1,
    ensures
        ({
            let line = k / g.per_line;
            let pos = k % g.per_line;
            let (len, across, total, depth) = if g.row_major {
                (pw as int, ph as int, g.cw, g.ch)
            } else {
                (ph as int, pw as int, g.ch, g.cw)
            };
            &&& 0 <= pos < g.per_line
            &&& line >= 0
            &&& 0 <= pos * len
            &&& (pos + 1) * len == pos * len + len
            &&& (pos + 1) * len <= total
            &&& 0 <= line * across
            &&& (line + 1) * across == line * across + across
            &&& (line + 1) * across <= depth
        }),
{
    let line = k / g.per_line;
    let pos = k % g.per_line;
    let per = g.per_line;
    lemma_step_div(k, per);
    let (len, across, total, depth) = if g.row_major {
        (pw as int, ph as int, g.cw, g.ch)
    } else {
        (ph as int, pw as int, g.ch, g.cw)
    };
    let most = lines(g.full, g.extra);
    assert(line < most) by (nonlinear_arith)
        requires
            k == line * per + pos,
            0 <= pos < per,
            k < g.full * per + g.extra,
            0 <= g.extra < per,
            per >= 1,
            most == if g.extra > 0 {
                g.full + 1
            } else {
                g.full
            },
    ;
    assert((line + 1) * across <= most * across) by (nonlinear_arith)
        requires
            line < most,
            across >= 1,
    ;
    assert((line + 1) * across == line * across + across) by (nonlinear_arith);
    assert((pos + 1) * len == pos * len + len) by (nonlinear_arith);
    assert(0 <= line * across && 0 <= pos * len) by (nonlinear_arith)
        requires
            line >= 0,
            across >= 1,
            pos >= 0,
            len >= 1,
    ;
    if g.full >= 1 {
        assert((pos + 1) * len <= per * len) by (nonlinear_arith)
            requires
                pos + 1 <= per,
                len >= 1,
        ;
    } else {
        assert(line == 0 && pos < g.extra) by (nonlinear_arith)
            requires
                k == line * per + pos,
                k < g.full * per + g.extra,
                g.full == 0,
                0 <= g.extra < per,
                line >= 0,
                0 <= pos,
        ;
        assert((pos + 1) * len <= g.extra * len) by (nonlinear_arith)
            requires
                pos + 1 <= g.extra,
                len >= 1,
        ;
    }
}

/// The pieces from `first` on are of one size.
spec fn batch_pieces(
    problem: Problem,
    first: int,
    n: int,
    pw: u32,
    ph: u32,
    rotated: bool,
) -> bool {
    &&& 0 <= first
    &&& first + n <= problem.pieces@.len()
    &&& problem.pieces@.len() <= usize::MAX
    &&& forall|i: int|
        first <= i < first + n ==> (#[trigger] problem.pieces@[i]).placed_w(rotated) == pw
            && problem.pieces@[i].placed_h(rotated) == ph
}

/// The cuts that free the first piece of a line.
proof fn lemma_line_begins(fr: FreeRect, g: Grid, pw: u32, ph: u32, k: int, cell: FreeRect)
    requires
        grid_ok(g, fr.w, fr.h, pw, ph),
        fr.right() <= u32::MAX,
        fr.bottom() <= u32::MAX,
        0 <= k < g.n,
        pw >= 1,
        ph >= 1,
        k % g.per_line == 0,
        cell.w == pw,
        cell.h == ph,
    ensures
        ({
            let rest = batch_rest(fr, g, pw, ph, k);
            let right = right_rest(rest, pw, ph, g.row_major);
            let bottom = bottom_rest(rest, pw, ph, g.row_major);
            let rest2 = batch_rest(fr, g, pw, ph, k + 1);
            let beyond2 = batch_beyond(fr, g, pw, ph, k + 1);
            &&& pw <= rest.w
            &&& ph <= rest.h
            &&& g.per_line == 1 ==> (k + 1) % g.per_line == 0 && rest2 == (if g.row_major {
                bottom
            } else {
                right
            })
            &&& g.per_line > 1 ==> (k + 1) % g.per_line != 0 && rest2 == (if g.row_major {
                right
            } else {
                bottom
            }) && beyond2 == (if g.row_major {
                bottom
            } else {
                right
            })
        }),
{
    lemma_grid_room(g, fr.w, fr.h, pw, ph, k);
    lemma_step_div(k, g.per_line);
    assert(0 * pw == 0 && 0 * ph == 0);
    assert(1 * pw == pw && 1 * ph == ph);
}

/// The cuts that free a later piece of a line.
proof fn lemma_line_goes_on(fr: FreeRect, g: Grid, pw: u32, ph: u32, k: int)
    requires
        grid_ok(g, fr.w, fr.h, pw, ph),
        fr.right() <= u32::MAX,
        fr.bottom() <= u32::MAX,
        0 <= k < g.n,
        pw >= 1,
        ph >= 1,
        k % g.per_line != 0,
    ensures
        ({
            let rest = batch_rest(fr, g, pw, ph, k);
            let right = right_rest(rest, pw, ph, !g.row_major);
            let bottom = bottom_rest(rest, pw, ph, !g.row_major);
            let rest2 = batch_rest(fr, g, pw, ph, k + 1);
            let beyond = batch_beyond(fr, g, pw, ph, k);
            let beyond2 = batch_beyond(fr, g, pw, ph, k + 1);
            &&& pw <= rest.w
            &&& ph <= rest.h
            &&& (k + 1) % g.per_line == 0 ==> rest2 == beyond
            &&& (k + 1) % g.per_line != 0 ==> beyond2 == beyond && rest2 == (if g.row_major {
                right
            } else {
                bottom
            })
        }),
{
    lemma_grid_room(g, fr.w, fr.h, pw, ph, k);
    lemma_step_div(k, g.per_line);
}

/// The place of piece `k` is the corner of what is left to be laid.
proof fn lemma_grid_corner(
    fr: FreeRect,
    g: Grid,
    pw: u32,
    ph: u32,
    first: int,
    rotated: bool,
    k: int,
)
    requires
        grid_ok(g, fr.w, fr.h, pw, ph),
        fr.right() <= u32::MAX,
        fr.bottom() <= u32::MAX,
        0 <= k < g.n,
        pw >= 1,
        ph >= 1,
    ensures
        ({
            let pl = grid_placement(fr, g, pw, ph, first, rotated, k);
            let rest = batch_rest(fr, g, pw, ph, k);
            pl.x == rest.x && pl.y == rest.y && pl.sheet_idx == rest.sheet_idx
        }),
{
    lemma_grid_room(g, fr.w, fr.h, pw, ph, k);
    assert(0 * pw == 0 && 0 * ph == 0);
}

proof fn lemma_batch_next(
    problem: Problem,
    st: Pack,
    idx: int,
    pw: u32,
    ph: u32,
    rotated: bool,
    inverse: bool,
    first: int,
    remaining: int,
    k: nat,
)
    requires
        coherent(problem, st),
        0 <= idx < st.free.len(),
        1 <= pw <= st.free[idx].w,
        1 <= ph <= st.free[idx].h,
        remaining >= 1,
        batch_pieces(problem, first, remaining, pw, ph, rotated),
        k < grid_of(st.free[idx].w, st.free[idx].h, pw, ph, remaining).n,
        coherent(
            problem,
            batch_pack(st, idx, pw, ph, rotated, inverse, first, remaining, k),
        ),
    ensures
        coherent(
            problem,
            batch_pack(st, idx, pw, ph, rotated, inverse, first, remaining, k + 1),
        ),
{
    let fr = st.free[idx];
    let g = grid_of(fr.w, fr.h, pw, ph, remaining);
    lemma_grid(fr.w, fr.h, pw, ph, remaining);
    lemma_free_within(problem, st, idx);
    let pl = grid_placement(fr, g, pw, ph, first, rotated, k as int);
    assert(problem.pieces@[first + k].placed_w(rotated) == pw);
    lemma_grid_corner(fr, g, pw, ph, first, rotated, k as int);
    let base = st.free.remove(idx) + split_parts(fr, g.cw as u32, g.ch as u32, !inverse);
    let a = batch_pack(st, idx, pw, ph, rotated, inverse, first, remaining, k);
    let b = batch_pack(st, idx, pw, ph, rotated, inverse, first, remaining, k + 1);
    assert(b.placements =~= a.placements.push(pl));
    let rest = batch_rest(fr, g, pw, ph, k as int);
    let rest2 = batch_rest(fr, g, pw, ph, (k + 1) as int);
    let beyond = batch_beyond(fr, g, pw, ph, k as int);
    let beyond2 = batch_beyond(fr, g, pw, ph, (k + 1) as int);
    if k as int % g.per_line == 0 {
        lemma_line_begins(fr, g, pw, ph, k as int, pl.cell(problem.pieces@));
        let right = right_rest(rest, pw, ph, g.row_major);
        let bottom = bottom_rest(rest, pw, ph, g.row_major);
        assert(a.free =~= base.push(rest));
        if g.per_line == 1 {
            assert(b.free =~= base.push(rest2));
        } else {
            assert(b.free =~= base.push(rest2).push(beyond2));
        }
        lemma_lay_first(problem, a, b, base, rest, pl, g.row_major, g.per_line == 1);
    } else {
        lemma_line_goes_on(fr, g, pw, ph, k as int);
        assert(a.free =~= base.push(rest).push(beyond));
        if (k + 1) as int % g.per_line == 0 {
            assert(b.free =~= base.push(beyond));
        } else {
            assert(b.free =~= base.push(rest2).push(beyond));
        }
        lemma_lay_later(
            problem,
            a,
            b,
            base,
            rest,
            beyond,
            pl,
            g.row_major,
            (k + 1) as int % g.per_line == 0,
        );
    }
}

/// A piece is laid at the begin of a line.
proof fn lemma_lay_first(
    problem: Problem,
    a: Pack,
    b: Pack,
    base: Seq<FreeRect>,
    rest: FreeRect,
    pl: Placement,
    row_major: bool,
    only: bool,
)
    requires
        coherent(problem, a),
        a.free == base.push(rest),
        pl.piece_idx < problem.pieces@.len(),
        pl.cell(problem.pieces@).w <= rest.w,
        pl.cell(problem.pieces@).h <= rest.h,
        pl.x == rest.x,
        pl.y == rest.y,
        pl.sheet_idx == rest.sheet_idx,
        b.placements == a.placements.push(pl),
        b.sheets == a.sheets,
        ({
            let c = pl.cell(problem.pieces@);
            let right = right_rest(rest, c.w, c.h, row_major);
            let bottom = bottom_rest(rest, c.w, c.h, row_major);
            let along = if row_major {
                right
            } else {
                bottom
            };
            let beyond = if row_major {
                bottom
            } else {
                right
            };
            b.free == if only {
                base.push(beyond)
            } else {
                base.push(along).push(beyond)
            }
        }),
    ensures
        coherent(problem, b),
{
    let c = pl.cell(problem.pieces@);
    let right = right_rest(rest, c.w, c.h, row_major);
    let bottom = bottom_rest(rest, c.w, c.h, row_major);
    let bl = base.len() as int;
    assert(a.free.remove(bl) =~= base);
    base.to_multiset_ensures();
    base.push(right).to_multiset_ensures();
    base.push(bottom).to_multiset_ensures();
    let mid = pack_of(base.push(right).push(bottom), b.placements, b.sheets);
    lemma_cornered(problem, a, bl, pl, row_major, true, mid);
    assert(b.free.to_multiset().subset_of(mid.free.to_multiset()));
    lemma_fewer_free(problem, mid, b);
}

/// A piece is laid in a line that was begun.
proof fn lemma_lay_later(
    problem: Problem,
    a: Pack,
    b: Pack,
    base: Seq<FreeRect>,
    rest: FreeRect,
    beyond: FreeRect,
    pl: Placement,
    row_major: bool,
    last: bool,
)
    requires
        coherent(problem, a),
        a.free == base.push(rest).push(beyond),
        pl.piece_idx < problem.pieces@.len(),
        pl.cell(problem.pieces@).w <= rest.w,
        pl.cell(problem.pieces@).h <= rest.h,
        pl.x == rest.x,
        pl.y == rest.y,
        pl.sheet_idx == rest.sheet_idx,
        b.placements == a.placements.push(pl),
        b.sheets == a.sheets,
        ({
            let c = pl.cell(problem.pieces@);
            let along = if row_major {
                right_rest(rest, c.w, c.h, !row_major)
            } else {
                bottom_rest(rest, c.w, c.h, !row_major)
            };
            b.free == if last {
                base.push(beyond)
            } else {
                base.push(along).push(beyond)
            }
        }),
    ensures
        coherent(problem, b),
{
    let c = pl.cell(problem.pieces@);
    let right = right_rest(rest, c.w, c.h, !row_major);
    let bottom = bottom_rest(rest, c.w, c.h, !row_major);
    let bl = base.len() as int;
    assert(a.free.remove(bl) =~= base.push(beyond));
    base.to_multiset_ensures();
    base.push(beyond).to_multiset_ensures();
    base.push(right).to_multiset_ensures();
    base.push(bottom).to_multiset_ensures();
    base.push(beyond).push(right).to_multiset_ensures();
    let mid = pack_of(base.push(beyond).push(right).push(bottom), b.placements, b.sheets);
    lemma_cornered(problem, a, bl, pl, !row_major, true, mid);
    assert(b.free.to_multiset().subset_of(mid.free.to_multiset()));
    lemma_fewer_free(problem, mid, b);
}

proof fn lemma_batch_steps(
    problem: Problem,
    st: Pack,
    idx: int,
    pw: u32,
    ph: u32,
    rotated: bool,
    inverse: bool,
    first: int,
    remaining: int,
    k: nat,
)
    requires
        coherent(problem, st),
        0 <= idx < st.free.len(),
        1 <= pw <= st.free[idx].w,
        1 <= ph <= st.free[idx].h,
        remaining >= 1,
        batch_pieces(problem, first, remaining, pw, ph, rotated),
        k <= grid_of(st.free[idx].w, st.free[idx].h, pw, ph, remaining).n,
    ensures
        coherent(
            problem,
            batch_pack(st, idx, pw, ph, rotated, inverse, first, remaining, k),
        ),
    decreases k,
{
    if k == 0 {
        lemma_batch_start(problem, st, idx, pw, ph, rotated, inverse, first, remaining);
    } else {
        let j = (k - 1) as nat;
        lemma_batch_steps(problem, st, idx, pw, ph, rotated, inverse, first, remaining, j);
        lemma_batch_next(problem, st, idx, pw, ph, rotated, inverse, first, remaining, j);
    }
}

proof fn lemma_swap_removed(free: Seq<FreeRect>, i: int)
    requires
        0 <= i < free.len(),
    ensures
        swap_removed(free, i).to_multiset() == free.remove(i).to_multiset(),
{
    let n = free.len() - 1;
    free.to_multiset_ensures();
    if i == n {
        assert(swap_removed(free, i) =~= free.remove(i));
    } else {
        let d = free.drop_last();
        d.to_multiset_ensures();
        assert(free =~= d.push(free.last()));
        assert(swap_removed(free, i) =~= d.update(i, free.last()));
        crate::packing::lemma_update_multiset(d, i, free.last());
        assert(free.remove(i) =~= d.remove(i).push(free.last()));
        d.remove(i).to_multiset_ensures();
    }
}

/// Laying a batch keeps the state a cutting of the sheets.
proof fn lemma_batch_laid(
    problem: Problem,
    st: Pack,
    idx: int,
    pw: u32,
    ph: u32,
    rotated: bool,
    inverse: bool,
    first: int,
    remaining: int,
)
    requires
        coherent(problem, st),
        0 <= idx < st.free.len(),
        1 <= pw <= st.free[idx].w,
        1 <= ph <= st.free[idx].h,
        remaining >= 1,
        batch_pieces(problem, first, remaining, pw, ph, rotated),
    ensures
        coherent(
            problem,
            batch_laid(st, idx, pw, ph, rotated, inverse, first, remaining),
        ),
{
    let fr = st.free[idx];
    let g = grid_of(fr.w, fr.h, pw, ph, remaining);
    lemma_grid(fr.w, fr.h, pw, ph, remaining);
    let n = g.n as nat;
    lemma_batch_steps(problem, st, idx, pw, ph, rotated, inverse, first, remaining, n);
    let a = batch_pack(st, idx, pw, ph, rotated, inverse, first, remaining, n);
    let b = batch_laid(st, idx, pw, ph, rotated, inverse, first, remaining);
    lemma_swap_removed(st.free, idx);
    let parts = split_parts(fr, g.cw as u32, g.ch as u32, !inverse);
    let base = st.free.remove(idx) + parts;
    let swapped = swap_removed(st.free, idx) + parts;
    vstd::seq_lib::lemma_multiset_commutative(st.free.remove(idx), parts);
    vstd::seq_lib::lemma_multiset_commutative(swap_removed(st.free, idx), parts);
    assert(base.to_multiset() =~= swapped.to_multiset());
    base.to_multiset_ensures();
    swapped.to_multiset_ensures();
    vstd::arithmetic::div_mod::lemma_fundamental_div_mod_converse(
        g.n,
        g.per_line,
        g.full,
        g.extra,
    );
    let rest = batch_rest(fr, g, pw, ph, g.n);
    base.push(rest).to_multiset_ensures();
    if g.extra > 0 {
        assert(rest == grid_hole(fr, g, pw, ph));
    }
    assert forall|v: FreeRect| b.free.to_multiset().count(v) <= a.free.to_multiset().count(v) by {
        assert(base.to_multiset().count(v) == swapped.to_multiset().count(v));
    }
    lemma_fewer_free(problem, a, b);
}

/// How many copies fit in a row or in a column, whichever is more.
pub open spec fn batch_fit(fr: FreeRect, pw: u32, ph: u32) -> int {
    let cols = fr.w as int / pw as int;
    let rows = fr.h as int / ph as int;
    if cols >= rows {
        cols
    } else {
        rows
    }
}

/// The places among the first `n` free leaves that the piece fits in, where at least `min_fit`
/// copies fit in a line, and on the given sheet if there is one.
pub open spec fn leaf_spots(
    free: Seq<FreeRect>,
    piece: Piece,
    rotate: bool,
    min_fit: int,
    sheet: Option<usize>,
    n: nat,
) -> Seq<(int, u32, u32, bool)>
    decreases n,
{
    if n == 0 {
        Seq::empty()
    } else {
        let rest = leaf_spots(free, piece, rotate, min_fit, sheet, (n - 1) as nat);
        let fr = free[n - 1];
        match fit(fr, piece, rotate) {
            None => rest,
            Some(f) => if (sheet matches Some(s) ==> fr.sheet_idx == s) && (min_fit > 0
                ==> batch_fit(fr, f.0, f.1) >= min_fit) {
                rest.push((n - 1, f.0, f.1, f.2))
            } else {
                rest
            },
        }
    }
}

/// The place that a selector picks.
pub open spec fn picked(spots: Seq<(int, u32, u32, bool)>, selector: u32) -> Option<
    (int, u32, u32, bool),
> {
    if spots.len() == 0 {
        None
    } else {
        Some(spots[selector as int % spots.len() as int])
    }
}

pub open spec fn or_else(
    a: Option<(int, u32, u32, bool)>,
    b: Option<(int, u32, u32, bool)>,
) -> Option<(int, u32, u32, bool)> {
    if a is Some {
        a
    } else {
        b
    }
}

/// The leaf for the next batch among those that are free: one on the sheet of the batch before
/// it, one with room for two copies, any one.
pub open spec fn free_leaf(
    free: Seq<FreeRect>,
    piece: Piece,
    rotate: bool,
    selector: u32,
    remaining: int,
    last: Option<usize>,
) -> Option<(int, u32, u32, bool)> {
    let n = free.len();
    let least = if remaining > 1 {
        2int
    } else {
        0int
    };
    let near = if last is Some {
        picked(leaf_spots(free, piece, rotate, least, last, n), selector)
    } else {
        None
    };
    let roomy = if remaining > 1 {
        picked(leaf_spots(free, piece, rotate, 2, None, n), selector)
    } else {
        None
    };
    or_else(near, or_else(roomy, selected_fit(free, piece, rotate, selector)))
}

/// The leaf for the next batch, on a new sheet where the piece fits in no free leaf.
pub open spec fn batch_leaf(
    problem: Problem,
    st: Pack,
    piece: Piece,
    rotate: bool,
    selector: u32,
    remaining: int,
    last: Option<usize>,
) -> (Pack, (int, u32, u32, bool)) {
    match free_leaf(st.free, piece, rotate, selector, remaining, last) {
        Some(s) => (st, s),
        None => {
            let st2 = opened(problem.sheet, st);
            (st2, selected_fit(st2.free, piece, rotate, selector)->0)
        },
    }
}

/// The copies of one type while they are placed: the packing, the next copy, and the sheet of
/// the last batch.
pub struct TypeRun {
    pub pack: Pack,
    pub next: int,
    pub last: Option<usize>,
}

/// One batch is placed; `start` and `end` are the first copy of the type and the one behind its
/// last.
pub open spec fn batch_step(
    problem: Problem,
    r: TypeRun,
    gene: GeneView,
    start: int,
    end: int,
) -> TypeRun {
    let done = r.next - start;
    let piece = problem.pieces@[r.next];
    let (st, spot) = batch_leaf(
        problem,
        r.pack,
        piece,
        gene.rotate,
        gene.selectors[done],
        end - r.next,
        r.last,
    );
    let fr = st.free[spot.0];
    let g = grid_of(fr.w, fr.h, spot.1, spot.2, end - r.next);
    TypeRun {
        pack: batch_laid(
            st,
            spot.0,
            spot.1,
            spot.2,
            spot.3,
            gene.inverses[done],
            r.next,
            end - r.next,
        ),
        next: r.next + g.n,
        last: Some(fr.sheet_idx),
    }
}

/// Batches are placed until no copy of the type remains.
pub open spec fn type_run(problem: Problem, r: TypeRun, gene: GeneView, start: int, end: int) -> TypeRun
    decreases end - r.next,
{
    if r.next >= end {
        r
    } else {
        let r2 = batch_step(problem, r, gene, start, end);
        if r2.next > r.next {
            type_run(problem, r2, gene, start, end)
        } else {
            r2
        }
    }
}

/// All genes in decoding order.
pub open spec fn all_genes(classes: Seq<Seq<GeneView>>, n: nat) -> Seq<GeneView>
    decreases n,
{
    if n == 0 {
        Seq::empty()
    } else {
        all_genes(classes, (n - 1) as nat) + classes[n - 1]
    }
}

/// State of decoding: the packing, and the next copy of every type.
pub struct Decoding {
    pub pack: Pack,
    pub next: Seq<int>,
}

/// One gene is decoded.
pub open spec fn gene_step(
    problem: Problem,
    types: Seq<PieceType>,
    d: Decoding,
    gene: GeneView,
) -> Decoding {
    let t = gene.type_idx as int;
    let start = copies(types, t as nat) as int;
    let end = copies(types, (t + 1) as nat) as int;
    let r = type_run(
        problem,
        TypeRun { pack: d.pack, next: d.next[t], last: None },
        gene,
        start,
        end,
    );
    Decoding { pack: r.pack, next: d.next.update(t, r.next) }
}

/// The first `k` genes are decoded.
pub open spec fn decoded(
    problem: Problem,
    types: Seq<PieceType>,
    genes: Seq<GeneView>,
    k: nat,
) -> Decoding
    decreases k,
{
    if k == 0 {
        Decoding {
            pack: fresh(problem.sheet),
            next: Seq::new(types.len(), |t: int| copies(types, t as nat) as int),
        }
    } else {
        gene_step(problem, types, decoded(problem, types, genes, (k - 1) as nat), genes[k - 1])
    }
}

/// Copy `i` belongs to type `t`.
pub open spec fn of_type(types: Seq<PieceType>, t: int, i: int) -> bool {
    0 <= t < types.len() && copies(types, t as nat) <= i < copies(types, (t + 1) as nat)
}

/// The pieces are the copies of the types: as many as the counts say, copies of one type alike.
pub open spec fn copies_of(problem: Problem, types: Seq<PieceType>) -> bool {
    &&& problem.pieces@.len() == copies(types, types.len())
    &&& forall|t: int, i: int| #[trigger]
        of_type(types, t, i) ==> {
            let first = problem.pieces@[copies(types, t as nat) as int];
            &&& problem.pieces@[i].width == first.width
            &&& problem.pieces@[i].height == first.height
            &&& problem.pieces@[i].can_rotate == first.can_rotate
        }
}

/// A genome for the types: one gene per type, with a selector and a flag per copy.
pub open spec fn genes_ok(types: Seq<PieceType>, genes: Seq<GeneView>) -> bool {
    &&& genes.len() == types.len()
    &&& forall|k: int|
        0 <= k < genes.len() ==> {
            &&& (#[trigger] genes[k]).type_idx < types.len()
            &&& genes[k].selectors.len() == types[genes[k].type_idx as int].count
            &&& genes[k].inverses.len() == types[genes[k].type_idx as int].count
        }
}

proof fn lemma_leaf_spots(
    free: Seq<FreeRect>,
    piece: Piece,
    rotate: bool,
    min_fit: int,
    sheet: Option<usize>,
    n: nat,
)
    requires
        n <= free.len(),
    ensures
        forall|i: int|
            0 <= i < leaf_spots(free, piece, rotate, min_fit, sheet, n).len() ==> {
                let s = #[trigger] leaf_spots(free, piece, rotate, min_fit, sheet, n)[i];
                0 <= s.0 < n && fit(free[s.0], piece, rotate) == Some((s.1, s.2, s.3))
            },
    decreases n,
{
    if n > 0 {
        lemma_leaf_spots(free, piece, rotate, min_fit, sheet, (n - 1) as nat);
    }
}

pub(crate) proof fn lemma_picked(
    free: Seq<FreeRect>,
    piece: Piece,
    rotate: bool,
    min_fit: int,
    sheet: Option<usize>,
    selector: u32,
)
    ensures
        picked(
            leaf_spots(free, piece, rotate, min_fit, sheet, free.len()),
            selector,
        ) matches Some(s) ==> 0 <= s.0 < free.len() && fit(free[s.0], piece, rotate) == Some(
            (s.1, s.2, s.3),
        ),
{
    let spots = leaf_spots(free, piece, rotate, min_fit, sheet, free.len());
    lemma_leaf_spots(free, piece, rotate, min_fit, sheet, free.len());
    if spots.len() > 0 {
        vstd::arithmetic::div_mod::lemma_mod_bound(selector as int, spots.len() as int);
    }
}

pub(crate) proof fn lemma_selected(free: Seq<FreeRect>, piece: Piece, rotate: bool, selector: u32)
    ensures
        selected_fit(free, piece, rotate, selector) matches Some(s) ==> 0 <= s.0 < free.len()
            && fit(free[s.0], piece, rotate) == Some((s.1, s.2, s.3)),
        forall|i: int|
            0 <= i < free.len() && fit(#[trigger] free[i], piece, rotate) is Some
                ==> selected_fit(free, piece, rotate, selector) is Some,
{
    if free.len() > 0 {
        let start = selector as int % free.len() as int;
        vstd::arithmetic::div_mod::lemma_mod_bound(selector as int, free.len() as int);
        lemma_first_fit(free, piece, rotate, start, 0);
        assert forall|i: int| 0 <= i < free.len() && fit(
            #[trigger] free[i],
            piece,
            rotate,
        ) is Some implies selected_fit(free, piece, rotate, selector) is Some by {
            let off = if i >= start {
                i - start
            } else {
                i - start + free.len()
            };
            assert((start + off) % (free.len() as int) == i) by {
                if i >= start {
                    vstd::arithmetic::div_mod::lemma_small_mod(i as nat, free.len());
                } else {
                    vstd::arithmetic::div_mod::lemma_small_mod(i as nat, free.len());
                    vstd::arithmetic::div_mod::lemma_mod_add_multiples_vanish(
                        i,
                        free.len() as int,
                    );
                }
            }
            lemma_first_fit_finds(free, piece, rotate, start, 0, off as nat);
        }
    }
}

proof fn lemma_first_fit_finds(
    free: Seq<FreeRect>,
    piece: Piece,
    rotate: bool,
    start: int,
    i: nat,
    off: nat,
)
    requires
        i <= off < free.len(),
        fit(free[(start + off) % (free.len() as int)], piece, rotate) is Some,
    ensures
        crate::slas::decoder::first_fit(free, piece, rotate, start, i) is Some,
    decreases off - i,
{
    if i < off {
        lemma_first_fit_finds(free, piece, rotate, start, i + 1, off);
    }
}

pub(crate) proof fn lemma_batch_leaf(
    problem: Problem,
    st: Pack,
    i: int,
    rotate: bool,
    selector: u32,
    remaining: int,
    last: Option<usize>,
)
    requires
        coherent(problem, st),
        0 <= i < problem.pieces@.len(),
        fits_sheet(problem, i),
        st.sheets <= usize::MAX,
    ensures
        ({
            let piece = problem.pieces@[i];
            let (st2, spot) = batch_leaf(problem, st, piece, rotate, selector, remaining, last);
            &&& coherent(problem, st2)
            &&& st2.placements == st.placements
            &&& st.sheets <= st2.sheets <= st.sheets + 1
            &&& 0 <= spot.0 < st2.free.len()
            &&& fit(st2.free[spot.0], piece, rotate) == Some((spot.1, spot.2, spot.3))
            &&& st == fresh(problem.sheet) ==> st2 == st
            &&& st2 == st || (st2 == opened(problem.sheet, st) && selected_fit(
                st2.free,
                piece,
                rotate,
                selector,
            ) is Some)
        }),
{
    let piece = problem.pieces@[i];
    let least = if remaining > 1 {
        2int
    } else {
        0int
    };
    lemma_picked(st.free, piece, rotate, least, last, selector);
    lemma_picked(st.free, piece, rotate, 2, None, selector);
    lemma_selected(st.free, piece, rotate, selector);
    if st == fresh(problem.sheet) {
        assert(fit(st.free[0], piece, rotate) is Some);
    }
    if free_leaf(st.free, piece, rotate, selector, remaining, last) is None {
        lemma_opened(problem, st);
        let st2 = opened(problem.sheet, st);
        let n = st2.free.len() - 1;
        assert(fit(st2.free[n], piece, rotate) is Some);
        lemma_selected(st2.free, piece, rotate, selector);
    }
}

/// What holds while copies of a type are placed.
pub(crate) open spec fn run_ok(problem: Problem, r: TypeRun, start: int, end: int) -> bool {
    &&& coherent(problem, r.pack)
    &&& start <= r.next <= end
    &&& r.pack.sheets <= r.pack.placements.len() + 1
    &&& r.pack.placements.len() > 0 ==> r.pack.sheets <= r.pack.placements.len()
    &&& r.pack.placements.len() == 0 ==> r.pack == fresh(problem.sheet)
}

#[verifier::rlimit(40)]
pub(crate) proof fn lemma_batch_step(
    problem: Problem,
    types: Seq<PieceType>,
    r: TypeRun,
    gene: GeneView,
    t: int,
)
    requires
        copies_of(problem, types),
        solid_pieces(problem),
        0 <= t < types.len(),
        run_ok(
            problem,
            r,
            copies(types, t as nat) as int,
            copies(types, (t + 1) as nat) as int,
        ),
        r.next < copies(types, (t + 1) as nat),
        fits_sheet(problem, r.next),
        problem.pieces@.len() < usize::MAX,
        r.pack.placements.len() < problem.pieces@.len(),
    ensures
        ({
            let start = copies(types, t as nat) as int;
            let end = copies(types, (t + 1) as nat) as int;
            let r2 = batch_step(problem, r, gene, start, end);
            &&& run_ok(problem, r2, start, end)
            &&& r.next < r2.next
            &&& r2.pack.placements.len() == r.pack.placements.len() + (r2.next - r.next)
            &&& placed_indices(r2.pack.placements) =~= placed_indices(r.pack.placements)
                + Seq::new((r2.next - r.next) as nat, |i: int| (r.next + i) as usize)
        }),
{
    let start = copies(types, t as nat) as int;
    let end = copies(types, (t + 1) as nat) as int;
    crate::expand::lemma_copies_grow(types, (t + 1) as nat, types.len());
    let done = r.next - start;
    let selector = gene.selectors[done];
    let piece = problem.pieces@[r.next];
    lemma_batch_leaf(problem, r.pack, r.next, gene.rotate, selector, end - r.next, r.last);
    let (st, spot) = batch_leaf(
        problem,
        r.pack,
        piece,
        gene.rotate,
        selector,
        end - r.next,
        r.last,
    );
    assert(problem.pieces[r.next].solid());
    let fr = st.free[spot.0];
    lemma_grid(fr.w, fr.h, spot.1, spot.2, end - r.next);
    assert(of_type(types, t, r.next));
    assert forall|i: int| r.next <= i < end implies (#[trigger] problem.pieces@[i]).placed_w(spot.3)
        == spot.1 && problem.pieces@[i].placed_h(spot.3) == spot.2 by {
        assert(of_type(types, t, i));
    }
    lemma_batch_laid(
        problem,
        st,
        spot.0,
        spot.1,
        spot.2,
        spot.3,
        gene.inverses[done],
        r.next,
        end - r.next,
    );
    let r2 = batch_step(problem, r, gene, start, end);
    let g = grid_of(fr.w, fr.h, spot.1, spot.2, end - r.next);
    let more = grid_placements(fr, g, spot.1, spot.2, r.next, spot.3, g.n as nat);
    assert(r2.pack.placements == r.pack.placements + more);
    assert forall|i: int| 0 <= i < more.len() implies (#[trigger] more[i]).piece_idx == r.next
        + i by {}
}

pub(crate) proof fn lemma_of_type_unique(types: Seq<PieceType>, t: int, u: int, v: int)
    requires
        of_type(types, t, v),
        of_type(types, u, v),
    ensures
        t == u,
{
    if t < u {
        crate::expand::lemma_copies_grow(types, (t + 1) as nat, u as nat);
    } else if u < t {
        crate::expand::lemma_copies_grow(types, (u + 1) as nat, t as nat);
    }
}

/// The placed copies are those in front of the next copy of their type, each placed once.
pub open spec fn placed_exactly(types: Seq<PieceType>, next: Seq<int>, s: Seq<usize>) -> bool {
    &&& s.no_duplicates()
    &&& forall|v: usize|
        s.contains(v) <==> exists|t: int| #[trigger] of_type(types, t, v as int) && v < next[t]
}

pub(crate) proof fn lemma_placed_below(s: Seq<usize>, n: nat)
    requires
        s.no_duplicates(),
        forall|i: int| 0 <= i < s.len() ==> #[trigger] s[i] < n,
    ensures
        s.len() <= n,
{
    let t = s.map_values(|x: usize| x as int);
    assert(t.no_duplicates());
    t.unique_seq_to_set();
    let full = vstd::set_lib::set_int_range(0, n as int);
    vstd::set_lib::lemma_int_range(0, n as int);
    assert(t.to_set().subset_of(full)) by {
        assert forall|x: int| t.to_set().contains(x) implies full.contains(x) by {
            assert(t.contains(x));
        }
    }
    vstd::set_lib::lemma_len_subset(t.to_set(), full);
}

/// As long as a copy is not placed, fewer copies than all are.
pub(crate) proof fn lemma_some_missing(problem: Problem, types: Seq<PieceType>, next: Seq<int>, s: Seq<usize>, v: usize)
    requires
        copies_of(problem, types),
        placed_exactly(types, next, s),
        v < problem.pieces@.len(),
        !s.contains(v),
    ensures
        s.len() < problem.pieces@.len(),
{
    let a = s.push(v);
    assert(a.no_duplicates()) by {
        assert forall|i: int, j: int| 0 <= i < j < a.len() implies a[i] != a[j] by {
            if j == s.len() {
                assert(s.contains(s[i]));
            }
        }
    }
    assert forall|i: int| 0 <= i < a.len() implies #[trigger] a[i] < problem.pieces@.len() by {
        if i < s.len() {
            assert(s.contains(s[i]));
            let t = choose|t: int| #[trigger] of_type(types, t, s[i] as int) && s[i] < next[t];
            crate::expand::lemma_copies_grow(types, (t + 1) as nat, types.len());
        }
    }
    lemma_placed_below(a, problem.pieces@.len());
}

/// A batch adds the copies that it places.
pub(crate) proof fn lemma_placed_more(
    types: Seq<PieceType>,
    next: Seq<int>,
    s: Seq<usize>,
    t: int,
    a: int,
    b: int,
)
    requires
        0 <= t < types.len(),
        next.len() == types.len(),
        next[t] == a,
        copies(types, t as nat) <= a <= b <= copies(types, (t + 1) as nat),
        b <= usize::MAX,
        placed_exactly(types, next, s),
    ensures
        placed_exactly(
            types,
            next.update(t, b),
            s + Seq::new((b - a) as nat, |i: int| (a + i) as usize),
        ),
{
    let more = Seq::new((b - a) as nat, |i: int| (a + i) as usize);
    let u = s + more;
    let next2 = next.update(t, b);
    assert forall|i: int| 0 <= i < more.len() implies !s.contains(#[trigger] more[i]) by {
        let v = more[i];
        assert(of_type(types, t, v as int));
        if s.contains(v) {
            let q = choose|q: int| #[trigger] of_type(types, q, v as int) && v < next[q];
            lemma_of_type_unique(types, t, q, v as int);
        }
    }
    assert(u.no_duplicates()) by {
        assert forall|i: int, j: int| 0 <= i < j < u.len() implies u[i] != u[j] by {
            if j >= s.len() {
                assert(u[j] == more[j - s.len()]);
                if i < s.len() {
                    assert(s.contains(s[i]));
                } else {
                    assert(u[i] == more[i - s.len()]);
                }
            }
        }
    }
    assert forall|v: usize|
        u.contains(v) <==> exists|q: int| #[trigger]
            of_type(types, q, v as int) && v < next2[q] by {
        if u.contains(v) {
            let i = choose|i: int| 0 <= i < u.len() && u[i] == v;
            if i < s.len() {
                assert(s[i] == v);
                assert(s.contains(v));
                let q = choose|q: int| #[trigger] of_type(types, q, v as int) && v < next[q];
                assert(of_type(types, q, v as int) && v < next2[q]);
            } else {
                assert(more[i - s.len()] == v);
                assert(of_type(types, t, v as int) && v < next2[t]);
            }
        }
        if exists|q: int| #[trigger] of_type(types, q, v as int) && v < next2[q] {
            let q = choose|q: int| #[trigger] of_type(types, q, v as int) && v < next2[q];
            if q != t || v < a {
                assert(of_type(types, q, v as int) && v < next[q]);
                assert(s.contains(v));
                let i = choose|i: int| 0 <= i < s.len() && s[i] == v;
                assert(u[i] == v);
            } else {
                assert(more[v - a] == v);
                assert(u[s.len() + (v - a)] == v);
            }
        }
    }
}

/// What holds between genes.
pub open spec fn decoding_ok(problem: Problem, types: Seq<PieceType>, d: Decoding) -> bool {
    &&& coherent(problem, d.pack)
    &&& d.next.len() == types.len()
    &&& forall|t: int|
        0 <= t < types.len() ==> copies(types, t as nat) <= #[trigger] d.next[t] <= copies(
            types,
            (t + 1) as nat,
        )
    &&& placed_exactly(types, d.next, placed_indices(d.pack.placements))
    &&& d.pack.sheets <= d.pack.placements.len() + 1
    &&& d.pack.placements.len() > 0 ==> d.pack.sheets <= d.pack.placements.len()
    &&& d.pack.placements.len() == 0 ==> d.pack == fresh(problem.sheet)
}

/// Free-rectangle pool across all open sheets.
pub struct FreePool {
    pub free: FreeList,
    pub sheets_open: usize,
}

/// A spot with its index as a mathematical integer.
pub open spec fn wide(s: Spot) -> (int, u32, u32, bool) {
    (s.0 as int, s.1, s.2, s.3)
}

impl FreePool {
    pub fn new(w: u32, h: u32) -> (r: FreePool)
        ensures
            r.free@ == seq![FreeRect { sheet_idx: 0, x: 0, y: 0, w, h }],
            r.sheets_open == 1,
    {
        let mut free = FreeList::new();
        free.push(FreeRect { sheet_idx: 0, x: 0, y: 0, w, h });
        assert(free@ =~= seq![FreeRect { sheet_idx: 0, x: 0, y: 0, w, h }]);
        FreePool { free, sheets_open: 1 }
    }

    /// The free leaves that are left.
    pub fn into_free(self) -> (r: Vec<FreeRect>)
        ensures
            r@ == self.free@,
    {
        self.free.into_vec()
    }

    /// Opens a new sheet and returns its index.
    pub fn open_new_sheet(&mut self, w: u32, h: u32) -> (r: usize)
        requires
            old(self).sheets_open < usize::MAX,
        ensures
            r == old(self).sheets_open,
            final(self).free@ == old(self).free@.push(
                (FreeRect { sheet_idx: r, x: 0, y: 0, w, h }),
            ),
            final(self).sheets_open == old(self).sheets_open + 1,
    {
        let sheet_idx: usize = self.sheets_open;
        self.free.push(FreeRect { sheet_idx, x: 0, y: 0, w, h });
        self.sheets_open = sheet_idx + 1;
        sheet_idx
    }

    /// Registers a free leaf that no split produced; one without area is not registered.
    pub fn push_free_leaf(&mut self, sheet_idx: usize, x: u32, y: u32, w: u32, h: u32)
        ensures
            final(self).free@ == (if w == 0 || h == 0 {
                old(self).free@
            } else {
                old(self).free@.push((FreeRect { sheet_idx, x, y, w, h }))
            }),
            final(self).sheets_open == old(self).sheets_open,
    {
        if w == 0 || h == 0 {
            return;
        }
        self.free.push(FreeRect { sheet_idx, x, y, w, h });
    }

    /// Removes the free leaf `free_pos` and splits it around a `cw` x `ch` batch in its corner;
    /// returns the corner. The full cut runs horizontally, or vertically with `inv`.
    pub fn apply_batch(&mut self, free_pos: usize, cw: u32, ch: u32, inv: bool) -> (r: (u32, u32))
        requires
            free_pos < old(self).free@.len(),
            cw <= old(self).free@[free_pos as int].w,
            ch <= old(self).free@[free_pos as int].h,
            old(self).free@[free_pos as int].right() <= u32::MAX,
            old(self).free@[free_pos as int].bottom() <= u32::MAX,
        ensures
            r.0 == old(self).free@[free_pos as int].x,
            r.1 == old(self).free@[free_pos as int].y,
            final(self).free@ == swap_removed(old(self).free@, free_pos as int) + split_parts(
                old(self).free@[free_pos as int],
                cw,
                ch,
                !inv,
            ),
            final(self).sheets_open == old(self).sheets_open,
    {
        let fr = self.free.swap_remove(free_pos);
        let parts = split_directional(&fr, cw, ch, !inv);
        let ghost base = self.free@;
        let mut k: usize = 0;
        assert(self.free@ =~= base + parts@.take(0));
        while k < parts.len()
            invariant
                k <= parts@.len(),
                self.free@ == base + parts@.take(k as int),
                self.sheets_open == old(self).sheets_open,
            decreases parts@.len() - k,
        {
            self.free.push(parts.at(k));
            k += 1;
            assert(self.free@ =~= base + parts@.take(k as int));
        }
        assert(parts@.take(k as int) =~= parts@);
        (fr.x, fr.y)
    }

    /// The first free leaf from `selector % |free|` on, wrapping around, that the piece fits in.
    pub fn find_fitting_leaf(&self, piece: &Piece, prefer_rotate: bool, selector: u32) -> (r:
        Option<Spot>)
        ensures
            spot_of(r) == selected_fit(self.free@, *piece, prefer_rotate, selector),
    {
        find_placement(&self.free, piece, prefer_rotate, selector)
    }

    fn collect_spots(
        &self,
        piece: &Piece,
        prefer_rotate: bool,
        min_fit: u32,
        sheet: Option<usize>,
    ) -> (r: Spots)
        requires
            piece.solid(),
        ensures
            r@.map_values(|s: Spot| wide(s)) =~= leaf_spots(
                self.free@,
                *piece,
                prefer_rotate,
                min_fit as int,
                sheet,
                self.free@.len(),
            ),
    {
        let mut out = Spots::new();
        let mut k: usize = 0;
        while k < self.free.len()
            invariant
                k <= self.free@.len(),
                piece.solid(),
                out@.map_values(|s: Spot| wide(s)) =~= leaf_spots(
                    self.free@,
                    *piece,
                    prefer_rotate,
                    min_fit as int,
                    sheet,
                    k as nat,
                ),
            decreases self.free@.len() - k,
        {
            let fr = self.free.at(k);
            let here = match sheet {
                Some(s) => fr.sheet_idx == s,
                None => true,
            };
            if here {
                if let Some((pw, ph, rotated)) = fits_in(&fr, piece, prefer_rotate) {
                    let cols: u32 = fr.w / pw;
                    let rows: u32 = fr.h / ph;
                    if cols >= min_fit || rows >= min_fit {
                        out.push((k, pw, ph, rotated));
                    }
                }
            }
            k += 1;
        }
        out
    }

    fn pick(spots: &Spots, selector: u32) -> (r: Option<Spot>)
        ensures
            spot_of(r) == picked(spots@.map_values(|s: Spot| wide(s)), selector),
    {
        let n: usize = spots.len();
        if n == 0 {
            return None;
        }
        Some(spots.at((selector as usize) % n))
    }

    /// Like `find_fitting_leaf`, among the leaves of one sheet; the selector picks one of those
    /// that fit.
    pub fn find_fitting_leaf_on_sheet(
        &self,
        piece: &Piece,
        prefer_rotate: bool,
        selector: u32,
        sheet_idx: usize,
    ) -> (r: Option<Spot>)
        requires
            piece.solid(),
        ensures
            spot_of(r) == picked(
                leaf_spots(
                    self.free@,
                    *piece,
                    prefer_rotate,
                    0,
                    Some(sheet_idx),
                    self.free@.len(),
                ),
                selector,
            ),
    {
        let spots = self.collect_spots(piece, prefer_rotate, 0, Some(sheet_idx));
        FreePool::pick(&spots, selector)
    }

    /// Like `find_fitting_leaf_min_batch`, among the leaves of one sheet.
    pub fn find_fitting_leaf_min_batch_on_sheet(
        &self,
        piece: &Piece,
        prefer_rotate: bool,
        selector: u32,
        min_fit: u32,
        sheet_idx: usize,
    ) -> (r: Option<Spot>)
        requires
            piece.solid(),
        ensures
            spot_of(r) == picked(
                leaf_spots(
                    self.free@,
                    *piece,
                    prefer_rotate,
                    min_fit as int,
                    Some(sheet_idx),
                    self.free@.len(),
                ),
                selector,
            ),
    {
        let spots = self.collect_spots(piece, prefer_rotate, min_fit, Some(sheet_idx));
        FreePool::pick(&spots, selector)
    }

    /// One of the leaves where at least `min_fit` copies fit in a row or in a column, as the
    /// selector picks; none where there is no such leaf.
    pub fn find_fitting_leaf_min_batch(
        &self,
        piece: &Piece,
        prefer_rotate: bool,
        selector: u32,
        min_fit: u32,
    ) -> (r: Option<Spot>)
        requires
            piece.solid(),
        ensures
            spot_of(r) == picked(
                leaf_spots(
                    self.free@,
                    *piece,
                    prefer_rotate,
                    min_fit as int,
                    None,
                    self.free@.len(),
                ),
                selector,
            ),
    {
        let spots = self.collect_spots(piece, prefer_rotate, min_fit, None);
        FreePool::pick(&spots, selector)
    }

    /// The free leaf for the next batch.
    fn find_free_leaf(
        &self,
        piece: &Piece,
        rotate: bool,
        selector: u32,
        remaining: usize,
        last: Option<usize>,
    ) -> (r: Option<Spot>)
        requires
            piece.solid(),
        ensures
            spot_of(r) == free_leaf(
                self.free@,
                *piece,
                rotate,
                selector,
                remaining as int,
                last,
            ),
    {
        if let Some(sid) = last {
            let near = if remaining > 1 {
                self.find_fitting_leaf_min_batch_on_sheet(piece, rotate, selector, 2, sid)
            } else {
                self.find_fitting_leaf_on_sheet(piece, rotate, selector, sid)
            };
            if near.is_some() {
                return near;
            }
        }
        if remaining > 1 {
            let roomy = self.find_fitting_leaf_min_batch(piece, rotate, selector, 2);
            if roomy.is_some() {
                return roomy;
            }
        }
        self.find_fitting_leaf(piece, rotate, selector)
    }
}

/// A grid in machine integers.
struct GridPlan {
    n: u32,
    row_major: bool,
    per_line: u32,
    full: u32,
    extra: u32,
    cw: u32,
    ch: u32,
}

impl GridPlan {
    spec fn grid(self) -> Grid {
        Grid {
            n: self.n as int,
            row_major: self.row_major,
            per_line: self.per_line as int,
            full: self.full as int,
            extra: self.extra as int,
            cw: self.cw as int,
            ch: self.ch as int,
        }
    }
}

/// Area of the hole, where the last line is not full and not the only one.
fn hole(per_line: u32, full: u32, extra: u32, len: u32, across: u32, limit: u32) -> (r: u64)
    requires
        extra < per_line,
        per_line * len <= limit,
    ensures
        r == hole_area(
            per_line as int,
            full as int,
            extra as int,
            len as int,
            across as int,
        ),
{
    if extra > 0 && full >= 1 {
        assert(0 <= extra * len <= per_line * len) by (nonlinear_arith)
            requires
                0 <= extra <= per_line,
                len >= 0,
        ;
        let d: u32 = per_line * len - extra * len;
        crate::heuristic::common::product(d, across)
    } else {
        0
    }
}

/// Lays out up to `remaining` pieces in a rectangle.
fn plan_grid(w: u32, h: u32, pw: u32, ph: u32, remaining: u32) -> (r: GridPlan)
    requires
        1 <= pw <= w,
        1 <= ph <= h,
        remaining >= 1,
    ensures
        r.grid() == grid_of(w, h, pw, ph, remaining as int),
{
    let cols: u32 = w / pw;
    let rows: u32 = h / ph;
    proof {
        lemma_grid(w, h, pw, ph, remaining as int);
        vstd::arithmetic::div_mod::lemma_fundamental_div_mod(w as int, pw as int);
        vstd::arithmetic::div_mod::lemma_fundamental_div_mod(h as int, ph as int);
        vstd::arithmetic::div_mod::lemma_mod_bound(w as int, pw as int);
        vstd::arithmetic::div_mod::lemma_mod_bound(h as int, ph as int);
        vstd::arithmetic::div_mod::lemma_div_non_zero(w as int, pw as int);
        vstd::arithmetic::div_mod::lemma_div_non_zero(h as int, ph as int);
        assert(cols * pw <= w) by (nonlinear_arith)
            requires
                w == pw * (w as int / pw as int) + (w as int % pw as int),
                w as int % pw as int >= 0,
                cols == w as int / pw as int,
        ;
        assert(rows * ph <= h) by (nonlinear_arith)
            requires
                h == ph * (h as int / ph as int) + (h as int % ph as int),
                h as int % ph as int >= 0,
                rows == h as int / ph as int,
        ;
        assert(rows * cols >= 1) by (nonlinear_arith)
            requires
                cols >= 1,
                rows >= 1,
        ;
        assert(rows * cols == cols * rows) by (nonlinear_arith);
    }
    let most: u64 = crate::heuristic::common::product(rows, cols);
    let n: u32 = if most < remaining as u64 {
        most as u32
    } else {
        remaining
    };
    let row_full: u32 = n / cols;
    let row_extra: u32 = n % cols;
    let col_full: u32 = n / rows;
    let col_extra: u32 = n % rows;
    proof {
        lemma_lines(
            n as int,
            cols as int,
            rows as int,
            pw as int,
            ph as int,
            w as int,
            h as int,
        );
        lemma_lines(
            n as int,
            rows as int,
            cols as int,
            ph as int,
            pw as int,
            h as int,
            w as int,
        );
    }
    let row_hole: u64 = hole(cols, row_full, row_extra, pw, ph, w);
    let col_hole: u64 = hole(rows, col_full, col_extra, ph, pw, h);
    if row_hole <= col_hole {
        let begun: u32 = if row_extra > 0 {
            row_full + 1
        } else {
            row_full
        };
        let cw: u32 = if row_full >= 1 {
            cols * pw
        } else {
            row_extra * pw
        };
        GridPlan {
            n,
            row_major: true,
            per_line: cols,
            full: row_full,
            extra: row_extra,
            cw,
            ch: begun * ph,
        }
    } else {
        let begun: u32 = if col_extra > 0 {
            col_full + 1
        } else {
            col_full
        };
        let ch: u32 = if col_full >= 1 {
            rows * ph
        } else {
            col_extra * ph
        };
        GridPlan {
            n,
            row_major: false,
            per_line: rows,
            full: col_full,
            extra: col_extra,
            cw: begun * pw,
            ch,
        }
    }
}

/// Places the pieces of a grid.
fn place_grid(
    fr: &FreeRect,
    plan: &GridPlan,
    pw: u32,
    ph: u32,
    first: usize,
    rotated: bool,
    placements: &mut Vec<Placement>,
)
    requires
        grid_ok(plan.grid(), fr.w, fr.h, pw, ph),
        fr.right() <= u32::MAX,
        fr.bottom() <= u32::MAX,
        pw >= 1,
        ph >= 1,
        first + plan.n <= usize::MAX,
    ensures
        final(placements)@ == old(placements)@ + grid_placements(
            *fr,
            plan.grid(),
            pw,
            ph,
            first as int,
            rotated,
            plan.n as nat,
        ),
{
    let ghost g = plan.grid();
    let mut i: u32 = 0;
    assert(placements@ =~= old(placements)@ + grid_placements(
        *fr,
        g,
        pw,
        ph,
        first as int,
        rotated,
        0,
    ));
    while i < plan.n
        invariant
            i <= plan.n,
            g == plan.grid(),
            grid_ok(g, fr.w, fr.h, pw, ph),
            fr.right() <= u32::MAX,
            fr.bottom() <= u32::MAX,
            pw >= 1,
            ph >= 1,
            first + plan.n <= usize::MAX,
            placements@ == old(placements)@ + grid_placements(
                *fr,
                g,
                pw,
                ph,
                first as int,
                rotated,
                i as nat,
            ),
        decreases plan.n - i,
    {
        let line: u32 = i / plan.per_line;
        let pos: u32 = i % plan.per_line;
        proof {
            lemma_grid_room(g, fr.w, fr.h, pw, ph, i as int);
        }
        let (x, y) = if plan.row_major {
            (fr.x + pos * pw, fr.y + line * ph)
        } else {
            (fr.x + line * pw, fr.y + pos * ph)
        };
        placements.push(
            Placement { sheet_idx: fr.sheet_idx, piece_idx: first + i as usize, x, y, rotated },
        );
        i += 1;
        assert(placements@ =~= old(placements)@ + grid_placements(
            *fr,
            g,
            pw,
            ph,
            first as int,
            rotated,
            i as nat,
        ));
    }
}

/// Lays one batch in the corner of free leaf `spot.0`; returns the number of copies placed.
fn lay_batch(
    pool: &mut FreePool,
    placements: &mut Vec<Placement>,
    spot: Spot,
    inverse: bool,
    first: usize,
    remaining: u32,
) -> (n: u32)
    requires
        spot.0 < old(pool).free@.len(),
        1 <= spot.1 <= old(pool).free@[spot.0 as int].w,
        1 <= spot.2 <= old(pool).free@[spot.0 as int].h,
        old(pool).free@[spot.0 as int].right() <= u32::MAX,
        old(pool).free@[spot.0 as int].bottom() <= u32::MAX,
        remaining >= 1,
        first + remaining <= usize::MAX,
    ensures
        pack_of(final(pool).free@, final(placements)@, final(pool).sheets_open as int)
            == batch_laid(
            pack_of(old(pool).free@, old(placements)@, old(pool).sheets_open as int),
            spot.0 as int,
            spot.1,
            spot.2,
            spot.3,
            inverse,
            first as int,
            remaining as int,
        ),
        n == grid_of(
            old(pool).free@[spot.0 as int].w,
            old(pool).free@[spot.0 as int].h,
            spot.1,
            spot.2,
            remaining as int,
        ).n,
{
    let (free_pos, pw, ph, rotated) = spot;
    let fr = pool.free.at(free_pos);
    let plan = plan_grid(fr.w, fr.h, pw, ph, remaining);
    let ghost g = plan.grid();
    proof {
        lemma_grid(fr.w, fr.h, pw, ph, remaining as int);
    }
    pool.apply_batch(free_pos, plan.cw, plan.ch, inverse);
    place_grid(&fr, &plan, pw, ph, first, rotated, placements);
    if plan.extra > 0 && plan.full >= 1 {
        proof {
            lemma_hole_bounds(g, fr.w, fr.h, pw, ph);
        }
        if plan.row_major {
            pool.push_free_leaf(
                fr.sheet_idx,
                fr.x + plan.extra * pw,
                fr.y + plan.full * ph,
                plan.cw - plan.extra * pw,
                ph,
            );
        } else {
            pool.push_free_leaf(
                fr.sheet_idx,
                fr.x + plan.full * pw,
                fr.y + plan.extra * ph,
                pw,
                plan.ch - plan.extra * ph,
            );
        }
    }
    plan.n
}

/// The hole has area and lies in the batch.
proof fn lemma_hole_bounds(g: Grid, w: u32, h: u32, pw: u32, ph: u32)
    requires
        grid_ok(g, w, h, pw, ph),
        pw >= 1,
        ph >= 1,
        g.extra > 0,
        g.full >= 1,
    ensures
        g.row_major ==> 0 <= g.extra * pw < g.cw && 0 <= g.full * ph < g.ch,
        !g.row_major ==> 0 <= g.extra * ph < g.ch && 0 <= g.full * pw < g.cw,
{
    let (len, across) = if g.row_major {
        (pw as int, ph as int)
    } else {
        (ph as int, pw as int)
    };
    assert(0 <= g.extra * len < g.per_line * len) by (nonlinear_arith)
        requires
            0 < g.extra < g.per_line,
            len >= 1,
    ;
    assert(0 <= g.full * across < (g.full + 1) * across) by (nonlinear_arith)
        requires
            g.full >= 1,
            across >= 1,
    ;
}

/// Places all copies of one type.
fn place_type(
    problem: &Problem,
    pool: &mut FreePool,
    placements: &mut Vec<Placement>,
    gene: &Gene,
    start: usize,
    first: usize,
    end: usize,
    Ghost(types): Ghost<Seq<PieceType>>,
    Ghost(next): Ghost<Seq<int>>,
)
    requires
        copies_of(*problem, types),
        solid_pieces(*problem),
        crate::heuristic::gbaf::all_fit(*problem),
        problem.pieces@.len() < usize::MAX,
        gene.type_idx < types.len(),
        start == copies(types, gene.type_idx as nat),
        end == copies(types, (gene.type_idx + 1) as nat),
        start <= first <= end,
        gene.selectors@.len() == types[gene.type_idx as int].count,
        gene.inverses@.len() == types[gene.type_idx as int].count,
        next.len() == types.len(),
        next[gene.type_idx as int] == first,
        decoding_ok(
            *problem,
            types,
            (Decoding {
                pack: pack_of(old(pool).free@, old(placements)@, old(pool).sheets_open as int),
                next,
            }),
        ),
    ensures
        ({
            let d = Decoding {
                pack: pack_of(old(pool).free@, old(placements)@, old(pool).sheets_open as int),
                next,
            };
            let d2 = gene_step(*problem, types, d, gene@);
            &&& pack_of(final(pool).free@, final(placements)@, final(pool).sheets_open as int)
                == d2.pack
            &&& d2.next == next.update(gene.type_idx as int, end as int)
            &&& decoding_ok(*problem, types, d2)
        }),
{
    let ghost t = gene.type_idx as int;
    let ghost r0 = TypeRun {
        pack: pack_of(pool.free@, placements@, pool.sheets_open as int),
        next: first as int,
        last: None,
    };
    let mut done: usize = first;
    let mut last: Option<usize> = None;
    assert(next.update(t, first as int) =~= next);
    while done < end
        invariant
            start <= done <= end,
            t == gene.type_idx,
            copies_of(*problem, types),
            solid_pieces(*problem),
            crate::heuristic::gbaf::all_fit(*problem),
            problem.pieces@.len() < usize::MAX,
            gene.type_idx < types.len(),
            start == copies(types, gene.type_idx as nat),
            end == copies(types, (gene.type_idx + 1) as nat),
            gene.selectors@.len() == types[gene.type_idx as int].count,
            gene.inverses@.len() == types[gene.type_idx as int].count,
            next.len() == types.len(),
            type_run(*problem, r0, gene@, start as int, end as int) == type_run(
                *problem,
                (TypeRun {
                    pack: pack_of(pool.free@, placements@, pool.sheets_open as int),
                    next: done as int,
                    last,
                }),
                gene@,
                start as int,
                end as int,
            ),
            run_ok(
                *problem,
                (TypeRun {
                    pack: pack_of(pool.free@, placements@, pool.sheets_open as int),
                    next: done as int,
                    last,
                }),
                start as int,
                end as int,
            ),
            placed_exactly(types, next.update(t, done as int), placed_indices(placements@)),
        decreases end - done,
    {
        let ghost r = TypeRun {
            pack: pack_of(pool.free@, placements@, pool.sheets_open as int),
            next: done as int,
            last,
        };
        let remaining: usize = end - done;
        proof {
            crate::expand::lemma_copies_grow(types, (t + 1) as nat, types.len());
            let now = next.update(t, done as int);
            let s = placed_indices(placements@);
            if s.contains(done) {
                let q = choose|q: int| #[trigger]
                    of_type(types, q, done as int) && done < now[q];
                assert(of_type(types, t, done as int));
                lemma_of_type_unique(types, t, q, done as int);
            }
            lemma_some_missing(*problem, types, now, s, done);
            assert(fits_sheet(*problem, done as int));
            assert(problem.pieces[done as int].solid());
            lemma_batch_step(*problem, types, r, gene@, t);
            lemma_batch_leaf(
                *problem,
                r.pack,
                done as int,
                gene.rotate,
                gene.selectors@[done - start],
                remaining as int,
                last,
            );
        }
        let selector: u32 = gene.selectors.at(done - start);
        let inverse = gene.inverses.at(done - start);
        let piece = &problem.pieces[done];
        let mut found = pool.find_free_leaf(piece, gene.rotate, selector, remaining, last);
        if found.is_none() {
            pool.open_new_sheet(problem.sheet.width, problem.sheet.height);
            found = pool.find_fitting_leaf(piece, gene.rotate, selector);
        }
        let ghost st = pack_of(pool.free@, placements@, pool.sheets_open as int);
        if let Some(spot) = found {
            assert(st == batch_leaf(
                *problem,
                r.pack,
                *piece,
                gene.rotate,
                selector,
                remaining as int,
                last,
            ).0);
            proof {
                lemma_free_within(*problem, st, spot.0 as int);
                lemma_grid(
                    st.free[spot.0 as int].w,
                    st.free[spot.0 as int].h,
                    spot.1,
                    spot.2,
                    remaining as int,
                );
            }
            let sheet: usize = pool.free.at(spot.0).sheet_idx;
            let n: u32 = lay_batch(pool, placements, spot, inverse, done, remaining as u32);
            last = Some(sheet);
            proof {
                lemma_placed_more(
                    types,
                    next.update(t, done as int),
                    placed_indices(r.pack.placements),
                    t,
                    done as int,
                    done + n,
                );
                assert(next.update(t, done as int).update(t, done + n) =~= next.update(
                    t,
                    done + n,
                ));
            }
            done = done + n as usize;
        } else {
            return;
        }
    }
    proof {
        let d2 = gene_step(
            *problem,
            types,
            Decoding { pack: r0.pack, next },
            gene@,
        );
        assert(d2.next =~= next.update(t, end as int));
    }
}

/// Decodes a group genome. For each gene all copies of its type are placed, one batch at a
/// time: the selector and flag of the first copy that is not placed yet pick the free leaf and
/// the direction of the cut, and as many copies as fit are laid there as a grid. A new sheet is
/// opened when a copy fits nowhere.
pub fn decode(problem: &Problem, spec: &ProblemSpec, genome: &Genome) -> (r: Solution)
    requires
        copies_of(*problem, spec.piece_types@),
        genes_ok(spec.piece_types@, all_genes(genome_view(*genome), genome@.len())),
        solid_pieces(*problem),
        crate::heuristic::gbaf::all_fit(*problem),
        problem.pieces@.len() < usize::MAX,
    ensures
        ({
            let genes = all_genes(genome_view(*genome), genome@.len());
            let d = decoded(*problem, spec.piece_types@, genes, genes.len());
            &&& r.placements@ == d.pack.placements
            &&& r.leftovers@ == d.pack.free
        }),
        sliced(*problem, r.placements@, r.leftovers@),
        few_sheets(r.placements@, r.placements@.len()),
        distinct_types(all_genes(genome_view(*genome), genome@.len())) ==> complete(*problem, r.placements@),
        crate::offcuts::scorable(problem.sheet, problem.pieces@.len())
            ==> crate::offcuts::gradable(*problem, r.placements@),
{
    let ghost types = spec.piece_types@;
    let ghost genes = all_genes(genome_view(*genome), genome@.len());
    let mut pool = FreePool::new(problem.sheet.width, problem.sheet.height);
    let n_types: usize = spec.piece_types.len();
    let mut starts: Vec<usize> = Vec::new();
    let mut acc: usize = 0;
    let mut t: usize = 0;
    while t < n_types
        invariant
            t <= n_types,
            n_types == types.len(),
            types == spec.piece_types@,
            copies(types, types.len()) < usize::MAX,
            acc == copies(types, t as nat),
            starts@.len() == t,
            forall|j: int| 0 <= j < t ==> #[trigger] starts@[j] == copies(types, j as nat),
        decreases n_types - t,
    {
        starts.push(acc);
        proof {
            crate::expand::lemma_copies_grow(types, (t + 1) as nat, types.len());
        }
        acc = acc + spec.piece_types[t].count as usize;
        t += 1;
    }
    starts.push(acc);
    let mut next: Vec<usize> = Vec::new();
    let mut q: usize = 0;
    while q < n_types
        invariant
            q <= n_types,
            n_types == types.len(),
            starts@.len() == n_types + 1,
            next@ == starts@.take(q as int),
        decreases n_types - q,
    {
        next.push(starts[q]);
        q += 1;
        assert(next@ =~= starts@.take(q as int));
    }
    let mut placements: Vec<Placement> = Vec::new();
    let ghost mut d = decoded(*problem, types, genes, 0);
    proof {
        assert(pool.free@ =~= fresh(problem.sheet).free);
        assert(placements@ =~= fresh(problem.sheet).placements);
        assert(pack_of(pool.free@, placements@, 1) == d.pack);
        assert(d.next =~= Seq::new(next@.len(), |i: int| next@[i] as int));
        lemma_fresh(*problem);
        assert(placed_indices(placements@) =~= Seq::empty());
        assert forall|i: int| 0 <= i < types.len() implies copies(types, i as nat)
            <= #[trigger] d.next[i] <= copies(types, (i + 1) as nat) by {}
        assert(placed_exactly(types, d.next, placed_indices(placements@)));
    }
    let mut c: usize = 0;
    while c < genome.len()
        invariant
            c <= genome@.len(),
            types == spec.piece_types@,
            n_types == types.len(),
            genes == all_genes(genome_view(*genome), genome@.len()),
            genes_ok(types, genes),
            copies_of(*problem, types),
            solid_pieces(*problem),
            crate::heuristic::gbaf::all_fit(*problem),
            problem.pieces@.len() < usize::MAX,
            starts@.len() == n_types + 1,
            forall|j: int| 0 <= j <= n_types ==> #[trigger] starts@[j] == copies(types, j as nat),
            d == decoded(*problem, types, genes, all_genes(genome_view(*genome), c as nat).len()),
            decoding_ok(*problem, types, d),
            pack_of(pool.free@, placements@, pool.sheets_open as int) == d.pack,
            next@.len() == n_types,
            d.next == Seq::new(next@.len(), |i: int| next@[i] as int),
            decoded_types(types, genes, d.next, all_genes(genome_view(*genome), c as nat).len() as int),
        decreases genome@.len() - c,
    {
        let class = &genome[c];
        let ghost before = all_genes(genome_view(*genome), c as nat);
        let mut k: usize = 0;
        proof {
            lemma_genes_prefix(genome_view(*genome), (c + 1) as nat, genome@.len());
        }
        while k < class.len()
            invariant
                k <= class@.len(),
                c < genome@.len(),
                class@ == genome@[c as int]@,
                types == spec.piece_types@,
                n_types == types.len(),
                genes == all_genes(genome_view(*genome), genome@.len()),
                before == all_genes(genome_view(*genome), c as nat),
                all_genes(genome_view(*genome), (c + 1) as nat) == genes.take(
                    (before.len() + class@.len()) as int,
                ),
                before.len() + class@.len() <= genes.len(),
                genes_ok(types, genes),
                copies_of(*problem, types),
                solid_pieces(*problem),
                crate::heuristic::gbaf::all_fit(*problem),
                problem.pieces@.len() < usize::MAX,
                starts@.len() == n_types + 1,
                forall|j: int|
                    0 <= j <= n_types ==> #[trigger] starts@[j] == copies(types, j as nat),
                d == decoded(*problem, types, genes, (before.len() + k) as nat),
                decoding_ok(*problem, types, d),
                pack_of(pool.free@, placements@, pool.sheets_open as int) == d.pack,
                next@.len() == n_types,
                d.next == Seq::new(next@.len(), |i: int| next@[i] as int),
                decoded_types(types, genes, d.next, before.len() + k),
            decreases class@.len() - k,
        {
            let gene = &class[k];
            let ghost pos = before.len() + k;
            proof {
                let all = all_genes(genome_view(*genome), (c + 1) as nat);
                assert(all[pos as int] == class@[k as int]@);
                assert(genes[pos as int] == gene@);
            }
            let ti: usize = gene.type_idx;
            let ghost d0 = d;
            assert(starts@[ti as int] == copies(types, ti as nat));
            assert(starts@[ti + 1] == copies(types, (ti + 1) as nat));
            assert(d.next[ti as int] == next@[ti as int]);
            let end: usize = starts[ti + 1];
            place_type(
                problem,
                &mut pool,
                &mut placements,
                gene,
                starts[ti],
                next[ti],
                end,
                Ghost(types),
                Ghost(d.next),
            );
            next.set(ti, end);
            proof {
                d = gene_step(*problem, types, d0, gene@);
                assert(d.next =~= Seq::new(next@.len(), |i: int| next@[i] as int));
                assert(d == decoded(*problem, types, genes, (pos + 1) as nat));
            }
            k += 1;
        }
        c += 1;
    }
    proof {
        lemma_coherent_sliced(*problem, d.pack);
        let s = placed_indices(placements@);
        assert forall|i: int| 0 <= i < s.len() implies #[trigger] s[i]
            < problem.pieces@.len() by {
            assert(s.contains(s[i]));
            let q = choose|q: int| #[trigger] of_type(types, q, s[i] as int) && s[i] < d.next[q];
            crate::expand::lemma_copies_grow(types, (q + 1) as nat, types.len());
        }
        lemma_placed_below(s, problem.pieces@.len());
        if distinct_types(genes) {
            lemma_all_decoded(*problem, types, genes, d, s);
        }
        if crate::offcuts::scorable(problem.sheet, problem.pieces@.len()) {
            lemma_fewer_scorable(*problem, placements@.len());
            crate::packing::lemma_coherent_gradable(*problem, d.pack);
        }
    }
    Solution { placements, leftovers: pool.into_free() }
}

/// No type has two genes.
pub open spec fn distinct_types(genes: Seq<GeneView>) -> bool {
    forall|i: int, j: int|
        0 <= i < j < genes.len() ==> (#[trigger] genes[i]).type_idx != (#[trigger] genes[j]).type_idx
}

/// The types of the first `k` genes are placed.
pub open spec fn decoded_types(types: Seq<PieceType>, genes: Seq<GeneView>, next: Seq<int>, k: int) -> bool {
    forall|i: int|
        0 <= i < k ==> next[(#[trigger] genes[i]).type_idx as int] == copies(
            types,
            (genes[i].type_idx + 1) as nat,
        )
}

proof fn lemma_genes_prefix(classes: Seq<Seq<GeneView>>, c: nat, n: nat)
    requires
        c <= n <= classes.len(),
    ensures
        all_genes(classes, c).len() <= all_genes(classes, n).len(),
        all_genes(classes, c) =~= all_genes(classes, n).take(all_genes(classes, c).len() as int),
    decreases n,
{
    if c < n {
        lemma_genes_prefix(classes, c, (n - 1) as nat);
    }
}

/// A smaller number of pieces is scorable too.
proof fn lemma_fewer_scorable(problem: Problem, k: nat)
    requires
        crate::offcuts::scorable(problem.sheet, problem.pieces@.len()),
        k <= problem.pieces@.len(),
    ensures
        crate::offcuts::scorable(problem.sheet, k),
{
    let a = crate::score::square(problem.sheet.width as int);
    let b = crate::score::square(problem.sheet.height as int);
    let n = problem.pieces@.len() as int;
    assert(a >= 0 && b >= 0) by (nonlinear_arith)
        requires
            a == crate::score::square(problem.sheet.width as int),
            b == crate::score::square(problem.sheet.height as int),
    ;
    assert(2 * k * (a + b) <= 2 * n * (a + b)) by (nonlinear_arith)
        requires
            0 <= k <= n,
            a >= 0,
            b >= 0,
    ;
}

pub(crate) proof fn lemma_all_decoded(
    problem: Problem,
    types: Seq<PieceType>,
    genes: Seq<GeneView>,
    d: Decoding,
    s: Seq<usize>,
)
    requires
        copies_of(problem, types),
        genes_ok(types, genes),
        distinct_types(genes),
        decoding_ok(problem, types, d),
        decoded_types(types, genes, d.next, genes.len() as int),
        s == placed_indices(d.pack.placements),
        problem.pieces@.len() < usize::MAX,
        types.len() <= usize::MAX,
        forall|i: int| 0 <= i < s.len() ==> #[trigger] s[i] < problem.pieces@.len(),
    ensures
        complete(problem, d.pack.placements),
{
    let g = Seq::new(genes.len(), |i: int| genes[i].type_idx);
    assert(g.no_duplicates()) by {
        assert forall|i: int, j: int| 0 <= i < j < g.len() implies g[i] != g[j] by {
            assert(genes[i].type_idx != genes[j].type_idx);
        }
    }
    let n = problem.pieces@.len();
    let all = Seq::new(n, |i: int| i as usize);
    crate::expand::lemma_type_indices(types, types.len());
    assert forall|v: usize| s.contains(v) <==> all.contains(v) by {
        if all.contains(v) {
            let i = choose|i: int| 0 <= i < all.len() && all[i] == v;
            let t = crate::expand::type_indices(types, types.len())[v as int];
            assert(of_type(types, t as int, v as int));
            crate::sorting::lemma_all_present(g, types.len(), t);
            let k = choose|k: int| 0 <= k < g.len() && g[k] == t;
            assert(genes[k].type_idx == t);
            assert(d.next[t as int] == copies(types, (t + 1) as nat));
        }
        if s.contains(v) {
            let i = choose|i: int| 0 <= i < s.len() && s[i] == v;
            assert(all[v as int] == v);
        }
    }
    assert(all.no_duplicates());
    s.unique_seq_to_set();
    all.unique_seq_to_set();
    assert(s.to_set() =~= all.to_set());
    assert(s.len() == d.pack.placements.len());
}

/// Decodes a genome for a statement into a solution in terms of piece types.
pub fn decode_spec(spec: &ProblemSpec, genome: &Genome) -> (r: SolutionSpec)
    requires
        workable(*spec),
        genes_ok(spec.piece_types@, all_genes(genome_view(*genome), genome@.len())),
        forall|p: Problem| #[trigger]
            is_expansion(*spec, p) ==> solid_pieces(p) && crate::heuristic::gbaf::all_fit(p)
                && p.pieces@.len() < usize::MAX,
    ensures
        exists|p: Problem| #[trigger]
            is_expansion(*spec, p) && ({
                let genes = all_genes(genome_view(*genome), genome@.len());
                let d = decoded(p, spec.piece_types@, genes, genes.len());
                shrunk_as(*spec, r, d.pack.placements, d.pack.free)
            }),
{
    let problem = expand_problem(spec);
    proof {
        assert(spec.piece_types@.len() == spec.piece_types.len());
        lemma_expansion_copies(*spec, problem);
    }
    let sol = decode(&problem, spec, genome);
    proof {
        lemma_layout_shrinkable(*spec, problem, sol);
    }
    let r = shrink_solution(&sol, spec);
    assert(is_expansion(*spec, problem));
    r
}

/// The pieces of an expansion are the copies of its types.
pub proof fn lemma_expansion_copies(spec: ProblemSpec, problem: Problem)
    requires
        is_expansion(spec, problem),
        spec.piece_types@.len() <= usize::MAX,
    ensures
        copies_of(problem, spec.piece_types@),
{
    let types = spec.piece_types@;
    lemma_expansion(spec, problem);
    assert forall|t: int, i: int| #[trigger] of_type(types, t, i) implies {
        let first = problem.pieces@[copies(types, t as nat) as int];
        &&& problem.pieces@[i].width == first.width
        &&& problem.pieces@[i].height == first.height
        &&& problem.pieces@[i].can_rotate == first.can_rotate
    } by {
        crate::expand::lemma_type_at(types, types.len(), t, i);
        crate::expand::lemma_type_at(types, types.len(), t, copies(types, t as nat) as int);
    }
}

} // verus!
