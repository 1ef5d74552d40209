//! Fixed pieces are never turned.

use vstd::prelude::*;

use crate::decoder::plain;
use crate::expand::copies;
use crate::glas::decoder::{
    batch_leaf, batch_step, copies_of, genes_ok, grid_of, grid_placements, lemma_grid, lemma_picked,
    lemma_selected, of_type, type_run, GeneView, TypeRun,
};
use crate::group_fill::{law_best_group, Strip};
use crate::gslas::decoder::{strip_spot, strip_step, strips};
use crate::heuristic::bfdh::bfdh_state;
use crate::heuristic::common::{PieceOrder, SortDir, SortKey};
use crate::heuristic::gbaf::{all_fit, gbaf_state, lemma_least_waste};
use crate::heuristic::groupsub::{
    densest, groupsub_result, groupsub_run, groupsub_step, head_fits, head_room, laid_order,
    lemma_smallest_room, lemma_without, shape, without, MemberOrder, Pass,
};
use crate::heuristic::jylanki::{
    jylanki_result, jylanki_state, keyed_order, lemma_best_scored, Strategy,
};
use crate::heuristic::nfdh::{
    first_row, gap_fill, make_room, nfdh_result, nfdh_run, row_fits, row_put, Row,
};
use crate::heuristic::shelf::by_height;
use crate::heuristic::sheet_state;
use crate::model::{Placement, Problem};
use crate::packing::{opened, solid_pieces, Pack};
use crate::parse::FlatProblem;
use crate::slas::decoder::{
    decodable, decode_step, decoded, fit, fits_sheet, lemma_fit_any, Gene,
};
use crate::sorting::Order;

verus! {

/// No piece is turned that may not be.
pub open spec fn turned_as_allowed(problem: Problem, placements: Seq<Placement>) -> bool {
    forall|i: int|
        0 <= i < placements.len() && (#[trigger] placements[i]).rotated
            ==> problem.pieces@[placements[i].piece_idx as int].can_rotate
}

proof fn lemma_push(problem: Problem, placements: Seq<Placement>, pl: Placement)
    requires
        turned_as_allowed(problem, placements),
        pl.rotated ==> problem.pieces@[pl.piece_idx as int].can_rotate,
    ensures
        turned_as_allowed(problem, placements.push(pl)),
{
    let longer = placements.push(pl);
    assert forall|i: int| 0 <= i < longer.len() && (#[trigger] longer[i]).rotated
        implies problem.pieces@[longer[i].piece_idx as int].can_rotate by {
        if i < placements.len() {
            assert(longer[i] == placements[i]);
        }
    }
}

/// Decoding genes of single pieces turns no fixed piece.
pub proof fn law_genes_turn_as_allowed(problem: Problem, genome: Seq<Gene>, k: nat)
    requires
        decodable(problem, genome),
        k <= genome.len(),
    ensures
        turned_as_allowed(problem, decoded(problem, genome, k).placements),
    decreases k,
{
    if k > 0 {
        law_genes_turn_as_allowed(problem, genome, (k - 1) as nat);
        let st = decoded(problem, genome, (k - 1) as nat);
        let gene = genome[k - 1];
        let piece = problem.pieces@[gene.piece_idx as int];
        lemma_selected(st.free, piece, gene.rotate, gene.point_selector);
        assert(fits_sheet(problem, gene.piece_idx as int));
        let cell = crate::model::sheet_cell(problem.sheet, st.sheets);
        lemma_fit_any(
            crate::model::sheet_cell(problem.sheet, 0),
            cell,
            piece,
            false,
            gene.rotate,
        );
        let now = decoded(problem, genome, k);
        assert(now == decode_step(problem, st, gene));
        assert(now.placements =~= st.placements.push(now.placements.last()));
        lemma_push(problem, st.placements, now.placements.last());
    }
}

/// Decoding genes of single pieces with a saw turns no fixed piece.
pub proof fn law_sawn_genes_turn_as_allowed(
    problem: FlatProblem,
    genome: Seq<crate::decoder::Gene>,
    k: nat,
)
    requires
        crate::decoder::decodable(problem, genome),
        k <= genome.len(),
    ensures
        turned_as_allowed(
            plain(problem),
            crate::decoder::decoded(problem, genome, k).placements,
        ),
    decreases k,
{
    if k > 0 {
        law_sawn_genes_turn_as_allowed(problem, genome, (k - 1) as nat);
        let st = crate::decoder::decoded(problem, genome, (k - 1) as nat);
        let gene = genome[k - 1];
        let piece = problem.pieces@[gene.piece_idx as int];
        lemma_selected(st.free, piece, gene.rotate, gene.point_selector);
        assert(fits_sheet(plain(problem), gene.piece_idx as int));
        lemma_fit_any(
            crate::model::sheet_cell(problem.sheet, 0),
            crate::model::sheet_cell(problem.sheet, st.sheets),
            piece,
            false,
            gene.rotate,
        );
        let now = crate::decoder::decoded(problem, genome, k);
        assert(now.placements =~= st.placements.push(now.placements.last()));
        lemma_push(plain(problem), st.placements, now.placements.last());
    }
}

/// Filling shelves turns no fixed piece.
pub proof fn law_shelves_turn_as_allowed(problem: Problem, order: Seq<usize>, k: nat)
    requires
        k <= order.len(),
    ensures
        turned_as_allowed(problem, bfdh_state(problem, order, k).placements),
        turned_as_allowed(problem, sheet_state(problem, order, k).placements),
    decreases k,
{
    if k > 0 {
        law_shelves_turn_as_allowed(problem, order, (k - 1) as nat);
        let a = bfdh_state(problem, order, (k - 1) as nat).placements;
        let a2 = bfdh_state(problem, order, k).placements;
        assert(a2 =~= a.push(a2.last()));
        lemma_push(problem, a, a2.last());
        let b = sheet_state(problem, order, (k - 1) as nat).placements;
        let b2 = sheet_state(problem, order, k).placements;
        assert(b2 =~= b.push(b2.last()));
        lemma_push(problem, b, b2.last());
    }
}

/// The best-area-fit packer turns no fixed piece.
pub proof fn law_best_area_turns_as_allowed(problem: Problem, order: Seq<usize>, k: nat)
    requires
        all_fit(problem),
        k <= order.len(),
        forall|i: int| 0 <= i < order.len() ==> #[trigger] order[i] < problem.pieces@.len(),
    ensures
        turned_as_allowed(problem, gbaf_state(problem, order, k).placements),
    decreases k,
{
    if k > 0 {
        law_best_area_turns_as_allowed(problem, order, (k - 1) as nat);
        let st = gbaf_state(problem, order, (k - 1) as nat);
        let i = order[k - 1] as int;
        assert(order[k - 1] < problem.pieces@.len());
        assert(fits_sheet(problem, i));
        lemma_least_waste(st.free, problem.pieces@[i], st.free.len());
        let now = gbaf_state(problem, order, k);
        assert(now.placements =~= st.placements.push(now.placements.last()));
        lemma_push(problem, st.placements, now.placements.last());
    }
}

proof fn lemma_scored_turns(problem: Problem, order: Seq<usize>, how: Strategy, k: nat)
    requires
        all_fit(problem),
        k <= order.len(),
        forall|i: int| 0 <= i < order.len() ==> #[trigger] order[i] < problem.pieces@.len(),
    ensures
        turned_as_allowed(problem, jylanki_state(problem, order, how, k).placements),
    decreases k,
{
    if k > 0 {
        lemma_scored_turns(problem, order, how, (k - 1) as nat);
        let st = jylanki_state(problem, order, how, (k - 1) as nat);
        let i = order[k - 1] as int;
        let piece = problem.pieces@[i];
        assert(order[k - 1] < problem.pieces@.len());
        assert(fits_sheet(problem, i));
        let n = st.free.len() as int;
        lemma_best_scored(st.free, piece, how.sel, 0, n);
        let st2 = opened(problem.sheet, st);
        lemma_best_scored(st2.free, piece, how.sel, n, n + 1);
        assert(st2.free[n].w == problem.sheet.width);
        assert(piece.placed_w(false) == piece.width && piece.placed_w(true) == piece.height);
        let now = jylanki_state(problem, order, how, k);
        assert(now.placements =~= st.placements.push(now.placements.last()));
        lemma_push(problem, st.placements, now.placements.last());
    }
}

/// No pass of the portfolio turns a fixed piece.
pub proof fn law_portfolio_turns_as_allowed(problem: Problem, how: Strategy)
    requires
        all_fit(problem),
        crate::heuristic::jylanki::extended(problem),
        problem.pieces@.len() < usize::MAX,
    ensures
        turned_as_allowed(problem, jylanki_result(problem, how).placements),
{
    reveal(jylanki_result);
    let o = PieceOrder { pieces: problem.pieces@, key: how.key, dir: how.dir };
    let n = problem.pieces@.len();
    assert forall|i: int| 0 <= i < n implies #[trigger] o.ranks(i) by {
        assert(problem.pieces[i].width > 0 || problem.pieces[i].height > 0);
    }
    crate::sorting::lemma_order_exists(o, n);
    lemma_scored_turns(problem, keyed_order(problem, how.key, how.dir), how, n);
}

/// A batch turns its copies only if they may be turned.
proof fn lemma_batch_turns(
    problem: Problem,
    types: Seq<crate::model::PieceType>,
    r: TypeRun,
    gene: GeneView,
    t: int,
)
    requires
        copies_of(problem, types),
        solid_pieces(problem),
        all_fit(problem),
        0 <= t < types.len(),
        copies(types, t as nat) <= r.next < copies(types, (t + 1) as nat),
        problem.pieces@.len() < usize::MAX,
        turned_as_allowed(problem, r.pack.placements),
    ensures
        ({
            let start = copies(types, t as nat) as int;
            let end = copies(types, (t + 1) as nat) as int;
            let r2 = batch_step(problem, r, gene, start, end);
            &&& r.next < r2.next <= end
            &&& turned_as_allowed(problem, r2.pack.placements)
        }),
{
    let start = copies(types, t as nat) as int;
    let end = copies(types, (t + 1) as nat) as int;
    crate::expand::lemma_copies_grow(types, (t + 1) as nat, types.len());
    let piece = problem.pieces@[r.next];
    let selector = gene.selectors[r.next - start];
    let left = end - r.next;
    let least = if left > 1 {
        2int
    } else {
        0int
    };
    lemma_picked(r.pack.free, piece, gene.rotate, least, r.last, selector);
    lemma_picked(r.pack.free, piece, gene.rotate, 2, None, selector);
    lemma_selected(r.pack.free, piece, gene.rotate, selector);
    assert(fits_sheet(problem, r.next));
    assert(problem.pieces[r.next].solid());
    let st2 = opened(problem.sheet, r.pack);
    let n = st2.free.len() - 1;
    assert(fit(st2.free[n], piece, gene.rotate) is Some);
    lemma_selected(st2.free, piece, gene.rotate, selector);
    let (st, spot) = batch_leaf(problem, r.pack, piece, gene.rotate, selector, left, r.last);
    assert(fit(st.free[spot.0], piece, gene.rotate) == Some((spot.1, spot.2, spot.3)));
    let fr = st.free[spot.0];
    lemma_grid(fr.w, fr.h, spot.1, spot.2, left);
    let g = grid_of(fr.w, fr.h, spot.1, spot.2, left);
    let more = grid_placements(fr, g, spot.1, spot.2, r.next, spot.3, g.n as nat);
    let r2 = batch_step(problem, r, gene, start, end);
    let all = r2.pack.placements;
    assert(all == r.pack.placements + more);
    assert(of_type(types, t, r.next));
    assert forall|i: int| 0 <= i < all.len() && (#[trigger] all[i]).rotated
        implies problem.pieces@[all[i].piece_idx as int].can_rotate by {
        let m = r.pack.placements.len();
        if i < m {
            assert(all[i] == r.pack.placements[i]);
        } else {
            assert(all[i] == more[i - m]);
            assert(all[i].piece_idx == r.next + (i - m));
            assert(of_type(types, t, r.next + (i - m)));
        }
    }
}

proof fn lemma_run_turns(
    problem: Problem,
    types: Seq<crate::model::PieceType>,
    r: TypeRun,
    gene: GeneView,
    t: int,
)
    requires
        copies_of(problem, types),
        solid_pieces(problem),
        all_fit(problem),
        0 <= t < types.len(),
        copies(types, t as nat) <= r.next <= copies(types, (t + 1) as nat),
        problem.pieces@.len() < usize::MAX,
        turned_as_allowed(problem, r.pack.placements),
    ensures
        ({
            let start = copies(types, t as nat) as int;
            let end = copies(types, (t + 1) as nat) as int;
            let r2 = type_run(problem, r, gene, start, end);
            &&& start <= r2.next <= end
            &&& turned_as_allowed(problem, r2.pack.placements)
        }),
    decreases copies(types, (t + 1) as nat) - r.next,
{
    let start = copies(types, t as nat) as int;
    let end = copies(types, (t + 1) as nat) as int;
    if r.next < end {
        lemma_batch_turns(problem, types, r, gene, t);
        lemma_run_turns(problem, types, batch_step(problem, r, gene, start, end), gene, t);
    }
}

/// The state after `k` genes of piece types.
proof fn lemma_genes_turn(
    problem: Problem,
    types: Seq<crate::model::PieceType>,
    genes: Seq<GeneView>,
    k: nat,
)
    requires
        copies_of(problem, types),
        genes_ok(types, genes),
        solid_pieces(problem),
        all_fit(problem),
        problem.pieces@.len() < usize::MAX,
        k <= genes.len(),
    ensures
        turned_as_allowed(
            problem,
            crate::glas::decoder::decoded(problem, types, genes, k).pack.placements,
        ),
        ({
            let next = crate::glas::decoder::decoded(problem, types, genes, k).next;
            &&& next.len() == types.len()
            &&& forall|t: int|
                0 <= t < types.len() ==> copies(types, t as nat) <= #[trigger] next[t] <= copies(
                    types,
                    (t + 1) as nat,
                )
        }),
    decreases k,
{
    if k > 0 {
        lemma_genes_turn(problem, types, genes, (k - 1) as nat);
        let d = crate::glas::decoder::decoded(problem, types, genes, (k - 1) as nat);
        let gene = genes[k - 1];
        let t = gene.type_idx as int;
        assert(copies(types, t as nat) <= d.next[t]);
        lemma_run_turns(
            problem,
            types,
            TypeRun { pack: d.pack, next: d.next[t], last: None },
            gene,
            t,
        );
    }
}

/// Decoding genes of piece types turns no fixed piece.
pub proof fn law_type_genes_turn_as_allowed(
    problem: Problem,
    types: Seq<crate::model::PieceType>,
    genes: Seq<GeneView>,
    k: nat,
)
    requires
        copies_of(problem, types),
        genes_ok(types, genes),
        solid_pieces(problem),
        all_fit(problem),
        problem.pieces@.len() < usize::MAX,
        k <= genes.len(),
    ensures
        turned_as_allowed(
            problem,
            crate::glas::decoder::decoded(problem, types, genes, k).pack.placements,
        ),
{
    lemma_genes_turn(problem, types, genes, k);
}

proof fn lemma_gap_turns(problem: Problem, order: Seq<usize>, st: Row, from: int, to: int)
    requires
        turned_as_allowed(problem, st.placements),
    ensures
        turned_as_allowed(problem, gap_fill(problem, order, st, from, to).placements),
    decreases to - from,
{
    if to > from {
        lemma_gap_turns(problem, order, st, from, to - 1);
        let s = gap_fill(problem, order, st, from, to - 1);
        let now = gap_fill(problem, order, st, from, to);
        if now != s {
            assert(now.placements =~= s.placements.push(now.placements.last()));
            lemma_push(problem, s.placements, now.placements.last());
        }
    }
}

proof fn lemma_rows_turn(problem: Problem, order: Seq<usize>, st: Row, i: int)
    requires
        turned_as_allowed(problem, st.placements),
    ensures
        turned_as_allowed(problem, nfdh_run(problem, order, st, i).placements),
    decreases
            order.len() - i,
            (if row_fits(problem, st, order[i]) {
                0int
            } else {
                1int
            }),
{
    if i >= order.len() {
    } else if st.done[i] {
        lemma_rows_turn(problem, order, st, i + 1);
    } else if row_fits(problem, st, order[i]) {
        let now = row_put(problem, st, i, order[i]);
        assert(now.placements =~= st.placements.push(now.placements.last()));
        lemma_push(problem, st.placements, now.placements.last());
        lemma_rows_turn(problem, order, now, i + 1);
    } else {
        lemma_gap_turns(problem, order, st, i + 1, order.len() as int);
        let st2 = make_room(problem, order, st, i);
        if row_fits(problem, st2, order[i]) {
            lemma_rows_turn(problem, order, st2, i);
        }
    }
}

/// Filling rows turns no fixed piece.
pub proof fn law_rows_turn_as_allowed(problem: Problem)
    ensures
        turned_as_allowed(problem, nfdh_result(problem).placements),
{
    lemma_rows_turn(problem, by_height(problem), first_row(problem.pieces@.len()), 0);
}

/// A strip turns its copies only if they may be turned.
proof fn lemma_strips_turn(
    problem: Problem,
    types: Seq<crate::model::PieceType>,
    st: Pack,
    gene: GeneView,
    t: int,
    next: int,
)
    requires
        copies_of(problem, types),
        solid_pieces(problem),
        all_fit(problem),
        0 <= t < types.len(),
        copies(types, t as nat) <= next <= copies(types, (t + 1) as nat),
        problem.pieces@.len() < usize::MAX,
        turned_as_allowed(problem, st.placements),
    ensures
        turned_as_allowed(
            problem,
            strips(
                problem,
                st,
                gene,
                copies(types, t as nat) as int,
                next,
                copies(types, (t + 1) as nat) as int,
            ).placements,
        ),
    decreases copies(types, (t + 1) as nat) - next,
{
    let start = copies(types, t as nat) as int;
    let end = copies(types, (t + 1) as nat) as int;
    crate::expand::lemma_copies_grow(types, (t + 1) as nat, types.len());
    if next < end {
        let piece = problem.pieces@[next];
        let selector = gene.selectors[next - start];
        lemma_selected(st.free, piece, gene.rotate, selector);
        assert(fits_sheet(problem, next));
        lemma_fit_any(
            crate::model::sheet_cell(problem.sheet, 0),
            crate::model::sheet_cell(problem.sheet, st.sheets),
            piece,
            false,
            gene.rotate,
        );
        let (st1, spot) = strip_spot(problem, st, piece, gene.rotate, selector);
        let (st2, next2) = strip_step(problem, st, gene, start, next, end);
        assert(problem.pieces[next].solid());
        let fr = st1.free[spot.0];
        assert(fr.w as int / spot.1 as int >= 0 && fr.h as int / spot.2 as int >= 0) by {
            vstd::arithmetic::div_mod::lemma_div_pos_is_pos(fr.w as int, spot.1 as int);
            vstd::arithmetic::div_mod::lemma_div_pos_is_pos(fr.h as int, spot.2 as int);
        }
        assert(0 <= next2 - next <= end - next);
        assert(of_type(types, t, next));
        let m = st.placements.len();
        assert forall|i: int| 0 <= i < st2.placements.len() && (
        #[trigger] st2.placements[i]).rotated implies problem.pieces@[st2.placements[i].piece_idx as int].can_rotate by {
            if i < m {
                assert(st2.placements[i] == st.placements[i]);
            } else {
                assert(st2.placements[i].piece_idx == next + (i - m));
                assert(of_type(types, t, next + (i - m)));
            }
        }
        if next2 > next {
            lemma_strips_turn(problem, types, st2, gene, t, next2);
        }
    }
}

proof fn lemma_strip_genes_turn(
    problem: Problem,
    types: Seq<crate::model::PieceType>,
    genes: Seq<GeneView>,
    k: nat,
)
    requires
        copies_of(problem, types),
        genes_ok(types, genes),
        solid_pieces(problem),
        all_fit(problem),
        problem.pieces@.len() < usize::MAX,
        k <= genes.len(),
    ensures
        ({
            let d = crate::gslas::decoder::decoded(problem, types, genes, k);
            &&& turned_as_allowed(problem, d.pack.placements)
            &&& d.next.len() == types.len()
            &&& forall|t: int|
                0 <= t < types.len() ==> copies(types, t as nat) <= #[trigger] d.next[t]
                    <= copies(types, (t + 1) as nat)
        }),
    decreases k,
{
    if k > 0 {
        lemma_strip_genes_turn(problem, types, genes, (k - 1) as nat);
        let d = crate::gslas::decoder::decoded(problem, types, genes, (k - 1) as nat);
        let gene = genes[k - 1];
        let t = gene.type_idx as int;
        assert(copies(types, t as nat) <= d.next[t]);
        lemma_strips_turn(problem, types, d.pack, gene, t, d.next[t]);
    }
}

/// Decoding genes of piece types strip by strip turns no fixed piece.
pub proof fn law_strip_genes_turn_as_allowed(
    problem: Problem,
    types: Seq<crate::model::PieceType>,
    genes: Seq<GeneView>,
    k: nat,
)
    requires
        copies_of(problem, types),
        genes_ok(types, genes),
        solid_pieces(problem),
        all_fit(problem),
        problem.pieces@.len() < usize::MAX,
        k <= genes.len(),
    ensures
        turned_as_allowed(
            problem,
            crate::gslas::decoder::decoded(problem, types, genes, k).pack.placements,
        ),
{
    lemma_strip_genes_turn(problem, types, genes, k);
}

proof fn lemma_groups_turn(problem: Problem, st: Pass)
    requires
        all_fit(problem),
        st.remaining.len() <= usize::MAX,
        forall|i: int|
            0 <= i < st.remaining.len() ==> (#[trigger] st.remaining[i]) < problem.pieces@.len(),
        turned_as_allowed(problem, st.pack.placements),
    ensures
        turned_as_allowed(problem, groupsub_run(problem, st).pack.placements),
    decreases st.remaining.len(),
{
    if st.remaining.len() > 0 {
        let head = st.remaining[0];
        let p = problem.pieces@[head as int];
        assert(head < problem.pieces@.len());
        assert(fits_sheet(problem, head as int));
        lemma_smallest_room(st.pack.free, p, st.pack.free.len());
        let (pack, fi) = head_room(problem, st.pack, head as int);
        let fr = pack.free[fi];
        assert(head_fits(p, fr));
        let rest = st.remaining.drop_first();
        let block = densest(problem, fr, head as int, rest)->0;
        assert(shape(problem, fr, head as int, rest, true, false) is Some || shape(
            problem,
            fr,
            head as int,
            rest,
            true,
            true,
        ) is Some);
        assert(densest(problem, fr, head as int, rest) is Some);
        assert(Some(block) == shape(
            problem,
            fr,
            head as int,
            rest,
            block.vertical,
            block.rotated,
        ));
        let members = seq![(head, block.rotated)] + block.group;
        let (pw, ph) = (p.placed_w(block.rotated), p.placed_h(block.rotated));
        let strip = Strip {
            pieces: problem.pieces@,
            candidates: rest,
            cross_cap: if block.vertical {
                pw
            } else {
                ph
            },
            vertical: block.vertical,
        };
        let budget = (if block.vertical {
            fr.h - ph
        } else {
            fr.w - pw
        }) as u32;
        law_best_group(strip, budget);
        assert(block.group == strip.best(budget));
        assert forall|k: int| 0 <= k < members.len() implies {
            &&& (#[trigger] members[k]).0 < problem.pieces@.len()
            &&& members[k].1 ==> problem.pieces@[members[k].0 as int].can_rotate
        } by {
            if k > 0 {
                assert(members[k] == strip.best(budget)[k - 1]);
                let i = choose|i: int| 0 <= i < rest.len() && rest[i] == members[k].0;
                assert(rest[i] == st.remaining[i + 1]);
            }
        }
        let rank = MemberOrder { pieces: problem.pieces@, members, vertical: block.vertical };
        crate::sorting::lemma_order_exists(rank, members.len());
        let by = crate::sorting::order_of(rank, members.len());
        let ms = laid_order(problem, head, block);
        let next = groupsub_step(problem, st);
        let all = next.pack.placements;
        let m = st.pack.placements.len();
        assert forall|i: int| 0 <= i < all.len() && (#[trigger] all[i]).rotated
            implies problem.pieces@[all[i].piece_idx as int].can_rotate by {
            if i < m {
                assert(all[i] == st.pack.placements[i]);
            } else {
                assert(by[i - m] < members.len());
                assert(ms[i - m] == members[by[i - m] as int]);
                assert(all[i].piece_idx == ms[i - m].0 && all[i].rotated == ms[i - m].1);
            }
        }
        if next.remaining.len() < st.remaining.len() {
            lemma_without(st.remaining, ms);
            assert forall|i: int| 0 <= i < next.remaining.len() implies (
            #[trigger] next.remaining[i]) < problem.pieces@.len() by {
                assert(next.remaining == without(st.remaining, ms));
                assert(next.remaining.contains(next.remaining[i]));
                assert(st.remaining.contains(next.remaining[i]));
                let k = choose|k: int|
                    0 <= k < st.remaining.len() && st.remaining[k] == next.remaining[i];
                assert(st.remaining[k] < problem.pieces@.len());
            }
            lemma_groups_turn(problem, next);
        }
    }
}

/// Filling strips with groups turns no fixed piece.
pub proof fn law_groups_turn_as_allowed(problem: Problem, key: SortKey, dir: SortDir)
    requires
        all_fit(problem),
        crate::heuristic::jylanki::extended(problem),
        problem.pieces@.len() < usize::MAX,
    ensures
        turned_as_allowed(problem, groupsub_result(problem, key, dir).placements),
{
    reveal(groupsub_result);
    let o = PieceOrder { pieces: problem.pieces@, key, dir };
    let n = problem.pieces@.len();
    assert forall|i: int| 0 <= i < n implies #[trigger] o.ranks(i) by {
        assert(problem.pieces[i].width > 0 || problem.pieces[i].height > 0);
    }
    crate::sorting::lemma_order_exists(o, n);
    lemma_groups_turn(
        problem,
        Pass {
            pack: crate::packing::fresh(problem.sheet),
            remaining: keyed_order(problem, key, dir),
        },
    );
}

} // verus!
