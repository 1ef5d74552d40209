//! Lower bounds on the number of sheets.

use vstd::multiset::Multiset;
use vstd::prelude::*;

use crate::exact::bpc::{area_sheets, frontier, piece_area, tree_ok, BpcNode, Tree};
use crate::exact::pricing::Pricer;
use crate::layout::{
    bottom_part, bounded, forest_ok, forest_slices, left_part, packed, right_part, slices,
    slicing_ok, top_part, Slicing,
};
use crate::model::{cells, sheet_cell, FreeRect, Piece, Placement, Problem, Sheet};
use crate::packing::{complete, placed_indices};
use crate::sorting::lemma_all_present;

verus! {

/// The sum of a number for each placed piece.
pub open spec fn sum_over(placements: Seq<Placement>, f: spec_fn(int) -> int) -> int
    decreases placements.len(),
{
    if placements.len() == 0 {
        0
    } else {
        sum_over(placements.drop_last(), f) + f(placements.last().piece_idx as int)
    }
}

/// The sum of a number for each of the first `n` pieces.
pub open spec fn sum_upto(f: spec_fn(int) -> int, n: nat) -> int
    decreases n,
{
    if n == 0 {
        0
    } else {
        sum_upto(f, (n - 1) as nat) + f(n - 1)
    }
}

/// `part` takes its placements from `whole`.
pub open spec fn taken_from(part: Seq<Placement>, whole: Seq<Placement>) -> bool {
    forall|i: int| 0 <= i < part.len() ==> whole.contains(#[trigger] part[i])
}

/// The rectangles of placed pieces are among those of a multiset.
pub open spec fn covered_by(
    pieces: Seq<Piece>,
    placements: Seq<Placement>,
    used: Multiset<FreeRect>,
) -> bool {
    cells(pieces, placements).to_multiset().subset_of(used)
}

/// One more placed piece is one more rectangle.
pub proof fn lemma_cells_push(pieces: Seq<Piece>, placements: Seq<Placement>, pl: Placement)
    ensures
        cells(pieces, placements.push(pl)).to_multiset() == cells(
            pieces,
            placements,
        ).to_multiset().insert(pl.cell(pieces)),
{
    let c = cells(pieces, placements);
    c.to_multiset_ensures();
    assert(cells(pieces, placements.push(pl)) =~= c.push(pl.cell(pieces)));
}

/// Placements on two sets of rectangles can be shared out between them.
pub proof fn lemma_share(
    pieces: Seq<Piece>,
    placements: Seq<Placement>,
    a: Multiset<FreeRect>,
    b: Multiset<FreeRect>,
) -> (r: (Seq<Placement>, Seq<Placement>))
    requires
        covered_by(pieces, placements, a.add(b)),
        placed_indices(placements).no_duplicates(),
    ensures
        covered_by(pieces, r.0, a),
        covered_by(pieces, r.1, b),
        taken_from(r.0, placements),
        taken_from(r.1, placements),
        placed_indices(r.0).no_duplicates(),
        placed_indices(r.1).no_duplicates(),
        cells(pieces, r.0).to_multiset().add(cells(pieces, r.1).to_multiset()) == cells(
            pieces,
            placements,
        ).to_multiset(),
        r.0.len() + r.1.len() == placements.len(),
        forall|f: spec_fn(int) -> int| #[trigger]
            sum_over(placements, f) == sum_over(r.0, f) + sum_over(r.1, f),
    decreases placements.len(),
{
    if placements.len() == 0 {
        assert(cells(pieces, placements) =~= Seq::empty());
        Seq::<FreeRect>::empty().to_multiset_ensures();
        let none = cells(pieces, placements).to_multiset();
        assert(none.add(none) =~= none);
        (placements, placements)
    } else {
        let rest = placements.drop_last();
        let pl = placements.last();
        let x = pl.cell(pieces);
        assert(rest.push(pl) =~= placements);
        lemma_cells_push(pieces, rest, pl);
        let mine = cells(pieces, rest).to_multiset();
        assert forall|v: FreeRect| mine.count(v) <= a.add(b).count(v) by {
            assert(mine.insert(x).count(v) <= a.add(b).count(v));
        }
        assert forall|i: int, j: int|
            0 <= i < j < rest.len() implies placed_indices(rest)[i] != placed_indices(rest)[j] by {
            assert(placed_indices(placements)[i] != placed_indices(placements)[j]);
        }
        let (p, q) = lemma_share(pieces, rest, a, b);
        let (mp, mq) = (cells(pieces, p).to_multiset(), cells(pieces, q).to_multiset());
        assert(mp.add(mq).count(x) == mine.count(x));
        assert(mine.insert(x).count(x) <= a.add(b).count(x));
        let to_first = mp.count(x) < a.count(x);
        let side = if to_first {
            p
        } else {
            q
        };
        let longer = side.push(pl);
        lemma_cells_push(pieces, side, pl);
        let bound = if to_first {
            a
        } else {
            b
        };
        let ms = cells(pieces, side).to_multiset();
        assert forall|v: FreeRect| ms.insert(x).count(v) <= bound.count(v) by {
            assert(ms.count(v) <= bound.count(v));
        }
        assert(taken_from(longer, placements)) by {
            assert forall|i: int| 0 <= i < longer.len() implies placements.contains(
                #[trigger] longer[i],
            ) by {
                if i < side.len() {
                    assert(rest.contains(side[i]));
                    let k = choose|k: int| 0 <= k < rest.len() && rest[k] == side[i];
                    assert(placements[k] == side[i]);
                } else {
                    assert(placements[placements.len() - 1] == pl);
                }
            }
        }
        assert(taken_from(p, placements) && taken_from(q, placements)) by {
            assert forall|i: int| 0 <= i < p.len() implies placements.contains(
                #[trigger] p[i],
            ) by {
                assert(rest.contains(p[i]));
                let k = choose|k: int| 0 <= k < rest.len() && rest[k] == p[i];
                assert(placements[k] == p[i]);
            }
            assert forall|i: int| 0 <= i < q.len() implies placements.contains(
                #[trigger] q[i],
            ) by {
                assert(rest.contains(q[i]));
                let k = choose|k: int| 0 <= k < rest.len() && rest[k] == q[i];
                assert(placements[k] == q[i]);
            }
        }
        assert(placed_indices(longer).no_duplicates()) by {
            let ids = placed_indices(longer);
            assert forall|i: int, j: int| 0 <= i < j < ids.len() implies ids[i] != ids[j] by {
                if j < side.len() {
                    assert(placed_indices(side)[i] != placed_indices(side)[j]);
                } else {
                    assert(rest.contains(side[i]));
                    let k = choose|k: int| 0 <= k < rest.len() && rest[k] == side[i];
                    assert(placed_indices(placements)[k] != placed_indices(
                        placements,
                    )[placements.len() - 1]);
                }
            }
        }
        assert(longer.drop_last() =~= side);
        if to_first {
            assert(mp.insert(x).add(mq) =~= mine.insert(x));
        } else {
            assert(mp.add(mq.insert(x)) =~= mine.insert(x));
        }
        assert forall|f: spec_fn(int) -> int| #[trigger]
            sum_over(placements, f) == sum_over(p, f) + sum_over(q, f) + f(
                pl.piece_idx as int,
            ) by {
            assert(sum_over(rest, f) == sum_over(p, f) + sum_over(q, f));
        }
        assert forall|f: spec_fn(int) -> int| #[trigger]
            sum_over(longer, f) == sum_over(side, f) + f(pl.piece_idx as int) by {}
        if to_first {
            (longer, q)
        } else {
            (p, longer)
        }
    }
}

/// The area of a piece.
pub open spec fn area_weight(pieces: Seq<Piece>) -> spec_fn(int) -> int {
    |i: int| pieces[i].width * pieces[i].height
}

/// A single rectangle has room for one placement, of its own size.
pub proof fn lemma_one_cell(pieces: Seq<Piece>, placements: Seq<Placement>, c: FreeRect)
    requires
        covered_by(pieces, placements, Multiset::singleton(c)),
    ensures
        placements.len() <= 1,
        placements.len() == 1 ==> placements[0].cell(pieces) == c,
{
    let list = cells(pieces, placements);
    list.to_multiset_ensures();
    let m = list.to_multiset();
    if placements.len() > 0 {
        assert(list.contains(list[0]));
        assert(m.count(list[0]) <= Multiset::singleton(c).count(list[0]));
        assert(list[0] == c);
    }
    if placements.len() > 1 {
        let rest = placements.drop_last();
        let pl = placements.last();
        assert(rest.push(pl) =~= placements);
        lemma_cells_push(pieces, rest, pl);
        let x = cells(pieces, rest)[0];
        assert(x == c);
        cells(pieces, rest).to_multiset_ensures();
        assert(cells(pieces, rest).contains(x));
        assert(list.contains(list[placements.len() - 1]));
        assert(m.count(list[placements.len() - 1]) <= Multiset::singleton(c).count(
            list[placements.len() - 1],
        ));
        assert(m.count(c) >= 2);
        assert(m.count(c) <= Multiset::singleton(c).count(c));
    }
}

/// Pieces cut from a rectangle have no more area than it.
proof fn lemma_cut_area(pieces: Seq<Piece>, placements: Seq<Placement>, t: Slicing, c: FreeRect)
    requires
        slicing_ok(t, c),
        bounded(c),
        covered_by(pieces, placements, slices(t, c)),
        placed_indices(placements).no_duplicates(),
    ensures
        sum_over(placements, area_weight(pieces)) <= c.w * c.h,
    decreases t,
{
    let f = area_weight(pieces);
    let (w, h) = (c.w as int, c.h as int);
    match t {
        Slicing::Whole => {
            lemma_one_cell(pieces, placements, c);
            assert(0 <= w * h) by (nonlinear_arith)
                requires
                    0 <= w,
                    0 <= h,
            ;
            if placements.len() == 1 {
                let pl = placements[0];
                let p = pieces[pl.piece_idx as int];
                reveal_with_fuel(sum_over, 2);
                assert(placements.drop_last().len() == 0);
                assert(p.width * p.height == p.height * p.width) by (nonlinear_arith);
            }
        },
        Slicing::Stacked { at, top, bottom } => {
            let (p, q) = lemma_share(
                pieces,
                placements,
                slices(*top, top_part(c, at)),
                slices(*bottom, bottom_part(c, at)),
            );
            lemma_cut_area(pieces, p, *top, top_part(c, at));
            lemma_cut_area(pieces, q, *bottom, bottom_part(c, at));
            assert(sum_over(placements, f) == sum_over(p, f) + sum_over(q, f));
            assert(w * at + w * (h - at) == w * h) by (nonlinear_arith);
        },
        Slicing::Beside { at, left, right } => {
            let (p, q) = lemma_share(
                pieces,
                placements,
                slices(*left, left_part(c, at)),
                slices(*right, right_part(c, at)),
            );
            lemma_cut_area(pieces, p, *left, left_part(c, at));
            lemma_cut_area(pieces, q, *right, right_part(c, at));
            assert(sum_over(placements, f) == sum_over(p, f) + sum_over(q, f));
            assert(at * h + (w - at) * h == w * h) by (nonlinear_arith);
        },
    }
}

/// Pieces cut from sheets have no more area than these.
proof fn lemma_forest_area(
    pieces: Seq<Piece>,
    placements: Seq<Placement>,
    f: Seq<Slicing>,
    sheet: Sheet,
)
    requires
        forest_ok(f, sheet),
        covered_by(pieces, placements, forest_slices(f, sheet)),
        placed_indices(placements).no_duplicates(),
    ensures
        sum_over(placements, area_weight(pieces)) <= f.len() * (sheet.width * sheet.height),
    decreases f.len(),
{
    let one = sheet.width * sheet.height;
    let weight = area_weight(pieces);
    if f.len() == 0 {
        let list = cells(pieces, placements);
        list.to_multiset_ensures();
        if placements.len() > 0 {
            assert(list.contains(list[0]));
            assert(list.to_multiset().count(list[0]) <= Multiset::<FreeRect>::empty().count(
                list[0],
            ));
        }
    } else {
        let last = sheet_cell(sheet, f.len() - 1);
        let rest = f.drop_last();
        let (p, q) = lemma_share(
            pieces,
            placements,
            forest_slices(rest, sheet),
            slices(f.last(), last),
        );
        assert forall|s: int| 0 <= s < rest.len() implies slicing_ok(
            #[trigger] rest[s],
            sheet_cell(sheet, s),
        ) by {
            assert(slicing_ok(f[s], sheet_cell(sheet, s)));
        }
        lemma_forest_area(pieces, p, rest, sheet);
        assert(slicing_ok(f[f.len() - 1], last));
        lemma_cut_area(pieces, q, f.last(), last);
        assert(sum_over(placements, weight) == sum_over(p, weight) + sum_over(q, weight));
        let n = f.len() as int;
        assert((n - 1) * one + one == n * one) by (nonlinear_arith);
    }
}

/// What is left of placements without one of them.
proof fn lemma_sum_remove(placements: Seq<Placement>, f: spec_fn(int) -> int, j: int)
    requires
        0 <= j < placements.len(),
    ensures
        sum_over(placements, f) == sum_over(placements.remove(j), f) + f(
            placements[j].piece_idx as int,
        ),
    decreases placements.len(),
{
    if j < placements.len() - 1 {
        lemma_sum_remove(placements.drop_last(), f, j);
        assert(placements.remove(j).drop_last() =~= placements.drop_last().remove(j));
    } else {
        assert(placements.remove(j) =~= placements.drop_last());
    }
}

/// The sum over placements that hold each of `n` pieces once is the sum over the pieces.
pub proof fn lemma_sum_all(placements: Seq<Placement>, f: spec_fn(int) -> int, n: nat)
    requires
        placements.len() == n,
        n <= usize::MAX,
        placed_indices(placements).no_duplicates(),
        forall|i: int| 0 <= i < placements.len() ==> (#[trigger] placements[i]).piece_idx < n,
    ensures
        sum_over(placements, f) == sum_upto(f, n),
    decreases n,
{
    if n > 0 {
        let ids = placed_indices(placements);
        assert forall|i: int| 0 <= i < ids.len() implies (#[trigger] ids[i]) < n by {
            assert(placements[i].piece_idx < n);
        }
        lemma_all_present(ids, n, (n - 1) as usize);
        let j = choose|j: int| 0 <= j < ids.len() && ids[j] == n - 1;
        let rest = placements.remove(j);
        lemma_sum_remove(placements, f, j);
        assert forall|i: int| 0 <= i < rest.len() implies (#[trigger] rest[i]).piece_idx < n - 1 by {
            let k = if i < j {
                i
            } else {
                i + 1
            };
            assert(rest[i] == placements[k]);
            assert(ids[k] != ids[j]);
            assert(ids[k] < n);
        }
        assert forall|a: int, b: int|
            0 <= a < b < rest.len() implies placed_indices(rest)[a] != placed_indices(rest)[b] by {
            let x = if a < j {
                a
            } else {
                a + 1
            };
            let y = if b < j {
                b
            } else {
                b + 1
            };
            assert(ids[x] != ids[y]);
        }
        lemma_sum_all(rest, f, (n - 1) as nat);
    }
}

proof fn lemma_piece_area(pieces: Seq<Piece>, k: nat)
    ensures
        piece_area(pieces, k) == sum_upto(area_weight(pieces), k),
    decreases k,
{
    if k > 0 {
        lemma_piece_area(pieces, (k - 1) as nat);
    }
}

/// No cutting of all pieces takes fewer sheets than their area says.
pub proof fn law_area_bound(problem: Problem, placements: Seq<Placement>, n: nat)
    requires
        problem.pieces@.len() <= usize::MAX,
        complete(problem, placements),
        packed(problem.sheet, n, cells(problem.pieces@, placements).to_multiset()),
    ensures
        piece_area(problem.pieces@, problem.pieces@.len()) <= n * (problem.sheet.width
            * problem.sheet.height),
        area_sheets(problem) <= n,
{
    let pieces = problem.pieces@;
    let used = cells(pieces, placements).to_multiset();
    let f = choose|f: Seq<Slicing>|
        f.len() == n && #[trigger] forest_ok(f, problem.sheet) && used.subset_of(
            forest_slices(f, problem.sheet),
        );
    lemma_forest_area(pieces, placements, f, problem.sheet);
    lemma_sum_all(placements, area_weight(pieces), pieces.len());
    lemma_piece_area(pieces, pieces.len());
    let area = piece_area(pieces, pieces.len());
    let one = problem.sheet.width * problem.sheet.height;
    assert(0 <= one) by (nonlinear_arith)
        requires
            one == problem.sheet.width * problem.sheet.height,
            0 <= problem.sheet.width,
            0 <= problem.sheet.height,
    ;
    if one > 0 {
        let top = area + one - 1;
        assert(top / one <= n) by (nonlinear_arith)
            requires
                top <= n * one + one - 1,
                one > 0,
        ;
    }
}

/// The least lower bound of waiting nodes is that of one of them.
pub(crate) proof fn lemma_frontier(open: Seq<BpcNode>, fallback: usize)
    requires
        open.len() > 0,
    ensures
        exists|i: int|
            0 <= i < open.len() && (#[trigger] open[i]).pending_lb == frontier(open, fallback),
        forall|i: int|
            0 <= i < open.len() ==> frontier(open, fallback) <= (#[trigger] open[i]).pending_lb,
    decreases open.len(),
{
    if open.len() > 1 {
        let d = open.drop_last();
        lemma_frontier(d, fallback);
        let k = choose|k: int|
            0 <= k < d.len() && (#[trigger] d[k]).pending_lb == frontier(d, fallback);
        let n = open.len() - 1;
        assert(open[k] == d[k]);
        assert(open[n] == open.last());
        assert forall|i: int| 0 <= i < open.len() implies frontier(open, fallback) <= (
        #[trigger] open[i]).pending_lb by {
            if i < n {
                assert(d[i].pending_lb >= frontier(d, fallback));
            }
        }
        if frontier(open, fallback) == open[k].pending_lb {
            assert(open[k].pending_lb == frontier(open, fallback));
        } else {
            assert(open[n].pending_lb == frontier(open, fallback));
        }
    } else {
        assert(open[0].pending_lb == frontier(open, fallback));
    }
}

/// Every lower bound that a search reports is no more than the number of sheets of the best
/// solution that it has.
pub proof fn law_bounds_in_order(tree: Tree, node: BpcNode)
    ensures
        tree.lower_bound() <= tree.global_ub,
        tree.bound_with(node) <= tree.global_ub,
        tree.finished().in_order(),
{
}

/// The bound by area is never above the number of sheets of the best solution.
pub proof fn law_area_bound_in_order(problem: Problem, pr: Pricer, tree: Tree)
    requires
        problem.pieces@.len() <= usize::MAX,
        tree_ok(problem, pr, tree),
        tree.lb0 == area_sheets(problem),
    ensures
        tree.lb0 <= tree.global_ub,
{
    law_area_bound(problem, tree.best.placements@, tree.global_ub as nat);
}

/// A search that is over before it begins has an optimal solution.
pub proof fn law_closed_is_optimal(
    problem: Problem,
    tree: Tree,
    placements: Seq<Placement>,
    n: nat,
)
    requires
        problem.pieces@.len() <= usize::MAX,
        tree.lb0 == area_sheets(problem),
        tree.lb0 >= tree.global_ub,
        complete(problem, placements),
        packed(problem.sheet, n, cells(problem.pieces@, placements).to_multiset()),
    ensures
        tree.global_ub <= n,
{
    law_area_bound(problem, placements, n);
}

} // verus!
