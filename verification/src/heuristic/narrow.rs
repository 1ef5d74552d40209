//! A beam of one state, beside best-area-fit packing.

use vstd::prelude::*;

use super::beam::{
    all_successors, beam_state, keep_best, largest_on, state_leq, stranded, successors, StateOrder,
};
use super::common::{PieceOrder, SortDir, SortKey};
use super::gbaf::{
    all_fit, best_place, by_area, gbaf_state, gbaf_step, largest, lemma_best_place,
    lemma_gbaf_state, roomy_direction,
};
use crate::model::{FreeRect, Problem};
use crate::packing::{coherent, placed, split_parts, Pack};
use crate::slas::decoder::{fits_sheet, slas_direction};
use crate::sorting::{lemma_order_exists, order_of, precedes, Order};

verus! {

proof fn lemma_stranded_concat(a: Seq<FreeRect>, b: Seq<FreeRect>, last: int)
    ensures
        stranded(a + b, last) == stranded(a, last) + stranded(b, last),
    decreases b.len(),
{
    if b.len() == 0 {
        assert(a + b =~= a);
    } else {
        lemma_stranded_concat(a, b.drop_last(), last);
        assert((a + b).drop_last() =~= a + b.drop_last());
    }
}

proof fn lemma_largest_concat(a: Seq<FreeRect>, b: Seq<FreeRect>, last: int)
    ensures
        largest_on(a, last) >= 0,
        largest_on(a + b, last) == if largest_on(b, last) > largest_on(a, last) {
            largest_on(b, last)
        } else {
            largest_on(a, last)
        },
    decreases a.len() + b.len(),
{
    if b.len() == 0 {
        assert(a + b =~= a);
        if a.len() > 0 {
            lemma_largest_concat(a.drop_last(), b, last);
        }
    } else {
        lemma_largest_concat(a, b.drop_last(), last);
        assert((a + b).drop_last() =~= a + b.drop_last());
    }
}

/// What the leftovers of a cut add to the measures of a state.
proof fn lemma_parts(fr: FreeRect, pw: u32, ph: u32, horizontal: bool, last: int)
    requires
        pw <= fr.w,
        ph <= fr.h,
    ensures
        stranded(split_parts(fr, pw, ph, horizontal), last) == if fr.sheet_idx < last {
            fr.area() - pw * ph
        } else {
            0
        },
        largest_on(split_parts(fr, pw, ph, horizontal), last) == if fr.sheet_idx == last {
            largest(split_parts(fr, pw, ph, horizontal))
        } else {
            0
        },
{
    let parts = split_parts(fr, pw, ph, horizontal);
    reveal_with_fuel(stranded, 3);
    reveal_with_fuel(largest_on, 3);
    let (w, h, a, b) = (fr.w as int, fr.h as int, pw as int, ph as int);
    if horizontal {
        assert(a * b + (w - a) * b + w * (h - b) == w * h) by (nonlinear_arith);
        assert(w == a ==> (w - a) * b == 0) by (nonlinear_arith);
        assert(h == b ==> w * (h - b) == 0) by (nonlinear_arith);
    } else {
        assert(a * b + (w - a) * h + a * (h - b) == w * h) by (nonlinear_arith);
        assert(w == a ==> (w - a) * h == 0) by (nonlinear_arith);
        assert(h == b ==> a * (h - b) == 0) by (nonlinear_arith);
    }
    assert forall|i: int| 0 <= i < parts.len() implies (#[trigger] parts[i]).area() >= 0 by {
        let c = parts[i];
        assert(c.w * c.h >= 0) by (nonlinear_arith)
            requires
                c.w >= 0,
                c.h >= 0,
        ;
    }
    if parts.len() > 0 {
        let d = parts.drop_last();
        assert(parts.last() == parts[parts.len() - 1]);
        if d.len() > 0 {
            assert(d.last() == parts[0]);
            assert(d.drop_last() =~= Seq::empty());
        }
    }
}

/// The first of two states is kept unless the second ranks before it.
proof fn lemma_keep_one(a: Pack, b: Pack)
    ensures
        keep_best(seq![a], 1) == seq![a],
        keep_best(seq![a, b], 1) == seq![if state_leq(a, b) {
            a
        } else {
            b
        }],
{
    let one = StateOrder { states: seq![a] };
    lemma_order_exists(one, 1);
    assert(order_of(one, 1)[0] < 1);
    assert(keep_best(seq![a], 1) =~= seq![a]);
    let two = StateOrder { states: seq![a, b] };
    lemma_order_exists(two, 2);
    let s = order_of(two, 2);
    assert(s[0] < 2 && s[1] < 2);
    assert(precedes(two, s[0] as int, s[1] as int));
    two.leq_total(0, 1);
    assert(two.leq(0, 1) == state_leq(a, b));
    assert(two.leq(1, 0) == state_leq(b, a));
    assert(keep_best(seq![a, b], 1) =~= seq![if state_leq(a, b) {
        a
    } else {
        b
    }]);
}

/// The roomier cut does not rank behind the other.
proof fn lemma_roomy_ranks(st: Pack, idx: int, i: usize, pw: u32, ph: u32, turned: bool)
    requires
        0 <= idx < st.free.len(),
        pw <= st.free[idx].w,
        ph <= st.free[idx].h,
    ensures
        ({
            let dir = roomy_direction(st.free[idx], pw, ph);
            state_leq(
                placed(st, idx, i, pw, ph, turned, dir),
                placed(st, idx, i, pw, ph, turned, !dir),
            )
        }),
{
    let fr = st.free[idx];
    let last = st.sheets - 1;
    let dir = roomy_direction(fr, pw, ph);
    let (p0, p1) = (split_parts(fr, pw, ph, dir), split_parts(fr, pw, ph, !dir));
    let base = st.free.remove(idx);
    assert(largest(p0) >= largest(p1)) by {
        assert(slas_direction(fr, pw, ph, true) == !slas_direction(fr, pw, ph, false));
    }
    lemma_parts(fr, pw, ph, dir, last);
    lemma_parts(fr, pw, ph, !dir, last);
    lemma_stranded_concat(base, p0, last);
    lemma_stranded_concat(base, p1, last);
    lemma_largest_concat(base, p0, last);
    lemma_largest_concat(base, p1, last);
}

/// One step of a beam of one state.
proof fn lemma_one_step(problem: Problem, st: Pack, i: usize)
    requires
        coherent(problem, st),
        st.sheets <= usize::MAX,
        i < problem.pieces.len(),
        fits_sheet(problem, i as int),
    ensures
        keep_best(successors(problem, st, i, true), 1) == seq![gbaf_step(problem, st, i)],
{
    lemma_best_place(problem, st, i as int);
    let (st2, spot) = best_place(problem, st, i as int);
    let (pw, ph) = (spot.1, spot.2);
    let dir = roomy_direction(st2.free[spot.0], pw, ph);
    lemma_roomy_ranks(st2, spot.0, i, pw, ph, spot.3);
    lemma_keep_one(
        placed(st2, spot.0, i, pw, ph, spot.3, dir),
        placed(st2, spot.0, i, pw, ph, spot.3, !dir),
    );
}

proof fn lemma_beam_of_one(problem: Problem, order: Seq<usize>, k: nat)
    requires
        all_fit(problem),
        k <= order.len() <= usize::MAX,
        forall|i: int| 0 <= i < order.len() ==> #[trigger] order[i] < problem.pieces.len(),
    ensures
        beam_state(problem, order, 1, k) == seq![gbaf_state(problem, order, k)],
    decreases k,
{
    if k > 0 {
        let m = (k - 1) as nat;
        lemma_beam_of_one(problem, order, m);
        lemma_gbaf_state(problem, order, m);
        let st = gbaf_state(problem, order, m);
        let i = order[m as int];
        assert(fits_sheet(problem, i as int));
        lemma_one_step(problem, st, i);
        let beam = beam_state(problem, order, 1, m);
        assert(all_successors(problem, beam, i, true, 0) =~= Seq::empty());
        assert(all_successors(problem, beam, i, true, 1) =~= successors(problem, st, i, true));
    }
}

/// A beam of one state packs the pieces as best-area-fit packing does.
pub proof fn law_beam_of_one(problem: Problem)
    requires
        all_fit(problem),
        problem.pieces@.len() <= usize::MAX,
    ensures
        beam_state(problem, by_area(problem), 1, problem.pieces@.len()) == seq![
            gbaf_state(problem, by_area(problem), problem.pieces@.len()),
        ],
{
    let n = problem.pieces@.len();
    let rank = PieceOrder { pieces: problem.pieces@, key: SortKey::Area, dir: SortDir::Desc };
    lemma_order_exists(rank, n);
    lemma_beam_of_one(problem, by_area(problem), n);
}

} // verus!
