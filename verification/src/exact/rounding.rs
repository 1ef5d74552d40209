//! What rounding a fractional solution takes over, and what a branch passes on.

use vstd::prelude::*;

use super::bpc::{
    any_covered, child_pool, has_type, rounding_of, take_over, taken, Pattern, Rounding,
    WeightOrder,
};
use super::pricing::Pricer;
use crate::model::{Placement, Problem};
use crate::sorting::{in_order, lemma_order_exists, order_of, precedes};

verus! {

/// The basic patterns are taken heaviest first, equally heavy ones in the order in which they are
/// given.
pub proof fn law_heaviest_patterns_first(basic: Seq<(usize, u64)>)
    requires
        basic.len() <= usize::MAX,
    ensures
        ({
            let order = order_of(WeightOrder { basic }, basic.len());
            &&& order.len() == basic.len()
            &&& forall|i: int| 0 <= i < order.len() ==> #[trigger] order[i] < basic.len()
            &&& forall|i: int, j: int|
                0 <= i < j < order.len() ==> {
                    let a = #[trigger] order[i];
                    let b = #[trigger] order[j];
                    basic[a as int].1 > basic[b as int].1 || (basic[a as int].1
                        == basic[b as int].1 && a < b)
                }
        }),
{
    let o = WeightOrder { basic };
    lemma_order_exists(o, basic.len());
    let order = order_of(o, basic.len());
    assert(in_order(o, basic.len(), order));
    assert forall|i: int, j: int| 0 <= i < j < order.len() implies ({
        let a = #[trigger] order[i];
        let b = #[trigger] order[j];
        basic[a as int].1 > basic[b as int].1 || (basic[a as int].1 == basic[b as int].1 && a < b)
    }) by {
        assert(precedes(o, order[i] as int, order[j] as int));
    }
}

/// From `a` to `b` a pattern is taken over, on a sheet of its own, unless one of its pieces is
/// there already.
pub open spec fn takes(a: Rounding, b: Rounding, p: Pattern) -> bool {
    let there = exists|i: int| 0 <= i < p.items@.len() && a.covered[(#[trigger] p.items@[i]) as int];
    &&& there ==> b == a
    &&& !there ==> {
        &&& b.sheets == a.sheets + 1
        &&& b.covered.len() == a.covered.len()
        &&& forall|i: int|
            0 <= i < a.covered.len() ==> (#[trigger] b.covered[i] <==> a.covered[i]
                || p.items@.contains(i as usize))
        &&& b.placements.len() == a.placements.len() + p.placements@.len()
        &&& forall|i: int|
            0 <= i < a.placements.len() ==> #[trigger] b.placements[i] == a.placements[i]
        &&& forall|i: int|
            0 <= i < p.placements@.len() ==> {
                let pl = #[trigger] b.placements[a.placements.len() + i];
                let from = p.placements@[i];
                &&& pl.sheet_idx == a.sheets as usize
                &&& pl.piece_idx == from.piece_idx
                &&& pl.x == from.x
                &&& pl.y == from.y
                &&& pl.rotated == from.rotated
            }
    }
}

/// Rounding begins with nothing and takes pattern after pattern over.
pub proof fn law_patterns_taken_one_by_one(
    patterns: Seq<Pattern>,
    basic: Seq<(usize, u64)>,
    order: Seq<usize>,
    n: nat,
    k: nat,
)
    ensures
        ({
            let a = taken(patterns, basic, order, n, k);
            let b = taken(patterns, basic, order, n, k + 1);
            let first = taken(patterns, basic, order, n, 0);
            &&& first.sheets == 0
            &&& first.placements.len() == 0
            &&& first.covered.len() == n
            &&& forall|i: int| 0 <= i < n ==> !#[trigger] first.covered[i]
            &&& takes(a, b, patterns[basic[order[k as int] as int].0 as int])
        }),
{
    let a = taken(patterns, basic, order, n, k);
    let b = taken(patterns, basic, order, n, k + 1);
    let p = patterns[basic[order[k as int] as int].0 as int];
    assert(b == take_over(a, p));
    if !any_covered(p.items@, a.covered) {
        assert forall|i: int| 0 <= i < p.placements@.len() implies ({
            let pl = #[trigger] b.placements[a.placements.len() + i];
            let from = p.placements@[i];
            &&& pl.sheet_idx == a.sheets as usize
            &&& pl.piece_idx == from.piece_idx
            &&& pl.x == from.x
            &&& pl.y == from.y
            &&& pl.rotated == from.rotated
        }) by {
            assert(b.placements[a.placements.len() + i] == super::bpc::put_on(
                p.placements@,
                a.sheets as int,
            )[i]);
        }
    }
}

/// What is covered stays covered.
proof fn lemma_stays_covered(
    patterns: Seq<Pattern>,
    basic: Seq<(usize, u64)>,
    order: Seq<usize>,
    n: nat,
    j: nat,
    k: nat,
)
    requires
        j <= k,
    ensures
        taken(patterns, basic, order, n, k).covered.len() == n,
        forall|i: int|
            0 <= i < n && #[trigger] taken(patterns, basic, order, n, j).covered[i] ==> taken(
                patterns,
                basic,
                order,
                n,
                k,
            ).covered[i],
    decreases k,
{
    if j < k {
        lemma_stays_covered(patterns, basic, order, n, j, (k - 1) as nat);
    } else if k > 0 {
        lemma_stays_covered(patterns, basic, order, n, (k - 1) as nat, (k - 1) as nat);
    }
}

/// Rounding leaves no basic pattern that could still be taken: of each, some piece is there.
pub proof fn law_no_pattern_left(
    problem: Problem,
    patterns: Seq<Pattern>,
    basic: Seq<(usize, u64)>,
    b: int,
)
    requires
        basic.len() <= usize::MAX,
        0 <= b < basic.len(),
        patterns[basic[b].0 as int].items@.len() > 0,
        forall|i: int|
            0 <= i < patterns[basic[b].0 as int].items@.len() ==> #[trigger] patterns[basic[b].0
                as int].items@[i] < problem.pieces@.len(),
    ensures
        exists|i: int|
            0 <= i < patterns[basic[b].0 as int].items@.len() && rounding_of(
                problem,
                patterns,
                basic,
            ).covered[(#[trigger] patterns[basic[b].0 as int].items@[i]) as int],
{
    let n = problem.pieces@.len();
    let o = WeightOrder { basic };
    lemma_order_exists(o, basic.len());
    let order = order_of(o, basic.len());
    crate::sorting::lemma_in_order_all(o, basic.len(), order, b as usize);
    let k = choose|k: int| 0 <= k < order.len() && order[k] == b;
    let p = patterns[basic[b].0 as int];
    let before = taken(patterns, basic, order, n, k as nat);
    let after = taken(patterns, basic, order, n, (k + 1) as nat);
    lemma_stays_covered(patterns, basic, order, n, k as nat, k as nat);
    lemma_stays_covered(patterns, basic, order, n, (k + 1) as nat, basic.len());
    if any_covered(p.items@, before.covered) {
        let i = choose|i: int| 0 <= i < p.items@.len() && before.covered[(
        #[trigger] p.items@[i]) as int];
        assert(after.covered[p.items@[i] as int]);
    } else {
        assert(p.items@[0] < n);
        assert(p.items@.contains(p.items@[0]));
        assert(after.covered[p.items@[0] as int]);
    }
}

/// What the pool of a child holds: each piece alone, and those other patterns of its parent that
/// agree with the branch: that have both types or neither where they are to go together, and not
/// both where they are to stay apart.
pub proof fn law_child_keeps_what_agrees(
    problem: Problem,
    pr: Pricer,
    patterns: Seq<Pattern>,
    t: int,
    u: int,
    together: bool,
    k: nat,
)
    requires
        problem.pieces@.len() <= k <= patterns.len(),
    ensures
        ({
            let n = problem.pieces@.len() as int;
            let pool = child_pool(problem, pr, patterns, t, u, together, k);
            &&& pool.len() >= n
            &&& forall|i: int|
                0 <= i < n ==> (#[trigger] pool[i]).0 == seq![i as usize] && pool[i].1 == seq![
                    super::bpc::alone(problem, i as usize),
                ]
            &&& forall|i: int|
                n <= i < pool.len() ==> #[trigger] from_parent(
                    pr,
                    patterns,
                    t,
                    u,
                    together,
                    n,
                    k as int,
                    pool[i],
                )
            &&& forall|j: int|
                n <= j < k && #[trigger] agrees(pr, patterns[j], t, u, together)
                    ==> pool.contains((patterns[j].items@, patterns[j].placements@))
        }),
    decreases k,
{
    let n = problem.pieces@.len() as int;
    let pool = child_pool(problem, pr, patterns, t, u, together, k);
    if k > n {
        let m = (k - 1) as nat;
        law_child_keeps_what_agrees(problem, pr, patterns, t, u, together, m);
        let rest = child_pool(problem, pr, patterns, t, u, together, m);
        let p = patterns[k - 1];
        assert forall|i: int| n <= i < pool.len() implies #[trigger] from_parent(
            pr,
            patterns,
            t,
            u,
            together,
            n,
            k as int,
            pool[i],
        ) by {
            if i < rest.len() {
                assert(pool[i] == rest[i]);
                assert(from_parent(pr, patterns, t, u, together, n, m as int, rest[i]));
                let j = choose|j: int|
                    n <= j < m && #[trigger] agrees(pr, patterns[j], t, u, together) && rest[i]
                        == (patterns[j].items@, patterns[j].placements@);
                assert(agrees(pr, patterns[j], t, u, together));
            } else {
                assert(agrees(pr, patterns[k - 1], t, u, together));
            }
        }
        assert forall|j: int|
            n <= j < k && #[trigger] agrees(pr, patterns[j], t, u, together) implies pool.contains(
            (patterns[j].items@, patterns[j].placements@),
        ) by {
            let v = (patterns[j].items@, patterns[j].placements@);
            if j < m {
                assert(rest.contains(v));
                let i = choose|i: int| 0 <= i < rest.len() && rest[i] == v;
                assert(pool[i] == v);
            } else {
                assert(pool[pool.len() - 1] == v);
            }
        }
        assert forall|i: int| 0 <= i < n implies (#[trigger] pool[i]).0 == seq![i as usize]
            && pool[i].1 == seq![super::bpc::alone(problem, i as usize)] by {
            assert(pool[i] == rest[i]);
        }
    }
}

/// The pattern agrees with a branch on two types.
pub open spec fn agrees(pr: Pricer, p: Pattern, t: int, u: int, together: bool) -> bool {
    if together {
        has_type(pr, p, t) <==> has_type(pr, p, u)
    } else {
        !has_type(pr, p, t) || !has_type(pr, p, u)
    }
}

/// What is passed on is a pattern of the parent that agrees.
pub open spec fn from_parent(
    pr: Pricer,
    patterns: Seq<Pattern>,
    t: int,
    u: int,
    together: bool,
    from: int,
    to: int,
    v: (Seq<usize>, Seq<Placement>),
) -> bool {
    exists|j: int|
        from <= j < to && #[trigger] agrees(pr, patterns[j], t, u, together) && v == (
            patterns[j].items@,
            patterns[j].placements@,
        )
}

} // verus!
