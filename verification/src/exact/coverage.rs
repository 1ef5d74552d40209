//! Why the end of the search proves the best solution optimal: at every step, a cutting on fewer
//! sheets than the best solution would be found below some node that waits.

use vstd::prelude::*;

use super::bpc::{
    branched, converges, frontier, is_branch_pair, least, lemma_about_more, node_ok, planted,
    single_pair, splits_into, tree_ok, BpcNode, Tree,
};
use super::duality::{
    admits, has_kind, housed, kind_of, kind_on, law_rounded_bound_holds, lemma_housed_cutting,
    priced_out, worth_of,
};
use super::pricing::Pricer;
use crate::bounds::{law_area_bound, lemma_frontier, sum_upto};
use crate::layout::packed;
use crate::model::{cells, Placement, Problem};
use crate::packing::{complete, placed_indices};
use crate::turning::turned_as_allowed;

verus! {

/// Work on one node of the tree.
pub struct Visit {
    /// The node as it was taken.
    pub node: BpcNode,
    /// The column generation came to its end; else the node was given up.
    pub converged: bool,
    /// The node with the patterns that were found.
    pub grown: BpcNode,
    /// The dual values at the end.
    pub mu: Seq<u64>,
    /// The value of the linear program at the end.
    pub z: u64,
    /// The basic patterns and their weights at the end.
    pub basic: Seq<(usize, u64)>,
}

/// Column generation at a node is at its end: pricing finds nothing more under the constraints
/// of the node, and the value is no more than what the dual values that count add up to.
pub open spec fn is_done(problem: Problem, pr: Pricer, v: Visit) -> bool {
    &&& v.grown.constraints == v.node.constraints
    &&& v.mu.len() == problem.pieces@.len()
    &&& priced_out(pr, v.mu, v.grown.constraints)
    &&& v.z <= sum_upto(worth_of(v.mu), v.mu.len())
}

/// A visit leads from one tree to the next.
pub open spec fn visited(
    problem: Problem,
    pr: Pricer,
    before: Tree,
    after: Tree,
    v: Visit,
) -> bool {
    exists|mid: Tree| #[trigger]
        before.takes(mid, v.node) && if v.converged {
            &&& is_done(problem, pr, v)
            &&& converges(problem, pr, mid, after, v.grown, v.z, v.basic)
            &&& tree_ok(problem, pr, after)
        } else {
            after == mid.gives_up()
        }
}

/// The visits of a run lead from the planted tree to `tree`.
pub open spec fn reached(problem: Problem, pr: Pricer, run: Seq<Visit>, tree: Tree) -> bool
    decreases run.len(),
{
    if run.len() == 0 {
        planted(problem, tree) && tree_ok(problem, pr, tree)
    } else {
        exists|before: Tree|
            reached(problem, pr, run.drop_last(), before) && #[trigger] visited(
                problem,
                pr,
                before,
                tree,
                run.last(),
            )
    }
}

/// The pricer is that of the problem.
pub open spec fn priced_by(problem: Problem, pr: Pricer) -> bool {
    &&& pr.wf()
    &&& pr.pieces@ == problem.pieces@
    &&& pr.sheet_w == problem.sheet.width
    &&& pr.sheet_h == problem.sheet.height
    &&& pr.ptypes@.len() <= usize::MAX
    &&& problem.pieces@.len() <= usize::MAX
}

/// A cutting of all pieces from `n` sheets.
pub open spec fn is_cutting(problem: Problem, placements: Seq<Placement>, n: nat) -> bool {
    &&& complete(problem, placements)
    &&& turned_as_allowed(problem, placements)
    &&& packed(problem.sheet, n, cells(problem.pieces@, placements).to_multiset())
}

/// The cutting can be found below a waiting node.
spec fn waits(pr: Pricer, tree: Tree, placements: Seq<Placement>) -> bool {
    exists|i: int|
        0 <= i < tree.open@.len() && admits(pr, (#[trigger] tree.open@[i]).constraints, placements)
}

/// The bounds of the waiting nodes hold for the cutting, where it can be found below them.
spec fn bounded_below(pr: Pricer, open: Seq<BpcNode>, placements: Seq<Placement>, n: nat) -> bool {
    forall|i: int|
        0 <= i < open.len() && admits(pr, (#[trigger] open[i]).constraints, placements)
            ==> open[i].pending_lb <= n
}

/// The cutting is no better than the best solution, or waits, or part of the tree was left out.
spec fn accounted_for(
    problem: Problem,
    pr: Pricer,
    tree: Tree,
    placements: Seq<Placement>,
    n: nat,
) -> bool {
    &&& tree.lb0 <= n
    &&& forall|i: int|
        0 <= i < tree.open@.len() ==> (#[trigger] tree.open@[i]).constraints.about(
            pr.ptypes@.len(),
        )
    &&& bounded_below(pr, tree.open@, placements, n)
    &&& tree.incomplete || tree.global_ub <= n || waits(pr, tree, placements)
}

/// A piece of a type with one copy is on one sheet only.
proof fn lemma_one_sheet(
    pr: Pricer,
    placements: Seq<Placement>,
    t: int,
    r: usize,
    s: usize,
)
    requires
        pr.wf(),
        housed(pr, placements),
        placed_indices(placements).no_duplicates(),
        0 <= t < pr.ptypes@.len(),
        pr.ptypes@[t].copies@.len() <= 1,
        kind_on(pr, placements, t, r),
        kind_on(pr, placements, t, s),
    ensures
        r == s,
{
    let i = choose|i: int|
        0 <= i < placements.len() && (#[trigger] placements[i]).sheet_idx == r && kind_of(
            pr,
            placements[i].piece_idx as int,
        ) == t;
    let j = choose|j: int|
        0 <= j < placements.len() && (#[trigger] placements[j]).sheet_idx == s && kind_of(
            pr,
            placements[j].piece_idx as int,
        ) == t;
    let copies = pr.ptypes@[t].copies@;
    assert(has_kind(pr, placements[i].piece_idx as int));
    assert(has_kind(pr, placements[j].piece_idx as int));
    assert(copies.contains(placements[i].piece_idx));
    assert(copies.contains(placements[j].piece_idx));
    let ids = placed_indices(placements);
    assert(ids[i] == ids[j]);
}

/// A cutting that meets the constraints of a node meets those of one of its children, where both
/// types have one copy.
proof fn lemma_child_admits(
    problem: Problem,
    pr: Pricer,
    node: BpcNode,
    lb: usize,
    pair: (usize, usize),
    both: BpcNode,
    apart: BpcNode,
    placements: Seq<Placement>,
)
    requires
        pr.wf(),
        housed(pr, placements),
        placed_indices(placements).no_duplicates(),
        pair.0 < pair.1 < pr.ptypes@.len(),
        single_pair(pr, pair),
        splits_into(problem, pr, node, lb, pair, both, apart),
        admits(pr, node.constraints, placements),
    ensures
        admits(pr, both.constraints, placements) || admits(pr, apart.constraints, placements),
{
    let (t, u) = (pair.0 as int, pair.1 as int);
    let (c, d) = (both.constraints, apart.constraints);
    if exists|s: usize| #[trigger] kind_on(pr, placements, t, s) && kind_on(pr, placements, u, s) {
        let s = choose|s: usize| #[trigger]
            kind_on(pr, placements, t, s) && kind_on(pr, placements, u, s);
        assert forall|z: usize| #[trigger] kind_on(pr, placements, t, z) == kind_on(
            pr,
            placements,
            u,
            z,
        ) by {
            if kind_on(pr, placements, t, z) {
                lemma_one_sheet(pr, placements, t, s, z);
            }
            if kind_on(pr, placements, u, z) {
                lemma_one_sheet(pr, placements, u, s, z);
            }
        }
        assert forall|k: int, z: usize| 0 <= k < c.forced_together@.len() implies (
        #[trigger] kind_on(pr, placements, (#[trigger] c.forced_together@[k]).0 as int, z)
            == kind_on(pr, placements, c.forced_together@[k].1 as int, z)) by {
            if k < node.constraints.forced_together@.len() {
                let q = node.constraints.forced_together@[k];
                assert(c.forced_together@[k] == q);
                assert(kind_on(pr, placements, q.0 as int, z) == kind_on(
                    pr,
                    placements,
                    q.1 as int,
                    z,
                ));
            }
        }
        assert(admits(pr, c, placements));
    } else {
        assert forall|k: int, z: usize| 0 <= k < d.forbidden@.len() implies !(#[trigger] kind_on(
            pr,
            placements,
            (#[trigger] d.forbidden@[k]).0 as int,
            z,
        ) && kind_on(pr, placements, d.forbidden@[k].1 as int, z)) by {
            if k < node.constraints.forbidden@.len() {
                let q = node.constraints.forbidden@[k];
                assert(d.forbidden@[k] == q);
                assert(!(kind_on(pr, placements, q.0 as int, z) && kind_on(
                    pr,
                    placements,
                    q.1 as int,
                    z,
                )));
            }
        }
        assert(admits(pr, d, placements));
    }
}

/// A cutting that meets the constraints of a child meets those of the node.
proof fn lemma_parent_admits(
    problem: Problem,
    pr: Pricer,
    node: BpcNode,
    lb: usize,
    pair: (usize, usize),
    both: BpcNode,
    apart: BpcNode,
    placements: Seq<Placement>,
)
    requires
        splits_into(problem, pr, node, lb, pair, both, apart),
    ensures
        admits(pr, both.constraints, placements) || admits(pr, apart.constraints, placements)
            ==> admits(pr, node.constraints, placements),
{
    let (a, b) = (node.constraints.forbidden@, node.constraints.forced_together@);
    if admits(pr, both.constraints, placements) || admits(pr, apart.constraints, placements) {
        let c = if admits(pr, both.constraints, placements) {
            both.constraints
        } else {
            apart.constraints
        };
        assert forall|k: int, z: usize| 0 <= k < a.len() implies !(#[trigger] kind_on(
            pr,
            placements,
            (#[trigger] a[k]).0 as int,
            z,
        ) && kind_on(pr, placements, a[k].1 as int, z)) by {
            assert(c.forbidden@[k] == a[k]);
        }
        assert forall|k: int, z: usize| 0 <= k < b.len() implies (#[trigger] kind_on(
            pr,
            placements,
            (#[trigger] b[k]).0 as int,
            z,
        ) == kind_on(pr, placements, b[k].1 as int, z)) by {
            assert(c.forced_together@[k] == b[k]);
        }
    }
}

/// A node that branches hands the cutting on to a child, unless part of the tree is left out.
proof fn lemma_branched(
    problem: Problem,
    pr: Pricer,
    before: Tree,
    after: Tree,
    node: BpcNode,
    lb: int,
    basic: Seq<(usize, u64)>,
    placements: Seq<Placement>,
    m: nat,
)
    requires
        pr.wf(),
        housed(pr, placements),
        placed_indices(placements).no_duplicates(),
        bounded_below(pr, before.open@, placements, m),
        0 <= lb <= usize::MAX,
        admits(pr, node.constraints, placements) ==> lb <= m,
        branched(problem, pr, before, after, node, lb, basic),
        node.constraints.about(pr.ptypes@.len()),
        forall|i: int|
            0 <= i < before.open@.len() ==> (#[trigger] before.open@[i]).constraints.about(
                pr.ptypes@.len(),
            ),
    ensures
        forall|i: int|
            0 <= i < after.open@.len() ==> (#[trigger] after.open@[i]).constraints.about(
                pr.ptypes@.len(),
            ),
        bounded_below(pr, after.open@, placements, m),
        before.incomplete ==> after.incomplete,
        waits(pr, before, placements) ==> waits(pr, after, placements),
        after.incomplete || (admits(pr, node.constraints, placements) ==> waits(
            pr,
            after,
            placements,
        )),
{
    if after.open@ != before.open@ {
        let (pair, both, apart) = choose|pair: (usize, usize), both: BpcNode, apart: BpcNode|
            {
                &&& is_branch_pair(pr, node.patterns@, basic, pair)
                &&& #[trigger] splits_into(problem, pr, node, lb as usize, pair, both, apart)
                &&& after.open@ == before.open@.push(both).push(apart)
                &&& after.incomplete == (before.incomplete || !single_pair(pr, pair))
            };
        let n = before.open@.len() as int;
        lemma_about_more(node.constraints, both.constraints, pr.ptypes@.len(), pair.0, pair.1);
        lemma_about_more(node.constraints, apart.constraints, pr.ptypes@.len(), pair.0, pair.1);
        assert(after.open@[n] == both);
        assert(after.open@[n + 1] == apart);
        assert forall|i: int| 0 <= i < n implies after.open@[i] == #[trigger] before.open@[i] by {}
        assert forall|i: int| 0 <= i < after.open@.len() implies (
        #[trigger] after.open@[i]).constraints.about(pr.ptypes@.len()) by {
            if i < n {
                assert(after.open@[i] == before.open@[i]);
            }
        }
        lemma_parent_admits(problem, pr, node, lb as usize, pair, both, apart, placements);
        assert forall|i: int|
            0 <= i < after.open@.len() && admits(
                pr,
                (#[trigger] after.open@[i]).constraints,
                placements,
            ) implies after.open@[i].pending_lb <= m by {
            if i < n {
                assert(after.open@[i] == before.open@[i]);
            }
        }
        if waits(pr, before, placements) {
            let i = choose|i: int|
                0 <= i < before.open@.len() && admits(
                    pr,
                    (#[trigger] before.open@[i]).constraints,
                    placements,
                );
            assert(admits(pr, after.open@[i].constraints, placements));
        }
        if !after.incomplete && admits(pr, node.constraints, placements) {
            lemma_child_admits(
                problem,
                pr,
                node,
                lb as usize,
                pair,
                both,
                apart,
                placements,
            );
            if admits(pr, both.constraints, placements) {
                assert(admits(pr, after.open@[n].constraints, placements));
            } else {
                assert(admits(pr, after.open@[n + 1].constraints, placements));
            }
        }
    }
}

/// After a visit a cutting is accounted for as it was before.
proof fn lemma_visited(
    problem: Problem,
    pr: Pricer,
    before: Tree,
    after: Tree,
    v: Visit,
    placements: Seq<Placement>,
    n: nat,
)
    requires
        priced_by(problem, pr),
        is_cutting(problem, placements, n),
        accounted_for(problem, pr, before, placements, n),
        visited(problem, pr, before, after, v),
    ensures
        accounted_for(problem, pr, after, placements, n),
{
    let mid = choose|mid: Tree| #[trigger]
        before.takes(mid, v.node) && if v.converged {
            &&& is_done(problem, pr, v)
            &&& converges(problem, pr, mid, after, v.grown, v.z, v.basic)
            &&& tree_ok(problem, pr, after)
        } else {
            after == mid.gives_up()
        };
    let last = before.open@.len() - 1;
    assert(before.open@[last] == v.node);
    assert forall|i: int| 0 <= i < mid.open@.len() implies (
    #[trigger] mid.open@[i]).constraints.about(pr.ptypes@.len()) by {
        assert(mid.open@[i] == before.open@[i]);
    }
    assert(bounded_below(pr, mid.open@, placements, n)) by {
        assert forall|i: int|
            0 <= i < mid.open@.len() && admits(
                pr,
                (#[trigger] mid.open@[i]).constraints,
                placements,
            ) implies mid.open@[i].pending_lb <= n by {
            assert(mid.open@[i] == before.open@[i]);
        }
    }
    if waits(pr, before, placements) && !admits(pr, v.node.constraints, placements) {
        let i = choose|i: int|
            0 <= i < before.open@.len() && admits(
                pr,
                (#[trigger] before.open@[i]).constraints,
                placements,
            );
        assert(i != last);
        assert(admits(pr, mid.open@[i].constraints, placements));
        assert(waits(pr, mid, placements));
    }
    if v.converged {
        let mine = admits(pr, v.node.constraints, placements);
        let lb = super::bpc::node_bound(mid.lb0, v.z);
        lemma_housed_cutting(problem, pr, placements, n);
        if mine {
            law_rounded_bound_holds(
                problem,
                pr,
                v.mu,
                v.grown.constraints,
                placements,
                n,
                v.z,
            );
            assert(lb <= n);
        }
        if lb < after.global_ub {
            lemma_branched(problem, pr, mid, after, v.grown, lb, v.basic, placements, n);
        } else {
            assert(after.open@ == mid.open@);
            if waits(pr, mid, placements) {
                let i = choose|i: int|
                    0 <= i < mid.open@.len() && admits(
                        pr,
                        (#[trigger] mid.open@[i]).constraints,
                        placements,
                    );
                assert(admits(pr, after.open@[i].constraints, placements));
            }
        }
    }
}

proof fn lemma_reached(
    problem: Problem,
    pr: Pricer,
    run: Seq<Visit>,
    tree: Tree,
    placements: Seq<Placement>,
    n: nat,
)
    requires
        priced_by(problem, pr),
        is_cutting(problem, placements, n),
        reached(problem, pr, run, tree),
    ensures
        accounted_for(problem, pr, tree, placements, n),
    decreases run.len(),
{
    if run.len() == 0 {
        law_area_bound(problem, placements, n);
        assert(admits(pr, tree.open@[0].constraints, placements));
    } else {
        let before = choose|before: Tree|
            reached(problem, pr, run.drop_last(), before) && #[trigger] visited(
                problem,
                pr,
                before,
                tree,
                run.last(),
            );
        lemma_reached(problem, pr, run.drop_last(), before, placements, n);
        lemma_visited(problem, pr, before, tree, run.last(), placements, n);
    }
}

/// At every step the best solution is a cutting of all pieces from as many sheets as the search
/// says.
pub proof fn law_best_is_a_cutting(problem: Problem, pr: Pricer, run: Seq<Visit>, tree: Tree)
    requires
        reached(problem, pr, run, tree),
    ensures
        tree_ok(problem, pr, tree),
        is_cutting(problem, tree.best.placements@, tree.global_ub as nat),
    decreases run.len(),
{
    if run.len() > 0 {
        let v = run.last();
        let before = choose|before: Tree|
            reached(problem, pr, run.drop_last(), before) && #[trigger] visited(
                problem,
                pr,
                before,
                tree,
                v,
            );
        law_best_is_a_cutting(problem, pr, run.drop_last(), before);
        if !v.converged {
            let mid = choose|mid: Tree| #[trigger]
                before.takes(mid, v.node) && tree == mid.gives_up();
            assert forall|i: int| 0 <= i < tree.open@.len() implies node_ok(
                problem,
                pr,
                #[trigger] tree.open@[i],
            ) by {
                assert(tree.open@[i] == before.open@[i]);
            }
        }
    }
}

/// A reported lower bound holds: no cutting of all pieces uses fewer sheets.
pub proof fn law_reported_bound_holds(
    problem: Problem,
    pr: Pricer,
    run: Seq<Visit>,
    tree: Tree,
    placements: Seq<Placement>,
    n: nat,
)
    requires
        priced_by(problem, pr),
        reached(problem, pr, run, tree),
        is_cutting(problem, placements, n),
    ensures
        !tree.incomplete ==> least(frontier(tree.open@, tree.lb0), tree.global_ub) <= n,
        tree.lower_bound() <= n,
{
    lemma_reached(problem, pr, run, tree, placements, n);
    if tree.open@.len() > 0 {
        lemma_frontier(tree.open@, tree.lb0);
    }
}

/// A lower bound that is reported while a node is worked on holds too.
pub proof fn law_progress_bound_holds(
    problem: Problem,
    pr: Pricer,
    run: Seq<Visit>,
    tree: Tree,
    mid: Tree,
    node: BpcNode,
    placements: Seq<Placement>,
    n: nat,
)
    requires
        priced_by(problem, pr),
        reached(problem, pr, run, tree),
        tree.takes(mid, node),
        is_cutting(problem, placements, n),
    ensures
        mid.bound_with(node) <= n,
{
    lemma_reached(problem, pr, run, tree, placements, n);
    if mid.open@.len() > 0 {
        lemma_frontier(mid.open@, mid.lb0);
    }
    if waits(pr, tree, placements) {
        let i = choose|i: int|
            0 <= i < tree.open@.len() && admits(
                pr,
                (#[trigger] tree.open@[i]).constraints,
                placements,
            );
        if i < mid.open@.len() {
            assert(mid.open@[i] == tree.open@[i]);
        }
    }
}

/// Where the search ends with the answer that the best solution is optimal, that is a cutting of
/// all pieces, and no cutting of all pieces uses fewer sheets.
pub proof fn law_finished_is_optimal(
    problem: Problem,
    pr: Pricer,
    run: Seq<Visit>,
    tree: Tree,
    placements: Seq<Placement>,
    n: nat,
)
    requires
        priced_by(problem, pr),
        reached(problem, pr, run, tree),
        tree.finished() is Optimal,
        is_cutting(problem, placements, n),
    ensures
        is_cutting(problem, tree.best.placements@, tree.global_ub as nat),
        tree.global_ub <= n,
{
    law_best_is_a_cutting(problem, pr, run, tree);
    lemma_reached(problem, pr, run, tree, placements, n);
    law_reported_bound_holds(problem, pr, run, tree, placements, n);
}

} // verus!
