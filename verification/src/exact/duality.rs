//! What the end of column generation proves about every cutting.

use vstd::multiset::Multiset;
use vstd::prelude::*;

use super::bpc::rounded_bound;
use super::candidates::{
    chosen_counts, chosen_profit, eligible, lemma_none_picked, lemma_one_type, members,
};
use super::chain::{lemma_tally_total, tally};
use super::fitting::law_fits_with_fewer;
use super::oracle::kinds;
use super::pricing::{improving, piece_kind, BranchConstraints, Pricer, MU_EPS, THRESHOLD};
use super::selection::{lemma_picked_le, lemma_picked_more, picked};
use crate::bounds::{
    covered_by, lemma_one_cell, lemma_share, lemma_sum_all, sum_over, sum_upto, taken_from,
};
use crate::gpf::table::{
    cut_at, fits, law_fits_is_monotone, lemma_split_gives, minus, part_of, proper_part, single_fits,
    total, via_split,
};
use crate::layout::{
    bottom_part, bounded, forest_ok, forest_slices, left_part, lemma_forest_slice,
    lemma_packed_within, lemma_slices_within, packed, right_part, slices, slicing_ok, top_part,
    Slicing,
};
use crate::model::{cells, sheet_cell, FreeRect, Placement, Problem, Sheet};
use crate::packing::{complete, placed_indices};
use crate::turning::turned_as_allowed;

verus! {

/// The type of a piece.
pub open spec fn kind_of(pr: Pricer, i: int) -> int {
    choose|t: int|
        0 <= t < pr.ptypes@.len() && (#[trigger] pr.ptypes@[t]).copies@.contains(i as usize)
}

/// Some type has the piece among its copies.
pub open spec fn has_kind(pr: Pricer, i: int) -> bool {
    exists|t: int|
        0 <= t < pr.ptypes@.len() && (#[trigger] pr.ptypes@[t]).copies@.contains(i as usize)
}

/// Known pieces that have a type, turned only if they may be.
pub open spec fn housed(pr: Pricer, placements: Seq<Placement>) -> bool {
    forall|i: int|
        0 <= i < placements.len() ==> {
            let pl = #[trigger] placements[i];
            &&& pl.piece_idx < pr.pieces@.len()
            &&& has_kind(pr, pl.piece_idx as int)
            &&& pl.rotated ==> pr.pieces@[pl.piece_idx as int].can_rotate
        }
}

/// 1 for pieces of type `t`.
pub open spec fn kind_weight(pr: Pricer, t: int) -> spec_fn(int) -> int {
    |i: int|
        if kind_of(pr, i) == t {
            1int
        } else {
            0int
        }
}

/// How many placed pieces are of each type.
pub open spec fn counted(pr: Pricer, placements: Seq<Placement>) -> Seq<nat> {
    Seq::new(pr.ptypes@.len(), |t: int| sum_over(placements, kind_weight(pr, t)) as nat)
}

spec fn kinds_at(pr: Pricer, placements: Seq<Placement>) -> Seq<usize> {
    Seq::new(placements.len(), |i: int| kind_of(pr, placements[i].piece_idx as int) as usize)
}

proof fn lemma_counted(pr: Pricer, placements: Seq<Placement>)
    requires
        housed(pr, placements),
        pr.ptypes@.len() <= usize::MAX,
    ensures
        counted(pr, placements) == tally(kinds_at(pr, placements), pr.ptypes@.len()),
        total(counted(pr, placements)) == placements.len(),
        forall|t: int|
            0 <= t < pr.ptypes@.len() ==> #[trigger] sum_over(placements, kind_weight(pr, t)) >= 0,
    decreases placements.len(),
{
    let n = pr.ptypes@.len();
    let list = kinds_at(pr, placements);
    if placements.len() > 0 {
        let rest = placements.drop_last();
        let last = placements.last();
        assert forall|i: int| 0 <= i < rest.len() implies {
            let pl = #[trigger] rest[i];
            &&& pl.piece_idx < pr.pieces@.len()
            &&& has_kind(pr, pl.piece_idx as int)
            &&& pl.rotated ==> pr.pieces@[pl.piece_idx as int].can_rotate
        } by {
            assert(rest[i] == placements[i]);
        }
        lemma_counted(pr, rest);
        assert(list.drop_last() =~= kinds_at(pr, rest));
        assert(placements[placements.len() - 1] == last);
        let k = kind_of(pr, last.piece_idx as int);
        assert(0 <= k < n);
        let before = tally(kinds_at(pr, rest), n);
        assert forall|t: int| 0 <= t < n implies {
            &&& #[trigger] sum_over(placements, kind_weight(pr, t)) >= 0
            &&& counted(pr, placements)[t] == tally(list, n)[t]
        } by {
            assert(counted(pr, rest)[t] == before[t]);
            assert(sum_over(rest, kind_weight(pr, t)) >= 0);
        }
    }
    assert(counted(pr, placements) =~= tally(list, n));
    assert forall|i: int| 0 <= i < list.len() implies (#[trigger] list[i]) < n by {
        assert(has_kind(pr, placements[i].piece_idx as int));
    }
    lemma_tally_total(list, n);
}

proof fn lemma_housed_part(pr: Pricer, part: Seq<Placement>, whole: Seq<Placement>)
    requires
        housed(pr, whole),
        taken_from(part, whole),
    ensures
        housed(pr, part),
{
    assert forall|i: int| 0 <= i < part.len() implies {
        let pl = #[trigger] part[i];
        &&& pl.piece_idx < pr.pieces@.len()
        &&& has_kind(pr, pl.piece_idx as int)
        &&& pl.rotated ==> pr.pieces@[pl.piece_idx as int].can_rotate
    } by {
        assert(whole.contains(part[i]));
        let k = choose|k: int| 0 <= k < whole.len() && whole[k] == part[i];
        assert(whole[k] == part[i]);
    }
}

/// Two parts that fit on the two sides of a cut fit together.
proof fn lemma_joined_fits(
    pr: Pricer,
    whole: Seq<Placement>,
    p: Seq<Placement>,
    q: Seq<Placement>,
    w: int,
    h: int,
    at: int,
    stacked: bool,
)
    requires
        housed(pr, whole),
        housed(pr, p),
        housed(pr, q),
        pr.ptypes@.len() <= usize::MAX,
        p.len() + q.len() == whole.len(),
        forall|f: spec_fn(int) -> int| #[trigger]
            sum_over(whole, f) == sum_over(p, f) + sum_over(q, f),
        stacked ==> 0 <= at <= h && fits(kinds(pr.ptypes@), counted(pr, p), w, at) && fits(
            kinds(pr.ptypes@),
            counted(pr, q),
            w,
            h - at,
        ),
        !stacked ==> 0 <= at <= w && fits(kinds(pr.ptypes@), counted(pr, p), at, h) && fits(
            kinds(pr.ptypes@),
            counted(pr, q),
            w - at,
            h,
        ),
    ensures
        fits(kinds(pr.ptypes@), counted(pr, whole), w, h),
{
    let types = kinds(pr.ptypes@);
    let (c, d, e) = (counted(pr, whole), counted(pr, p), counted(pr, q));
    lemma_counted(pr, whole);
    lemma_counted(pr, p);
    lemma_counted(pr, q);
    assert forall|t: int| 0 <= t < c.len() implies c[t] == d[t] + e[t] by {
        let g = kind_weight(pr, t);
        assert(sum_over(whole, g) == sum_over(p, g) + sum_over(q, g));
        assert(sum_over(p, g) >= 0 && sum_over(q, g) >= 0);
    }
    if p.len() == 0 {
        assert forall|t: int| 0 <= t < c.len() implies d[t] == 0 by {
            reveal_with_fuel(sum_over, 1);
        }
        assert(c =~= e);
        if stacked {
            law_fits_is_monotone(types, e, w, h - at, w, h);
        } else {
            law_fits_is_monotone(types, e, w - at, h, w, h);
        }
    } else if q.len() == 0 {
        assert forall|t: int| 0 <= t < c.len() implies e[t] == 0 by {
            reveal_with_fuel(sum_over, 1);
        }
        assert(c =~= d);
        if stacked {
            law_fits_is_monotone(types, d, w, at, w, h);
        } else {
            law_fits_is_monotone(types, d, at, h, w, h);
        }
    } else {
        assert(minus(c, d) =~= e);
        assert(part_of(d, c));
        assert(proper_part(d, c));
        assert(cut_at(at));
        assert(via_split(types, d, minus(c, d), w, h));
        lemma_split_gives(types, c, d, w, h);
    }
}

/// Pieces that are cut from a rectangle fit in it.
proof fn lemma_cut_fits(pr: Pricer, placements: Seq<Placement>, t: Slicing, c: FreeRect)
    requires
        pr.wf(),
        pr.ptypes@.len() <= usize::MAX,
        housed(pr, placements),
        placed_indices(placements).no_duplicates(),
        slicing_ok(t, c),
        bounded(c),
        covered_by(pr.pieces@, placements, slices(t, c)),
    ensures
        fits(kinds(pr.ptypes@), counted(pr, placements), c.w as int, c.h as int),
    decreases t,
{
    let types = kinds(pr.ptypes@);
    match t {
        Slicing::Whole => {
            lemma_one_cell(pr.pieces@, placements, c);
            lemma_counted(pr, placements);
            if placements.len() == 1 {
                let pl = placements[0];
                let k = kind_of(pr, pl.piece_idx as int);
                assert(has_kind(pr, pl.piece_idx as int));
                lemma_one_type(pr, k, k, pl.piece_idx);
                assert(sum_over(placements, kind_weight(pr, k)) == 1) by {
                    reveal_with_fuel(sum_over, 2);
                    assert(placements.drop_last().len() == 0);
                }
                assert(counted(pr, placements)[k] == 1);
                assert(single_fits(types[k], c.w as int, c.h as int));
            }
        },
        Slicing::Stacked { at, top, bottom } => {
            let (p, q) = lemma_share(
                pr.pieces@,
                placements,
                slices(*top, top_part(c, at)),
                slices(*bottom, bottom_part(c, at)),
            );
            lemma_housed_part(pr, p, placements);
            lemma_housed_part(pr, q, placements);
            lemma_cut_fits(pr, p, *top, top_part(c, at));
            lemma_cut_fits(pr, q, *bottom, bottom_part(c, at));
            lemma_joined_fits(pr, placements, p, q, c.w as int, c.h as int, at as int, true);
        },
        Slicing::Beside { at, left, right } => {
            let (p, q) = lemma_share(
                pr.pieces@,
                placements,
                slices(*left, left_part(c, at)),
                slices(*right, right_part(c, at)),
            );
            lemma_housed_part(pr, p, placements);
            lemma_housed_part(pr, q, placements);
            lemma_cut_fits(pr, p, *left, left_part(c, at));
            lemma_cut_fits(pr, q, *right, right_part(c, at));
            lemma_joined_fits(pr, placements, p, q, c.w as int, c.h as int, at as int, false);
        },
    }
}

/// The pieces that pricing looks at: those worth including, and those of types that have to go
/// together with others.
spec fn looked_at(pr: Pricer, mu: Seq<u64>, constraints: BranchConstraints) -> spec_fn(int) -> bool {
    |i: int| mu[i] > MU_EPS || constraints.ties(kind_of(pr, i))
}

/// The placed pieces that are kept.
spec fn worth(keep: spec_fn(int) -> bool, n: nat, placements: Seq<Placement>) -> Seq<bool> {
    Seq::new(n, |i: int| keep(i) && placed_indices(placements).contains(i as usize))
}

/// A number for the pieces that are kept.
spec fn worth_weight(keep: spec_fn(int) -> bool, g: Seq<int>) -> spec_fn(int) -> int {
    |i: int|
        if keep(i) {
            g[i]
        } else {
            0int
        }
}

proof fn lemma_worth_sum(
    keep: spec_fn(int) -> bool,
    n: nat,
    placements: Seq<Placement>,
    g: Seq<int>,
)
    requires
        g.len() == n,
        n <= usize::MAX,
        placed_indices(placements).no_duplicates(),
        forall|i: int| 0 <= i < placements.len() ==> (#[trigger] placements[i]).piece_idx < n,
    ensures
        picked(g, worth(keep, n, placements), n) == sum_over(placements, worth_weight(keep, g)),
    decreases placements.len(),
{
    let now = worth(keep, n, placements);
    if placements.len() == 0 {
        assert forall|i: int| 0 <= i < n implies !(#[trigger] now[i]) by {}
        lemma_none_picked(g, now, n);
    } else {
        let rest = placements.drop_last();
        let ids = placed_indices(placements);
        let i = placements.last().piece_idx as int;
        assert(placements[placements.len() - 1].piece_idx < n);
        assert(placed_indices(rest) =~= ids.drop_last());
        assert forall|a: int, b: int|
            0 <= a < b < rest.len() implies placed_indices(rest)[a] != placed_indices(rest)[b] by {
            assert(ids[a] != ids[b]);
        }
        assert forall|k: int| 0 <= k < rest.len() implies (#[trigger] rest[k]).piece_idx < n by {
            assert(rest[k] == placements[k]);
        }
        lemma_worth_sum(keep, n, rest, g);
        let before = worth(keep, n, rest);
        assert(!placed_indices(rest).contains(i as usize)) by {
            if placed_indices(rest).contains(i as usize) {
                let k = choose|k: int|
                    0 <= k < rest.len() && placed_indices(rest)[k] == i as usize;
                assert(ids[k] == ids[ids.len() - 1]);
            }
        }
        assert forall|k: int| 0 <= k < n && k != i implies now[k] == before[k] by {
            if ids.contains(k as usize) {
                let j = choose|j: int| 0 <= j < ids.len() && ids[j] == k as usize;
                assert(placed_indices(rest)[j] == k as usize);
            }
            if placed_indices(rest).contains(k as usize) {
                let j = choose|j: int| 0 <= j < rest.len() && placed_indices(rest)[j] == k as usize;
                assert(ids[j] == k as usize);
            }
        }
        assert(ids[ids.len() - 1] == i as usize);
        assert(ids.contains(i as usize));
        if keep(i) {
            assert(now =~= before.update(i, true));
            lemma_picked_more(g, before, i, n);
        } else {
            assert(now =~= before);
        }
    }
}

proof fn lemma_sum_le(
    placements: Seq<Placement>,
    f: spec_fn(int) -> int,
    g: spec_fn(int) -> int,
    extra: int,
)
    requires
        forall|i: int|
            0 <= i < placements.len() ==> f((#[trigger] placements[i]).piece_idx as int) <= g(
                placements[i].piece_idx as int,
            ) + extra,
    ensures
        sum_over(placements, f) <= sum_over(placements, g) + placements.len() * extra,
    decreases placements.len(),
{
    if placements.len() > 0 {
        let rest = placements.drop_last();
        assert forall|i: int| 0 <= i < rest.len() implies f((#[trigger] rest[i]).piece_idx as int)
            <= g(rest[i].piece_idx as int) + extra by {
            assert(rest[i] == placements[i]);
        }
        lemma_sum_le(rest, f, g, extra);
        assert(placements[placements.len() - 1] == placements.last());
        let n = placements.len() as int;
        assert((n - 1) * extra + extra == n * extra) by (nonlinear_arith);
    }
}

/// What a dual value says of a piece: nothing where it is too small to count.
pub open spec fn worth_of(mu: Seq<u64>) -> spec_fn(int) -> int {
    |i: int|
        if mu[i] > MU_EPS {
            mu[i] as int
        } else {
            0int
        }
}

/// The value of a linear program as far as the dual values bear it out: what those that count add
/// up to, where that is less.
pub fn borne_value(z: u64, mu: &Vec<u64>) -> (r: u64)
    ensures
        r == if sum_upto(worth_of(mu@), mu@.len()) < z {
            sum_upto(worth_of(mu@), mu@.len())
        } else {
            z as int
        },
{
    let mut sum: u64 = 0;
    let mut k: usize = 0;
    while k < mu.len()
        invariant
            k <= mu@.len(),
            sum == sum_upto(worth_of(mu@), k as nat),
            sum < z || sum == 0,
        decreases mu@.len() - k,
    {
        if mu[k] > MU_EPS {
            if mu[k] >= z - sum {
                proof {
                    lemma_sum_upto_grows(mu@, (k + 1) as nat, mu@.len());
                }
                return z;
            }
            sum = sum + mu[k];
        }
        k += 1;
    }
    if sum < z {
        sum
    } else {
        z
    }
}

proof fn lemma_sum_upto_grows(mu: Seq<u64>, j: nat, k: nat)
    requires
        j <= k,
    ensures
        sum_upto(worth_of(mu), j) <= sum_upto(worth_of(mu), k),
    decreases k,
{
    if j < k {
        lemma_sum_upto_grows(mu, j, (k - 1) as nat);
    }
}

/// Pricing under these values and constraints finds nothing.
pub open spec fn priced_out(pr: Pricer, mu: Seq<u64>, constraints: BranchConstraints) -> bool {
    forall|chosen: Seq<bool>| !#[trigger] improving(pr, mu, constraints, chosen)
}

/// A piece of type `t` lies on a sheet.
pub open spec fn kind_on(pr: Pricer, placements: Seq<Placement>, t: int, s: usize) -> bool {
    exists|i: int|
        0 <= i < placements.len() && (#[trigger] placements[i]).sheet_idx == s && kind_of(
            pr,
            placements[i].piece_idx as int,
        ) == t
}

/// Every sheet of a cutting meets the constraints: two types that do not go together are not
/// both on it, and of two that go together both or none.
pub open spec fn admits(
    pr: Pricer,
    constraints: BranchConstraints,
    placements: Seq<Placement>,
) -> bool {
    &&& forall|k: int, s: usize|
        0 <= k < constraints.forbidden@.len() ==> !(#[trigger] kind_on(
            pr,
            placements,
            (#[trigger] constraints.forbidden@[k]).0 as int,
            s,
        ) && kind_on(pr, placements, constraints.forbidden@[k].1 as int, s))
    &&& forall|k: int, s: usize|
        0 <= k < constraints.forced_together@.len() ==> (#[trigger] kind_on(
            pr,
            placements,
            (#[trigger] constraints.forced_together@[k]).0 as int,
            s,
        ) == kind_on(pr, placements, constraints.forced_together@[k].1 as int, s))
}

/// A sum of zeros and ones is positive where there is a one.
proof fn lemma_sum_ones(placements: Seq<Placement>, f: spec_fn(int) -> int)
    requires
        forall|k: int| #[trigger] f(k) == 0 || f(k) == 1,
    ensures
        sum_over(placements, f) >= 0,
        sum_over(placements, f) > 0 <==> exists|j: int|
            0 <= j < placements.len() && f((#[trigger] placements[j]).piece_idx as int) == 1,
    decreases placements.len(),
{
    if placements.len() > 0 {
        let rest = placements.drop_last();
        lemma_sum_ones(rest, f);
        let last = placements[placements.len() - 1];
        assert(last == placements.last());
        if sum_over(rest, f) > 0 {
            let j = choose|j: int|
                0 <= j < rest.len() && f((#[trigger] rest[j]).piece_idx as int) == 1;
            assert(f(placements[j].piece_idx as int) == 1);
        }
        if exists|j: int|
            0 <= j < placements.len() && f((#[trigger] placements[j]).piece_idx as int) == 1 {
            let j = choose|j: int|
                0 <= j < placements.len() && f((#[trigger] placements[j]).piece_idx as int) == 1;
            if j < rest.len() {
                assert(f(rest[j].piece_idx as int) == 1);
            }
        }
    }
}

/// Each placement is in one of the two parts that a list is shared out to.
proof fn lemma_shared(
    whole: Seq<Placement>,
    p: Seq<Placement>,
    q: Seq<Placement>,
    i: int,
)
    requires
        placed_indices(whole).no_duplicates(),
        taken_from(p, whole),
        taken_from(q, whole),
        forall|f: spec_fn(int) -> int| #[trigger]
            sum_over(whole, f) == sum_over(p, f) + sum_over(q, f),
        0 <= i < whole.len(),
    ensures
        p.contains(whole[i]) || q.contains(whole[i]),
{
    let id = whole[i].piece_idx;
    let f = |k: int|
        if k == id {
            1int
        } else {
            0int
        };
    lemma_sum_ones(whole, f);
    lemma_sum_ones(p, f);
    lemma_sum_ones(q, f);
    assert(f(whole[i].piece_idx as int) == 1);
    assert(sum_over(whole, f) == sum_over(p, f) + sum_over(q, f));
    let part = if sum_over(p, f) > 0 {
        p
    } else {
        q
    };
    let j = choose|j: int| 0 <= j < part.len() && f((#[trigger] part[j]).piece_idx as int) == 1;
    assert(whole.contains(part[j]));
    let m = choose|m: int| 0 <= m < whole.len() && whole[m] == part[j];
    let ids = placed_indices(whole);
    assert(ids[m] == ids[i]);
    assert(m == i);
    assert(part[j] == whole[i]);
}

/// The pieces on one sheet meet the constraints that the cutting meets.
proof fn lemma_sheet_admits(
    pr: Pricer,
    constraints: BranchConstraints,
    whole: Seq<Placement>,
    q: Seq<Placement>,
    s: usize,
)
    requires
        housed(pr, q),
        pr.ptypes@.len() <= usize::MAX,
        constraints.about(pr.ptypes@.len()),
        admits(pr, constraints, whole),
        forall|i: int| 0 <= i < q.len() ==> (#[trigger] q[i]).sheet_idx == s && whole.contains(q[i]),
        forall|i: int|
            0 <= i < whole.len() && (#[trigger] whole[i]).sheet_idx == s ==> q.contains(whole[i]),
    ensures
        constraints.compatible(counted(pr, q)),
        constraints.paired(counted(pr, q)),
{
    let c = counted(pr, q);
    assert forall|t: int| 0 <= t < pr.ptypes@.len() implies (#[trigger] c[t] > 0) == kind_on(
        pr,
        whole,
        t,
        s,
    ) by {
        let f = kind_weight(pr, t);
        lemma_sum_ones(q, f);
        if c[t] > 0 {
            let j = choose|j: int| 0 <= j < q.len() && f((#[trigger] q[j]).piece_idx as int) == 1;
            assert(whole.contains(q[j]));
            let m = choose|m: int| 0 <= m < whole.len() && whole[m] == q[j];
            assert(whole[m].sheet_idx == s);
        }
        if kind_on(pr, whole, t, s) {
            let m = choose|m: int|
                0 <= m < whole.len() && (#[trigger] whole[m]).sheet_idx == s && kind_of(
                    pr,
                    whole[m].piece_idx as int,
                ) == t;
            assert(q.contains(whole[m]));
            let j = choose|j: int| 0 <= j < q.len() && q[j] == whole[m];
            assert(f(q[j].piece_idx as int) == 1);
        }
    }
    assert forall|k: int| 0 <= k < constraints.forbidden@.len() implies !(c[(
    #[trigger] constraints.forbidden@[k]).0 as int] > 0 && c[constraints.forbidden@[k].1 as int]
        > 0) by {
        let pair = constraints.forbidden@[k];
        assert(pair.0 < pair.1 < pr.ptypes@.len());
        assert(!(kind_on(pr, whole, pair.0 as int, s) && kind_on(pr, whole, pair.1 as int, s)));
        assert((c[pair.0 as int] > 0) == kind_on(pr, whole, pair.0 as int, s));
        assert((c[pair.1 as int] > 0) == kind_on(pr, whole, pair.1 as int, s));
    }
    assert forall|k: int| 0 <= k < constraints.forced_together@.len() implies (c[(
    #[trigger] constraints.forced_together@[k]).0 as int] > 0) == (c[
        constraints.forced_together@[k].1 as int] > 0) by {
        let pair = constraints.forced_together@[k];
        assert(pair.0 < pair.1 < pr.ptypes@.len());
        assert(kind_on(pr, whole, pair.0 as int, s) == kind_on(pr, whole, pair.1 as int, s));
        assert((c[pair.0 as int] > 0) == kind_on(pr, whole, pair.0 as int, s));
        assert((c[pair.1 as int] > 0) == kind_on(pr, whole, pair.1 as int, s));
    }
}

/// What is left of a cutting without some of its sheets meets the constraints too.
proof fn lemma_rest_admits(
    pr: Pricer,
    constraints: BranchConstraints,
    whole: Seq<Placement>,
    p: Seq<Placement>,
    s: int,
)
    requires
        admits(pr, constraints, whole),
        forall|i: int| 0 <= i < p.len() ==> (#[trigger] p[i]).sheet_idx < s && whole.contains(p[i]),
        forall|i: int|
            0 <= i < whole.len() && (#[trigger] whole[i]).sheet_idx < s ==> p.contains(whole[i]),
    ensures
        admits(pr, constraints, p),
{
    assert forall|t: int, z: usize| #[trigger] kind_on(pr, p, t, z) == (z < s && kind_on(
        pr,
        whole,
        t,
        z,
    )) by {
        if kind_on(pr, p, t, z) {
            let j = choose|j: int|
                0 <= j < p.len() && (#[trigger] p[j]).sheet_idx == z && kind_of(
                    pr,
                    p[j].piece_idx as int,
                ) == t;
            assert(whole.contains(p[j]));
            let m = choose|m: int| 0 <= m < whole.len() && whole[m] == p[j];
            assert(whole[m].sheet_idx == z);
        }
        if z < s && kind_on(pr, whole, t, z) {
            let m = choose|m: int|
                0 <= m < whole.len() && (#[trigger] whole[m]).sheet_idx == z && kind_of(
                    pr,
                    whole[m].piece_idx as int,
                ) == t;
            assert(p.contains(whole[m]));
            let j = choose|j: int| 0 <= j < p.len() && p[j] == whole[m];
            assert(p[j].sheet_idx == z);
        }
    }
    assert forall|k: int, z: usize| 0 <= k < constraints.forbidden@.len() implies !(
    #[trigger] kind_on(pr, p, (#[trigger] constraints.forbidden@[k]).0 as int, z) && kind_on(
        pr,
        p,
        constraints.forbidden@[k].1 as int,
        z,
    )) by {
        let pair = constraints.forbidden@[k];
        assert(!(kind_on(pr, whole, pair.0 as int, z) && kind_on(pr, whole, pair.1 as int, z)));
        assert(kind_on(pr, p, pair.1 as int, z) == (z < s && kind_on(pr, whole, pair.1 as int, z)));
    }
    assert forall|k: int, z: usize| 0 <= k < constraints.forced_together@.len() implies (
    #[trigger] kind_on(pr, p, (#[trigger] constraints.forced_together@[k]).0 as int, z) == kind_on(
        pr,
        p,
        constraints.forced_together@[k].1 as int,
        z,
    )) by {
        let pair = constraints.forced_together@[k];
        assert(kind_on(pr, whole, pair.0 as int, z) == kind_on(pr, whole, pair.1 as int, z));
        assert(kind_on(pr, p, pair.1 as int, z) == (z < s && kind_on(pr, whole, pair.1 as int, z)));
    }
}

/// Pieces that fit on one sheet and meet the constraints are worth no more than one sheet.
proof fn lemma_sheet_worth(
    pr: Pricer,
    mu: Seq<u64>,
    constraints: BranchConstraints,
    placements: Seq<Placement>,
)
    requires
        pr.wf(),
        mu.len() == pr.pieces@.len(),
        pr.pieces@.len() <= usize::MAX,
        pr.ptypes@.len() <= usize::MAX,
        housed(pr, placements),
        placed_indices(placements).no_duplicates(),
        fits(
            kinds(pr.ptypes@),
            counted(pr, placements),
            pr.sheet_w as int,
            pr.sheet_h as int,
        ),
        constraints.about(pr.ptypes@.len()),
        constraints.compatible(counted(pr, placements)),
        constraints.paired(counted(pr, placements)),
        priced_out(pr, mu, constraints),
    ensures
        sum_over(placements, worth_of(mu)) <= THRESHOLD,
{
    let n = mu.len();
    let types = kinds(pr.ptypes@);
    let keep = looked_at(pr, mu, constraints);
    let chosen = worth(keep, n, placements);
    let c = counted(pr, placements);
    let d = chosen_counts(pr.ptypes@, n, chosen);
    lemma_counted(pr, placements);
    assert forall|i: int| 0 <= i < placements.len() implies (#[trigger] placements[i]).piece_idx
        < mu.len() by {}
    assert forall|t: int| 0 <= t < c.len() implies #[trigger] d[t] <= c[t] && (constraints.ties(t)
        ==> d[t] == c[t]) by {
        let g = members(pr.ptypes@[t].copies@, n);
        lemma_worth_sum(keep, n, placements, g);
        assert forall|i: int| 0 <= i < placements.len() implies {
            let k = (#[trigger] placements[i]).piece_idx as int;
            &&& worth_weight(keep, g)(k) <= kind_weight(pr, t)(k) + 0
            &&& constraints.ties(t) ==> kind_weight(pr, t)(k) <= worth_weight(keep, g)(k) + 0
        } by {
            let k = placements[i].piece_idx as int;
            assert(has_kind(pr, k));
            if pr.ptypes@[t].copies@.contains(k as usize) {
                lemma_one_type(pr, t, kind_of(pr, k), k as usize);
            }
        }
        lemma_sum_le(placements, worth_weight(keep, g), kind_weight(pr, t), 0);
        if constraints.ties(t) {
            lemma_sum_le(placements, kind_weight(pr, t), worth_weight(keep, g), 0);
        }
        assert(sum_over(placements, kind_weight(pr, t)) >= 0);
        let none = Seq::new(n, |i: int| false);
        lemma_none_picked(g, none, n);
        lemma_picked_le(g, none, chosen, n);
    }
    assert(part_of(d, c));
    law_fits_with_fewer(types, c, d, pr.sheet_w as int, pr.sheet_h as int);
    assert(constraints.compatible(d)) by {
        assert forall|k: int| 0 <= k < constraints.forbidden@.len() implies !(d[(
        #[trigger] constraints.forbidden@[k]).0 as int] > 0 && d[
            constraints.forbidden@[k].1 as int] > 0) by {
            let pair = constraints.forbidden@[k];
            assert(pair.0 < pair.1 < pr.ptypes@.len());
            assert(d[pair.0 as int] <= c[pair.0 as int]);
            assert(d[pair.1 as int] <= c[pair.1 as int]);
        }
    }
    assert(constraints.paired(d)) by {
        assert forall|k: int| 0 <= k < constraints.forced_together@.len() implies (d[(
        #[trigger] constraints.forced_together@[k]).0 as int] > 0) == (d[
            constraints.forced_together@[k].1 as int] > 0) by {
            let pair = constraints.forced_together@[k];
            assert(pair.0 < pair.1 < pr.ptypes@.len());
            assert(constraints.ties(pair.0 as int) && constraints.ties(pair.1 as int));
            assert(d[pair.0 as int] == c[pair.0 as int]);
            assert(d[pair.1 as int] == c[pair.1 as int]);
        }
    }
    assert(eligible(pr.ptypes@, mu, constraints, chosen)) by {
        assert forall|i: int| 0 <= i < chosen.len() && #[trigger] chosen[i] implies exists|t: int|
            0 <= t < pr.ptypes@.len() && (#[trigger] pr.ptypes@[t]).copies@.contains(
                i as usize,
            ) && (mu[i] > MU_EPS || constraints.ties(t)) by {
            let j = choose|j: int|
                0 <= j < placements.len() && placed_indices(placements)[j] == i as usize;
            assert(has_kind(pr, placements[j].piece_idx as int));
            assert(pr.ptypes@[kind_of(pr, i)].copies@.contains(i as usize));
        }
    }
    assert(!improving(pr, mu, constraints, chosen));
    assert(chosen_profit(mu, chosen) <= THRESHOLD);
    let all = Seq::new(mu.len(), |i: int| mu[i] as int);
    lemma_worth_sum(keep, n, placements, all);
    lemma_sum_le(placements, worth_of(mu), worth_weight(keep, all), 0);
}

proof fn lemma_forest_worth(
    pr: Pricer,
    mu: Seq<u64>,
    constraints: BranchConstraints,
    placements: Seq<Placement>,
    f: Seq<Slicing>,
    sheet: Sheet,
)
    requires
        pr.wf(),
        mu.len() == pr.pieces@.len(),
        pr.pieces@.len() <= usize::MAX,
        pr.ptypes@.len() <= usize::MAX,
        pr.sheet_w == sheet.width,
        pr.sheet_h == sheet.height,
        housed(pr, placements),
        placed_indices(placements).no_duplicates(),
        constraints.about(pr.ptypes@.len()),
        admits(pr, constraints, placements),
        priced_out(pr, mu, constraints),
        forest_ok(f, sheet),
        f.len() <= usize::MAX + 1,
        covered_by(pr.pieces@, placements, forest_slices(f, sheet)),
    ensures
        sum_over(placements, worth_of(mu)) <= f.len() * THRESHOLD,
    decreases f.len(),
{
    let weight = worth_of(mu);
    if f.len() == 0 {
        let list = cells(pr.pieces@, placements);
        list.to_multiset_ensures();
        if placements.len() > 0 {
            assert(list.contains(list[0]));
            assert(list.to_multiset().count(list[0]) <= Multiset::<FreeRect>::empty().count(
                list[0],
            ));
        }
    } else {
        let last = sheet_cell(sheet, f.len() - 1);
        let rest = f.drop_last();
        let (p, q) = lemma_share(
            pr.pieces@,
            placements,
            forest_slices(rest, sheet),
            slices(f.last(), last),
        );
        assert forall|s: int| 0 <= s < rest.len() implies slicing_ok(
            #[trigger] rest[s],
            sheet_cell(sheet, s),
        ) by {
            assert(slicing_ok(f[s], sheet_cell(sheet, s)));
        }
        lemma_housed_part(pr, p, placements);
        lemma_housed_part(pr, q, placements);
        assert(slicing_ok(f[f.len() - 1], last));
        let s = (f.len() - 1) as usize;
        let (cp, cq) = (cells(pr.pieces@, p), cells(pr.pieces@, q));
        cp.to_multiset_ensures();
        cq.to_multiset_ensures();
        assert forall|i: int| 0 <= i < p.len() implies (#[trigger] p[i]).sheet_idx < s
            && placements.contains(p[i]) by {
            assert(cp.contains(cp[i]));
            assert(cp.to_multiset().count(cp[i]) <= forest_slices(rest, sheet).count(cp[i]));
            lemma_forest_slice(rest, sheet, cp[i]);
        }
        assert forall|i: int| 0 <= i < q.len() implies (#[trigger] q[i]).sheet_idx == s
            && placements.contains(q[i]) by {
            assert(cq.contains(cq[i]));
            assert(cq.to_multiset().count(cq[i]) <= slices(f.last(), last).count(cq[i]));
            lemma_slices_within(f.last(), last, cq[i]);
        }
        assert forall|i: int| 0 <= i < placements.len() implies p.contains(
            #[trigger] placements[i],
        ) || q.contains(placements[i]) by {
            lemma_shared(placements, p, q, i);
        }
        lemma_rest_admits(pr, constraints, placements, p, s as int);
        lemma_sheet_admits(pr, constraints, placements, q, s);
        lemma_forest_worth(pr, mu, constraints, p, rest, sheet);
        lemma_cut_fits(pr, q, f.last(), last);
        lemma_sheet_worth(pr, mu, constraints, q);
        assert(sum_over(placements, weight) == sum_over(p, weight) + sum_over(q, weight));
    }
}

/// The pieces of a cutting have types.
pub(crate) proof fn lemma_housed_cutting(
    problem: Problem,
    pr: Pricer,
    placements: Seq<Placement>,
    n: nat,
)
    requires
        pr.wf(),
        pr.pieces@ == problem.pieces@,
        pr.sheet_w == problem.sheet.width,
        pr.sheet_h == problem.sheet.height,
        complete(problem, placements),
        turned_as_allowed(problem, placements),
        packed(problem.sheet, n, cells(problem.pieces@, placements).to_multiset()),
    ensures
        housed(pr, placements),
{
    let pieces = problem.pieces@;
    let list = cells(pieces, placements);
    list.to_multiset_ensures();
    assert forall|i: int| 0 <= i < placements.len() implies {
        let pl = #[trigger] placements[i];
        &&& pl.piece_idx < pr.pieces@.len()
        &&& has_kind(pr, pl.piece_idx as int)
        &&& pl.rotated ==> pr.pieces@[pl.piece_idx as int].can_rotate
    } by {
        assert(list.contains(list[i]));
        lemma_packed_within(problem.sheet, n, list.to_multiset(), list[i]);
        let p = pieces[placements[i].piece_idx as int];
        assert(single_fits(piece_kind(p), pr.sheet_w as int, pr.sheet_h as int));
    }
}

/// Once pricing under some constraints finds nothing, the dual values bound the number of sheets
/// of every cutting of all pieces that meets them: no sheet is worth more than the threshold of
/// pricing.
pub proof fn law_dual_bound(
    problem: Problem,
    pr: Pricer,
    mu: Seq<u64>,
    constraints: BranchConstraints,
    placements: Seq<Placement>,
    n: nat,
)
    requires
        pr.wf(),
        pr.pieces@ == problem.pieces@,
        pr.sheet_w == problem.sheet.width,
        pr.sheet_h == problem.sheet.height,
        pr.ptypes@.len() <= usize::MAX,
        problem.pieces@.len() <= usize::MAX,
        mu.len() == problem.pieces@.len(),
        constraints.about(pr.ptypes@.len()),
        priced_out(pr, mu, constraints),
        complete(problem, placements),
        turned_as_allowed(problem, placements),
        admits(pr, constraints, placements),
        packed(problem.sheet, n, cells(problem.pieces@, placements).to_multiset()),
    ensures
        sum_upto(worth_of(mu), mu.len()) <= n * THRESHOLD,
{
    let pieces = problem.pieces@;
    let used = cells(pieces, placements).to_multiset();
    lemma_housed_cutting(problem, pr, placements, n);
    let f = choose|f: Seq<Slicing>|
        f.len() == n && #[trigger] forest_ok(f, problem.sheet) && used.subset_of(
            forest_slices(f, problem.sheet),
        );
    lemma_forest_worth(pr, mu, constraints, placements, f, problem.sheet);
    lemma_sum_all(placements, worth_of(mu), pieces.len());
}

/// The bound that is made from the value of the converged linear program holds for every
/// cutting that meets the constraints.
pub proof fn law_rounded_bound_holds(
    problem: Problem,
    pr: Pricer,
    mu: Seq<u64>,
    constraints: BranchConstraints,
    placements: Seq<Placement>,
    n: nat,
    z: u64,
)
    requires
        pr.wf(),
        pr.pieces@ == problem.pieces@,
        pr.sheet_w == problem.sheet.width,
        pr.sheet_h == problem.sheet.height,
        pr.ptypes@.len() <= usize::MAX,
        problem.pieces@.len() <= usize::MAX,
        mu.len() == problem.pieces@.len(),
        constraints.about(pr.ptypes@.len()),
        priced_out(pr, mu, constraints),
        complete(problem, placements),
        turned_as_allowed(problem, placements),
        admits(pr, constraints, placements),
        packed(problem.sheet, n, cells(problem.pieces@, placements).to_multiset()),
        z <= sum_upto(worth_of(mu), mu.len()),
    ensures
        rounded_bound(z) <= n,
{
    law_dual_bound(problem, pr, mu, constraints, placements, n);
    let (a, b) = (z as int, THRESHOLD as int);
    assert((a + b - 1) / b <= n) by (nonlinear_arith)
        requires
            a <= n * b,
            b > 0,
    ;
}

} // verus!
