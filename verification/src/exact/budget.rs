//! Work budgets: what is computed once is kept, so that the work on a multiset is bounded by
//! the number of its parts.

use vstd::prelude::*;
use vstd::set_lib::{lemma_len_subset, lemma_set_disjoint_lens};

use crate::gpf::table::{
    capacity, digits, law_index_then_digits, lemma_capacity_part, lemma_part_trans, part_of, total,
};

verus! {

/// Work done so far: the multisets that are known, their number, and the number of splits.
pub struct Work {
    pub known: Set<Seq<nat>>,
    pub cells: int,
    pub splits: int,
}

/// The parts of a multiset.
pub open spec fn parts(c: Seq<nat>) -> Set<Seq<nat>> {
    Set::new(|d: Seq<nat>| part_of(d, c))
}

/// The parts of a multiset that are not known.
pub open spec fn missing(w: Work, c: Seq<nat>) -> Set<Seq<nat>> {
    parts(c).difference(w.known)
}

/// The number of known multisets is right.
pub open spec fn tallied(w: Work) -> bool {
    w.known.finite() && w.cells == w.known.len()
}

/// Only parts of `c` came to be known since `before`, and no more than as many splits as `c`
/// has parts were tried for each.
pub open spec fn spent(before: Work, now: Work, c: Seq<nat>) -> bool {
    &&& tallied(before)
    &&& tallied(now)
    &&& before.known.subset_of(now.known)
    &&& now.known.subset_of(before.known.union(parts(c)))
    &&& before.splits <= now.splits <= before.splits + (now.cells - before.cells) * capacity(c)
}

/// The budgets may not be enough for a multiset: for each part that is not known a cell and as
/// many splits as there are parts, and once more for each piece.
pub open spec fn starved(w: Work, max_cells: int, max_splits: int, c: Seq<nat>) -> bool {
    ||| w.splits + (missing(w, c).len() + total(c)) * capacity(c) >= max_splits
    ||| w.cells + missing(w, c).len() > max_cells
}

/// The parts with numbers below `n`.
spec fn parts_below(c: Seq<nat>, n: nat) -> Set<Seq<nat>>
    decreases n,
{
    if n == 0 {
        Set::empty()
    } else {
        parts_below(c, (n - 1) as nat).insert(digits((n - 1) as nat, c))
    }
}

proof fn lemma_parts_below(c: Seq<nat>, n: nat)
    ensures
        parts_below(c, n).finite(),
        parts_below(c, n).len() <= n,
        forall|k: nat| k < n ==> parts_below(c, n).contains(#[trigger] digits(k, c)),
    decreases n,
{
    if n > 0 {
        lemma_parts_below(c, (n - 1) as nat);
    }
}

/// A multiset has no more parts than it has numbers for them.
pub proof fn lemma_parts(c: Seq<nat>)
    ensures
        parts(c).finite(),
        parts(c).len() <= capacity(c),
{
    let all = parts_below(c, capacity(c));
    lemma_parts_below(c, capacity(c));
    assert(parts(c).subset_of(all)) by {
        assert forall|d: Seq<nat>| parts(c).contains(d) implies all.contains(d) by {
            law_index_then_digits(d, c);
        }
    }
    lemma_len_subset(parts(c), all);
}

pub proof fn lemma_missing(w: Work, c: Seq<nat>)
    ensures
        missing(w, c).finite(),
        missing(w, c).len() <= capacity(c),
{
    lemma_parts(c);
    lemma_len_subset(missing(w, c), parts(c));
}

/// What came to be known and what parts of a part are still missing were all missing before.
pub proof fn lemma_missing_before(before: Work, now: Work, d: Seq<nat>, c: Seq<nat>)
    requires
        spent(before, now, c),
        part_of(d, c),
    ensures
        before.cells <= now.cells,
        (now.cells - before.cells) + missing(now, d).len() <= missing(before, c).len(),
{
    let fresh = now.known.difference(before.known);
    let left = missing(now, d);
    lemma_missing(before, c);
    lemma_missing(now, d);
    lemma_len_subset(fresh, now.known);
    assert(fresh.disjoint(before.known));
    lemma_set_disjoint_lens(fresh, before.known);
    assert(fresh + before.known =~= now.known);
    assert(fresh.disjoint(left));
    lemma_set_disjoint_lens(fresh, left);
    let both = fresh + left;
    assert(both.subset_of(missing(before, c))) by {
        assert forall|e: Seq<nat>| both.contains(e) implies missing(before, c).contains(e) by {
            if left.contains(e) {
                lemma_part_trans(e, d, c);
                if before.known.contains(e) {
                    assert(now.known.contains(e));
                }
            } else {
                assert(before.known.union(parts(c)).contains(e));
            }
        }
    }
    lemma_len_subset(both, missing(before, c));
}

pub proof fn lemma_spent_none(w: Work, c: Seq<nat>)
    requires
        tallied(w),
    ensures
        spent(w, w, c),
{
    assert(0 * capacity(c) == 0) by (nonlinear_arith);
}

pub proof fn lemma_spent_trans(a: Work, b: Work, e: Work, c: Seq<nat>)
    requires
        spent(a, b, c),
        spent(b, e, c),
    ensures
        spent(a, e, c),
{
    let (x, y, n) = (b.cells - a.cells, e.cells - b.cells, capacity(c) as int);
    assert((x + y) * n == x * n + y * n) by (nonlinear_arith);
    assert forall|k: Seq<nat>| e.known.contains(k) implies a.known.union(parts(c)).contains(k) by {
        assert(b.known.union(parts(c)).contains(k));
        if b.known.contains(k) {
            assert(a.known.union(parts(c)).contains(k));
        }
    }
}

/// Work on a part is work on the whole.
pub proof fn lemma_spent_wider(a: Work, b: Work, d: Seq<nat>, c: Seq<nat>)
    requires
        spent(a, b, d),
        part_of(d, c),
    ensures
        spent(a, b, c),
{
    lemma_capacity_part(d, c);
    lemma_len_subset(a.known, b.known);
    let x = b.cells - a.cells;
    let (m, n) = (capacity(d) as int, capacity(c) as int);
    assert(x * m <= x * n) by (nonlinear_arith)
        requires
            x >= 0,
            m <= n,
    ;
    assert forall|k: Seq<nat>| b.known.contains(k) implies a.known.union(parts(c)).contains(k) by {
        assert(a.known.union(parts(d)).contains(k));
        if parts(d).contains(k) {
            lemma_part_trans(k, d, c);
        }
    }
}

/// What is not enough for a part after some work was not enough for the whole before it. `own`
/// counts splits of the whole itself, which has a piece more than the part if there are any.
pub proof fn lemma_starved_before(
    before: Work,
    now: Work,
    own: int,
    max_cells: int,
    max_splits: int,
    d: Seq<nat>,
    c: Seq<nat>,
)
    requires
        0 <= own <= now.splits,
        spent(before, Work { splits: now.splits - own, ..now }, c),
        part_of(d, c),
        own == 0 || (own <= capacity(c) && total(d) < total(c)),
        total(d) <= total(c),
        starved(now, max_cells, max_splits, d),
    ensures
        starved(before, max_cells, max_splits, c),
{
    let mid = Work { splits: now.splits - own, ..now };
    lemma_missing_before(before, mid, d, c);
    assert(missing(mid, d) =~= missing(now, d));
    lemma_capacity_part(d, c);
    let x = now.cells - before.cells;
    let (u, v) = (missing(now, d).len() as int, missing(before, c).len() as int);
    let (m, n) = (capacity(d) as int, capacity(c) as int);
    let (s, t) = (total(d) as int, total(c) as int);
    if now.splits + (u + s) * m >= max_splits {
        assert((u + s) * m <= (u + s) * n) by (nonlinear_arith)
            requires
                u + s >= 0,
                m <= n,
        ;
        assert(x * n + own + (u + s) * n <= (v + t) * n) by (nonlinear_arith)
            requires
                x + u <= v,
                own == 0 || (own <= n && s < t),
                s <= t,
                n >= 0,
        ;
    }
}

/// A limit that is reached while the whole is worked on was not enough.
pub proof fn lemma_starved_here(
    before: Work,
    now: Work,
    own: int,
    max_cells: int,
    max_splits: int,
    c: Seq<nat>,
)
    requires
        0 <= own <= capacity(c),
        own <= now.splits,
        spent(before, Work { splits: now.splits - own, ..now }, c),
        total(c) > 0,
        now.splits >= max_splits || (now.cells >= max_cells && !now.known.contains(c)),
    ensures
        starved(before, max_cells, max_splits, c),
{
    let mid = Work { splits: now.splits - own, ..now };
    assert(part_of(c, c));
    lemma_missing_before(before, mid, c, c);
    let x = now.cells - before.cells;
    let (u, v) = (missing(mid, c).len() as int, missing(before, c).len() as int);
    let (n, t) = (capacity(c) as int, total(c) as int);
    if now.splits >= max_splits {
        assert(x * n + own <= (v + t) * n) by (nonlinear_arith)
            requires
                x <= v,
                own <= n,
                t >= 1,
                n >= 0,
                x >= 0,
        ;
    } else {
        lemma_missing(mid, c);
        assert(missing(mid, c).contains(c));
        if u == 0 {
            assert(missing(mid, c) =~= Set::empty());
        }
    }
}

} // verus!
