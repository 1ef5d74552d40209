//! Crossing two orders of the same keys.

use vstd::prelude::*;

use crate::laying::ahead;

verus! {

/// Which parent an item of a child comes from, and from which position.
#[derive(Debug, Clone, Copy, PartialEq, Eq, Structural)]
pub struct Source {
    pub second: bool,
    pub pos: usize,
}

/// Two orders of the same keys.
pub open spec fn same_keys(a: Seq<usize>, b: Seq<usize>) -> bool {
    &&& a.len() == b.len()
    &&& a.no_duplicates()
    &&& b.no_duplicates()
    &&& forall|v: usize| a.contains(v) <==> b.contains(v)
}

/// The key that a source stands for.
pub open spec fn key_at(a: Seq<usize>, b: Seq<usize>, s: Source) -> usize {
    if s.second {
        b[s.pos as int]
    } else {
        a[s.pos as int]
    }
}

/// The keys of a child.
pub open spec fn child_keys(a: Seq<usize>, b: Seq<usize>, plan: Seq<Source>) -> Seq<usize> {
    Seq::new(plan.len(), |i: int| key_at(a, b, plan[i]))
}

/// Every source names a position.
pub open spec fn sound_plan(n: nat, plan: Seq<Source>) -> bool {
    plan.len() == n && forall|i: int| 0 <= i < plan.len() ==> (#[trigger] plan[i]).pos < n
}

/// Key `v` is in the segment `[lo, hi)`.
pub open spec fn in_segment(a: Seq<usize>, lo: int, hi: int, v: usize) -> bool {
    exists|i: int| lo <= i < hi && #[trigger] a[i] == v
}

/// Position number `i` from `hi` on, round the end.
pub open spec fn wrapped(hi: int, i: int, n: int) -> int {
    if hi + i < n {
        hi + i
    } else {
        hi + i - n
    }
}

/// The positions of the filler among the first `k` from `hi` on, round the end, whose keys are
/// not in the segment of the donor.
pub open spec fn fill_positions(
    donor: Seq<usize>,
    filler: Seq<usize>,
    lo: int,
    hi: int,
    k: nat,
) -> Seq<int>
    decreases k,
{
    if k == 0 {
        Seq::empty()
    } else {
        let rest = fill_positions(donor, filler, lo, hi, (k - 1) as nat);
        let p = wrapped(hi, k - 1, filler.len() as int);
        if in_segment(donor, lo, hi, filler[p]) {
            rest
        } else {
            rest.push(p)
        }
    }
}

/// Ordered crossover: the segment comes from the donor; behind it, round the end, the other
/// keys follow in the order in which the filler has them from `hi` on.
pub open spec fn ox_plan(donor: Seq<usize>, filler: Seq<usize>, lo: int, hi: int) -> Seq<Source> {
    let n = donor.len() as int;
    let fill = fill_positions(donor, filler, lo, hi, donor.len());
    Seq::new(
        donor.len(),
        |p: int|
            if lo <= p < hi {
                Source { second: false, pos: p as usize }
            } else if p >= hi {
                Source { second: true, pos: fill[p - hi] as usize }
            } else {
                Source { second: true, pos: fill[n - hi + p] as usize }
            },
    )
}

/// The filled-in keys: different positions of the filler, none with a key of the segment.
proof fn lemma_fill(donor: Seq<usize>, filler: Seq<usize>, lo: int, hi: int, k: nat)
    requires
        donor.len() == filler.len(),
        0 <= lo <= hi <= donor.len(),
        k <= filler.len(),
    ensures
        ({
            let f = fill_positions(donor, filler, lo, hi, k);
            &&& forall|i: int|
                0 <= i < f.len() ==> {
                    &&& 0 <= #[trigger] f[i] < filler.len()
                    &&& !in_segment(donor, lo, hi, filler[f[i]])
                    &&& exists|j: int|
                        0 <= j < k && f[i] == #[trigger] wrapped(hi, j, filler.len() as int)
                }
            &&& forall|i: int, j: int| 0 <= i < j < f.len() ==> f[i] != f[j]
            &&& forall|j: int|
                0 <= j < k && !in_segment(
                    donor,
                    lo,
                    hi,
                    filler[#[trigger] wrapped(hi, j, filler.len() as int)],
                ) ==> f.contains(wrapped(hi, j, filler.len() as int))
        }),
    decreases k,
{
    if k > 0 {
        let n = filler.len() as int;
        let m = (k - 1) as nat;
        lemma_fill(donor, filler, lo, hi, m);
        let g = fill_positions(donor, filler, lo, hi, m);
        let f = fill_positions(donor, filler, lo, hi, k);
        let p = wrapped(hi, k - 1, n);
        assert forall|i: int| 0 <= i < f.len() implies {
            &&& 0 <= #[trigger] f[i] < filler.len()
            &&& !in_segment(donor, lo, hi, filler[f[i]])
            &&& exists|j: int| 0 <= j < k && f[i] == #[trigger] wrapped(hi, j, n)
        } by {
            if i < g.len() {
                assert(f[i] == g[i]);
                let j = choose|j: int| 0 <= j < m && g[i] == #[trigger] wrapped(hi, j, n);
                assert(f[i] == wrapped(hi, j, n));
            } else {
                assert(f[i] == wrapped(hi, k - 1, n));
            }
        }
        assert forall|i: int, j: int| 0 <= i < j < f.len() implies f[i] != f[j] by {
            if j == g.len() {
                assert(f[i] == g[i]);
                let q = choose|q: int| 0 <= q < m && g[i] == #[trigger] wrapped(hi, q, n);
                assert(wrapped(hi, q, n) != wrapped(hi, k - 1, n));
            } else {
                assert(g[i] != g[j]);
            }
        }
        assert forall|j: int|
            0 <= j < k && !in_segment(
                donor,
                lo,
                hi,
                filler[#[trigger] wrapped(hi, j, n)],
            ) implies f.contains(wrapped(hi, j, n)) by {
            if j < m {
                assert(g.contains(wrapped(hi, j, n)));
                let i = choose|i: int| 0 <= i < g.len() && g[i] == wrapped(hi, j, n);
                assert(f[i] == g[i]);
            } else {
                assert(f[f.len() - 1] == p);
            }
        }
    }
}

/// As many keys are filled in as the segment leaves open.
proof fn lemma_fill_len(donor: Seq<usize>, filler: Seq<usize>, lo: int, hi: int)
    requires
        same_keys(donor, filler),
        0 <= lo <= hi <= donor.len(),
    ensures
        fill_positions(donor, filler, lo, hi, donor.len()).len() == donor.len() - (hi - lo),
{
    let n = donor.len();
    let f = fill_positions(donor, filler, lo, hi, n);
    lemma_fill(donor, filler, lo, hi, n);
    let rest = Seq::new(f.len(), |i: int| filler[f[i]]);
    let seg = donor.subrange(lo, hi);
    let all = seg + rest;
    assert(all.no_duplicates()) by {
        assert forall|i: int, j: int| 0 <= i < j < all.len() implies all[i] != all[j] by {
            if j < seg.len() {
                assert(donor[lo + i] != donor[lo + j]);
            } else if i < seg.len() {
                assert(donor[lo + i] == all[i]);
                let q = f[j - seg.len()];
                assert(!in_segment(donor, lo, hi, filler[q]));
                if donor[lo + i] == filler[q] {
                    assert(in_segment(donor, lo, hi, filler[q]));
                }
            } else {
                let (a, b) = (f[i - seg.len()], f[j - seg.len()]);
                assert(a != b);
                assert(filler[a] != filler[b]);
            }
        }
    }
    assert forall|v: usize| #[trigger] all.contains(v) <==> donor.contains(v) by {
        if all.contains(v) {
            let i = choose|i: int| 0 <= i < all.len() && all[i] == v;
            if i < seg.len() {
                assert(donor[lo + i] == v);
            } else {
                assert(filler[f[i - seg.len()]] == v);
                assert(filler.contains(v));
            }
        }
        if donor.contains(v) {
            assert(filler.contains(v));
            let q = choose|q: int| 0 <= q < filler.len() && filler[q] == v;
            if in_segment(donor, lo, hi, v) {
                let i = choose|i: int| lo <= i < hi && #[trigger] donor[i] == v;
                assert(all[i - lo] == v);
            } else {
                let j = if q >= hi {
                    q - hi
                } else {
                    q - hi + n
                };
                assert(wrapped(hi, j, n as int) == q);
                assert(f.contains(q));
                let i = choose|i: int| 0 <= i < f.len() && f[i] == q;
                assert(all[seg.len() + i] == v);
            }
        }
    }
    all.unique_seq_to_set();
    donor.unique_seq_to_set();
    assert(all.to_set() =~= donor.to_set());
}

/// The child of an ordered crossover has the keys of its parents, each once, and keeps the
/// segment of the donor.
pub proof fn law_ox_keeps_keys(donor: Seq<usize>, filler: Seq<usize>, lo: int, hi: int)
    requires
        same_keys(donor, filler),
        0 <= lo <= hi <= donor.len() <= usize::MAX,
    ensures
        sound_plan(donor.len(), ox_plan(donor, filler, lo, hi)),
        same_keys(donor, child_keys(donor, filler, ox_plan(donor, filler, lo, hi))),
        forall|p: int|
            lo <= p < hi ==> #[trigger] child_keys(
                donor,
                filler,
                ox_plan(donor, filler, lo, hi),
            )[p] == donor[p],
{
    let n = donor.len();
    let f = fill_positions(donor, filler, lo, hi, n);
    lemma_fill(donor, filler, lo, hi, n);
    lemma_fill_len(donor, filler, lo, hi);
    let plan = ox_plan(donor, filler, lo, hi);
    let c = child_keys(donor, filler, plan);
    assert forall|p: int| 0 <= p < n implies (#[trigger] plan[p]).pos < n && (if lo <= p < hi {
        c[p] == donor[p]
    } else {
        c[p] == filler[f[if p >= hi {
            p - hi
        } else {
            n - hi + p
        }]]
    }) by {
        if !(lo <= p < hi) {
            let i = if p >= hi {
                p - hi
            } else {
                n - hi + p
            };
            assert(0 <= f[i] < n);
        }
    }
    assert(c.no_duplicates()) by {
        assert forall|i: int, j: int| 0 <= i < n && 0 <= j < n && i != j implies c[i] != c[j] by {
            assert(plan[i].pos < n && plan[j].pos < n);
            let (a, b) = (
                if i >= hi {
                    i - hi
                } else {
                    n - hi + i
                },
                if j >= hi {
                    j - hi
                } else {
                    n - hi + j
                },
            );
            if lo <= i < hi {
                if lo <= j < hi {
                    assert(donor[i] != donor[j]);
                } else {
                    assert(!in_segment(donor, lo, hi, filler[f[b]]));
                    if donor[i] == filler[f[b]] {
                        assert(in_segment(donor, lo, hi, filler[f[b]]));
                    }
                }
            } else if lo <= j < hi {
                assert(!in_segment(donor, lo, hi, filler[f[a]]));
                if donor[j] == filler[f[a]] {
                    assert(in_segment(donor, lo, hi, filler[f[a]]));
                }
            } else {
                assert(a != b);
                if a < b {
                    assert(f[a] != f[b]);
                } else {
                    assert(f[b] != f[a]);
                }
                assert(0 <= f[a] < n && 0 <= f[b] < n);
                assert(filler[f[a]] != filler[f[b]]);
            }
        }
    }
    assert forall|v: usize| #[trigger] c.contains(v) implies donor.contains(v) by {
        let i = choose|i: int| 0 <= i < c.len() && c[i] == v;
        assert(plan[i].pos < n);
        if lo <= i < hi {
            assert(donor[i] == v);
        } else {
            let a = if i >= hi {
                i - hi
            } else {
                n - hi + i
            };
            assert(0 <= f[a] < n);
            assert(filler[f[a]] == v);
            assert(filler.contains(v));
        }
    }
    lemma_same_size_same_items(c, donor);
}

/// A list without repetition whose items are all in another of the same length without
/// repetition has the same items.
pub proof fn lemma_same_size_same_items(c: Seq<usize>, d: Seq<usize>)
    requires
        c.len() == d.len(),
        c.no_duplicates(),
        d.no_duplicates(),
        forall|v: usize| #[trigger] c.contains(v) ==> d.contains(v),
    ensures
        forall|v: usize| c.contains(v) <==> d.contains(v),
{
    c.unique_seq_to_set();
    d.unique_seq_to_set();
    assert(c.to_set().subset_of(d.to_set()));
    vstd::set_lib::lemma_subset_equality(c.to_set(), d.to_set());
    assert forall|v: usize| c.contains(v) <==> d.contains(v) by {
        assert(c.to_set().contains(v) <==> d.to_set().contains(v));
    }
}

/// Where ordered crossover takes the items of a child from.
pub fn plan_ox(donor: &Vec<usize>, filler: &Vec<usize>, lo: usize, hi: usize) -> (plan: Vec<
    Source,
>)
    requires
        same_keys(donor@, filler@),
        lo <= hi <= donor@.len(),
    ensures
        plan@ == ox_plan(donor@, filler@, lo as int, hi as int),
        sound_plan(donor@.len(), plan@),
        same_keys(donor@, child_keys(donor@, filler@, plan@)),
{
    let n: usize = donor.len();
    let mut fill: Vec<usize> = Vec::new();
    let mut k: usize = 0;
    proof {
        lemma_fill(donor@, filler@, lo as int, hi as int, 0);
    }
    while k < n
        invariant
            k <= n,
            n == donor@.len(),
            n == filler@.len(),
            lo <= hi <= n,
            fill@.map_values(|p: usize| p as int) =~= fill_positions(
                donor@,
                filler@,
                lo as int,
                hi as int,
                k as nat,
            ),
        decreases n - k,
    {
        let p: usize = if k < n - hi {
            hi + k
        } else {
            k - (n - hi)
        };
        let v: usize = filler[p];
        let mut found = false;
        let mut i: usize = lo;
        while i < hi
            invariant
                lo <= i <= hi <= donor@.len(),
                found <==> exists|q: int| lo <= q < i && #[trigger] donor@[q] == v,
            decreases hi - i,
        {
            if donor[i] == v {
                found = true;
            }
            i += 1;
        }
        assert(found == in_segment(donor@, lo as int, hi as int, v));
        if !found {
            fill.push(p);
        }
        k += 1;
    }
    proof {
        law_ox_keeps_keys(donor@, filler@, lo as int, hi as int);
        lemma_fill_len(donor@, filler@, lo as int, hi as int);
        lemma_fill(donor@, filler@, lo as int, hi as int, n as nat);
    }
    let ghost f = fill_positions(donor@, filler@, lo as int, hi as int, n as nat);
    assert(fill@.len() == f.len());
    assert forall|i: int| 0 <= i < fill@.len() implies #[trigger] fill@[i] == f[i] by {
        assert(fill@.map_values(|p: usize| p as int)[i] == f[i]);
    }
    let mut plan: Vec<Source> = Vec::new();
    let mut p: usize = 0;
    while p < n
        invariant
            p <= n,
            n == donor@.len(),
            lo <= hi <= n,
            f == fill_positions(donor@, filler@, lo as int, hi as int, n as nat),
            fill@.len() == f.len(),
            f.len() == n - (hi - lo),
            forall|i: int| 0 <= i < fill@.len() ==> #[trigger] fill@[i] == f[i],
            plan@.len() == p,
            forall|i: int|
                0 <= i < p ==> plan@[i] == ox_plan(donor@, filler@, lo as int, hi as int)[i],
        decreases n - p,
    {
        if lo <= p && p < hi {
            plan.push(Source { second: false, pos: p });
        } else if p >= hi {
            plan.push(Source { second: true, pos: fill[p - hi] });
        } else {
            plan.push(Source { second: true, pos: fill[n - hi + p] });
        }
        p += 1;
    }
    assert(plan@ =~= ox_plan(donor@, filler@, lo as int, hi as int));
    plan
}

/// The position of a key.
pub open spec fn position_of(a: Seq<usize>, v: usize) -> int {
    choose|i: int| 0 <= i < a.len() && a[i] == v
}

/// The position that a cycle goes on at: where the first order has the key that the second has
/// here.
pub open spec fn next_in_cycle(a: Seq<usize>, b: Seq<usize>, p: int) -> int {
    position_of(a, b[p])
}

proof fn lemma_next(a: Seq<usize>, b: Seq<usize>, p: int)
    requires
        same_keys(a, b),
        0 <= p < a.len(),
    ensures
        0 <= next_in_cycle(a, b, p) < a.len(),
        a[next_in_cycle(a, b, p)] == b[p],
        forall|i: int| 0 <= i < a.len() && #[trigger] a[i] == b[p] ==> i == next_in_cycle(a, b, p),
        forall|q: int|
            0 <= q < a.len() && #[trigger] next_in_cycle(a, b, q) == next_in_cycle(a, b, p)
                ==> q == p,
{
    assert(b.contains(b[p]));
    assert(a.contains(b[p]));
    let n = next_in_cycle(a, b, p);
    assert forall|i: int| 0 <= i < a.len() && #[trigger] a[i] == b[p] implies i == n by {
        if i != n {
            assert(a[i] != a[n]);
        }
    }
    assert forall|q: int|
        0 <= q < a.len() && #[trigger] next_in_cycle(a, b, q) == n implies q == p by {
        assert(b.contains(b[q]));
        assert(a.contains(b[q]));
        assert(a[n] == b[q]);
        if q != p {
            assert(b[q] != b[p]);
        }
    }
}

/// Cycles while they are traced: visited positions, and those on cycles of odd number.
pub struct Cycles {
    pub visited: Seq<bool>,
    pub odd: Seq<bool>,
}

pub open spec fn unvisited(v: Seq<bool>) -> nat
    decreases v.len(),
{
    if v.len() == 0 {
        0
    } else {
        unvisited(v.drop_last()) + if v.last() {
            0nat
        } else {
            1nat
        }
    }
}

proof fn lemma_unvisited(v: Seq<bool>, p: int)
    requires
        0 <= p < v.len(),
        !v[p],
    ensures
        unvisited(v.update(p, true)) == unvisited(v) - 1,
        unvisited(v) > 0,
    decreases v.len(),
{
    let u = v.update(p, true);
    if p < v.len() - 1 {
        lemma_unvisited(v.drop_last(), p);
        assert(u.drop_last() =~= v.drop_last().update(p, true));
    } else {
        assert(u.drop_last() =~= v.drop_last());
    }
}

/// Traces the cycle from `pos` on, up to a position that is visited already.
pub open spec fn trace(a: Seq<usize>, b: Seq<usize>, st: Cycles, pos: int, odd: bool) -> Cycles
    decreases unvisited(st.visited),
{
    if !(0 <= pos < st.visited.len()) || st.visited[pos] {
        st
    } else {
        let st2 = Cycles { visited: st.visited.update(pos, true), odd: st.odd.update(pos, odd) };
        if unvisited(st2.visited) < unvisited(st.visited) {
            trace(a, b, st2, next_in_cycle(a, b, pos), odd)
        } else {
            st2
        }
    }
}

/// Traces all cycles that begin at one of the first `k` positions; cycles are even and odd in
/// turn.
pub open spec fn trace_all(a: Seq<usize>, b: Seq<usize>, k: nat) -> (Cycles, bool)
    decreases k,
{
    if k == 0 {
        (
            Cycles {
                visited: Seq::new(a.len(), |i: int| false),
                odd: Seq::new(a.len(), |i: int| false),
            },
            false,
        )
    } else {
        let (st, odd) = trace_all(a, b, (k - 1) as nat);
        if st.visited[k - 1] {
            (st, odd)
        } else {
            (trace(a, b, st, k - 1, odd), !odd)
        }
    }
}

/// Positions on cycles of odd number, cycles numbered from 0 by their first position.
pub open spec fn odd_cycles(a: Seq<usize>, b: Seq<usize>) -> Seq<bool> {
    trace_all(a, b, a.len()).0.odd
}

/// Whole cycles are visited, and all positions of a cycle are of one parity.
spec fn cycles_closed(a: Seq<usize>, b: Seq<usize>, st: Cycles) -> bool {
    &&& st.visited.len() == a.len()
    &&& st.odd.len() == a.len()
    &&& forall|p: int|
        0 <= p < a.len() ==> {
            &&& #[trigger] st.visited[p] == st.visited[next_in_cycle(a, b, p)]
            &&& st.visited[p] ==> st.odd[p] == st.odd[next_in_cycle(a, b, p)]
        }
}

/// What holds while a cycle that began at `start` is traced and `pos` comes next.
spec fn tracing(a: Seq<usize>, b: Seq<usize>, st: Cycles, start: int, pos: int, odd: bool) -> bool {
    &&& st.visited.len() == a.len()
    &&& st.odd.len() == a.len()
    &&& 0 <= start < a.len()
    &&& 0 <= pos < a.len()
    &&& !st.visited[pos]
    &&& pos != start ==> st.visited[start] && st.odd[start] == odd
    &&& forall|p: int|
        0 <= p < a.len() && #[trigger] next_in_cycle(a, b, p) != start
            && st.visited[next_in_cycle(a, b, p)] ==> st.visited[p]
    &&& forall|p: int|
        0 <= p < a.len() && #[trigger] st.visited[p] ==> {
            ||| next_in_cycle(a, b, p) == pos && st.odd[p] == odd && pos != start
            ||| st.visited[next_in_cycle(a, b, p)] && st.odd[p] == st.odd[next_in_cycle(a, b, p)]
        }
    &&& pos != start ==> exists|p: int|
        0 <= p < a.len() && #[trigger] next_in_cycle(a, b, p) == pos && st.visited[p]
    &&& pos == start ==> forall|p: int|
        0 <= p < a.len() && #[trigger] next_in_cycle(a, b, p) == start ==> !st.visited[p]
}

/// One step of a trace: the cycle closes, or goes on at a position that is not visited.
proof fn lemma_trace_step(
    a: Seq<usize>,
    b: Seq<usize>,
    st: Cycles,
    start: int,
    pos: int,
    odd: bool,
)
    requires
        same_keys(a, b),
        tracing(a, b, st, start, pos, odd),
    ensures
        ({
            let st2 = Cycles {
                visited: st.visited.update(pos, true),
                odd: st.odd.update(pos, odd),
            };
            let q = next_in_cycle(a, b, pos);
            &&& q == start ==> cycles_closed(a, b, st2)
            &&& q != start ==> !st2.visited[q] && tracing(a, b, st2, start, q, odd)
            &&& unvisited(st2.visited) == unvisited(st.visited) - 1
            &&& st2.visited[start]
        }),
{
    let st2 = Cycles { visited: st.visited.update(pos, true), odd: st.odd.update(pos, odd) };
    let q = next_in_cycle(a, b, pos);
    lemma_unvisited(st.visited, pos);
    lemma_next(a, b, pos);
    assert forall|p: int| 0 <= p < a.len() implies 0 <= #[trigger] next_in_cycle(a, b, p)
        < a.len() by {
        lemma_next(a, b, p);
    }
    if q == start {
        assert forall|p: int| 0 <= p < a.len() implies {
            &&& #[trigger] st2.visited[p] == st2.visited[next_in_cycle(a, b, p)]
            &&& st2.visited[p] ==> st2.odd[p] == st2.odd[next_in_cycle(a, b, p)]
        } by {
            let r = next_in_cycle(a, b, p);
            lemma_next(a, b, p);
            if p != pos {
                if st.visited[p] {
                    if r == pos {
                    } else {
                        assert(st.visited[r]);
                    }
                }
                if st2.visited[r] && !st.visited[p] {
                    if r == start {
                        assert(p == pos);
                    } else if r == pos {
                        let w = choose|w: int|
                            0 <= w < a.len() && #[trigger] next_in_cycle(a, b, w) == pos
                                && st.visited[w];
                        assert(w == p);
                    } else {
                        assert(st.visited[p]);
                    }
                }
            }
        }
    } else {
        if st.visited[q] {
            assert(st.visited[pos]);
        }
        if q == pos {
            // A position whose successor is itself is its own predecessor.
            if pos != start {
                let w = choose|w: int|
                    0 <= w < a.len() && #[trigger] next_in_cycle(a, b, w) == pos && st.visited[w];
                lemma_next(a, b, w);
                assert(w == pos);
            }
        }
        assert forall|p: int|
            0 <= p < a.len() && #[trigger] next_in_cycle(a, b, p) != start
                && st2.visited[next_in_cycle(a, b, p)] implies st2.visited[p] by {
            let r = next_in_cycle(a, b, p);
            if r == pos {
                let w = choose|w: int|
                    0 <= w < a.len() && #[trigger] next_in_cycle(a, b, w) == pos && st.visited[w];
                lemma_next(a, b, w);
                assert(w == p);
            } else {
                assert(st.visited[p]);
            }
        }
        assert forall|p: int| 0 <= p < a.len() && #[trigger] st2.visited[p] implies {
            ||| next_in_cycle(a, b, p) == q && st2.odd[p] == odd && q != start
            ||| st2.visited[next_in_cycle(a, b, p)] && st2.odd[p] == st2.odd[next_in_cycle(a, b, p)]
        } by {
            if p != pos {
                assert(st.visited[p]);
            }
        }
        assert(next_in_cycle(a, b, pos) == q && st2.visited[pos]);
    }
}

proof fn lemma_start_tracing(a: Seq<usize>, b: Seq<usize>, st: Cycles, start: int, odd: bool)
    requires
        same_keys(a, b),
        cycles_closed(a, b, st),
        0 <= start < a.len(),
        !st.visited[start],
    ensures
        tracing(a, b, st, start, start, odd),
{
    assert forall|p: int|
        0 <= p < a.len() && #[trigger] next_in_cycle(a, b, p) != start
            && st.visited[next_in_cycle(a, b, p)] implies st.visited[p] by {
        assert(st.visited[p] == st.visited[next_in_cycle(a, b, p)]);
    }
    assert forall|p: int|
        0 <= p < a.len() && #[trigger] next_in_cycle(a, b, p) == start implies !st.visited[p] by {
        assert(st.visited[p] == st.visited[next_in_cycle(a, b, p)]);
    }
}

/// The children of a cycle crossover have the keys of their parents, each once.
pub proof fn law_cx_keeps_keys(a: Seq<usize>, b: Seq<usize>, odd: Seq<bool>)
    requires
        same_keys(a, b),
        odd.len() == a.len(),
        a.len() <= usize::MAX,
        forall|p: int|
            0 <= p < a.len() ==> #[trigger] odd[p] == odd[next_in_cycle(a, b, p)],
    ensures
        same_keys(
            a,
            Seq::new(
                a.len(),
                |i: int|
                    if odd[i] {
                        b[i]
                    } else {
                        a[i]
                    },
            ),
        ),
        same_keys(
            a,
            Seq::new(
                a.len(),
                |i: int|
                    if odd[i] {
                        a[i]
                    } else {
                        b[i]
                    },
            ),
        ),
{
    let c = Seq::new(
        a.len(),
        |i: int|
            if odd[i] {
                b[i]
            } else {
                a[i]
            },
    );
    let d = Seq::new(
        a.len(),
        |i: int|
            if odd[i] {
                a[i]
            } else {
                b[i]
            },
    );
    assert forall|p: int, q: int|
        0 <= p < a.len() && 0 <= q < a.len() && #[trigger] a[p] == #[trigger] b[q] implies odd[p]
        == odd[q] by {
        lemma_next(a, b, q);
        assert(p == next_in_cycle(a, b, q));
    }
    assert forall|i: int, j: int| 0 <= i < a.len() && 0 <= j < a.len() && i != j implies c[i]
        != c[j] && d[i] != d[j] by {
        assert(a[i] != a[j]);
        assert(b[i] != b[j]);
        if a[i] == b[j] {
            assert(odd[i] == odd[j]);
        }
        if a[j] == b[i] {
            assert(odd[j] == odd[i]);
        }
    }
    assert forall|v: usize| #[trigger] c.contains(v) implies a.contains(v) by {
        let i = choose|i: int| 0 <= i < c.len() && c[i] == v;
        if odd[i] {
            assert(b.contains(b[i]));
        } else {
            assert(a.contains(a[i]));
        }
    }
    assert forall|v: usize| #[trigger] d.contains(v) implies a.contains(v) by {
        let i = choose|i: int| 0 <= i < d.len() && d[i] == v;
        if odd[i] {
            assert(a.contains(a[i]));
        } else {
            assert(b.contains(b[i]));
        }
    }
    lemma_same_size_same_items(c, a);
    lemma_same_size_same_items(d, a);
}

/// Positions on cycles of odd number.
pub fn find_odd_cycles(a: &Vec<usize>, b: &Vec<usize>) -> (odd: Vec<bool>)
    requires
        same_keys(a@, b@),
    ensures
        odd@ == odd_cycles(a@, b@),
        odd@.len() == a@.len(),
        forall|p: int|
            0 <= p < a@.len() ==> #[trigger] odd@[p] == odd@[next_in_cycle(a@, b@, p)],
{
    let n: usize = a.len();
    let mut next: Vec<usize> = Vec::new();
    let mut k: usize = 0;
    while k < n
        invariant
            k <= n,
            n == a@.len(),
            same_keys(a@, b@),
            next@.len() == k,
            forall|i: int| 0 <= i < k ==> #[trigger] next@[i] == next_in_cycle(a@, b@, i),
        decreases n - k,
    {
        let v: usize = b[k];
        proof {
            lemma_next(a@, b@, k as int);
        }
        let mut i: usize = 0;
        while a[i] != v
            invariant
                i <= next_in_cycle(a@, b@, k as int) < n,
                n == a@.len(),
                v == b@[k as int],
                a@[next_in_cycle(a@, b@, k as int)] == v,
            decreases n - i,
        {
            i += 1;
        }
        next.push(i);
        k += 1;
    }
    let mut visited: Vec<bool> = vec![false; n];
    let mut labels: Vec<bool> = vec![false; n];
    let mut odd = false;
    let mut start: usize = 0;
    proof {
        let st = trace_all(a@, b@, 0).0;
        assert(visited@ =~= st.visited);
        assert(labels@ =~= st.odd);
        assert forall|p: int| 0 <= p < n implies 0 <= #[trigger] next_in_cycle(a@, b@, p) < n by {
            lemma_next(a@, b@, p);
        }
    }
    while start < n
        invariant
            start <= n,
            n == a@.len(),
            same_keys(a@, b@),
            next@.len() == n,
            forall|i: int| 0 <= i < n ==> #[trigger] next@[i] == next_in_cycle(a@, b@, i),
            visited@ == trace_all(a@, b@, start as nat).0.visited,
            labels@ == trace_all(a@, b@, start as nat).0.odd,
            odd == trace_all(a@, b@, start as nat).1,
            cycles_closed(a@, b@, trace_all(a@, b@, start as nat).0),
            forall|i: int| 0 <= i < start ==> #[trigger] visited@[i],
        decreases n - start,
    {
        if !visited[start] {
            let ghost st0 = trace_all(a@, b@, start as nat).0;
            let mut pos: usize = start;
            let mut open = true;
            proof {
                lemma_start_tracing(a@, b@, st0, start as int, odd);
            }
            while open
                invariant
                    start < n,
                    n == a@.len(),
                    same_keys(a@, b@),
                    next@.len() == n,
                    forall|i: int| 0 <= i < n ==> #[trigger] next@[i] == next_in_cycle(a@, b@, i),
                    visited@.len() == n,
                    labels@.len() == n,
                    open ==> tracing(
                        a@,
                        b@,
                        (Cycles { visited: visited@, odd: labels@ }),
                        start as int,
                        pos as int,
                        odd,
                    ),
                    !open ==> cycles_closed(
                        a@,
                        b@,
                        (Cycles { visited: visited@, odd: labels@ }),
                    ),
                    !open ==> visited@[start as int],
                    trace(a@, b@, st0, start as int, odd) == (if open {
                        trace(
                            a@,
                            b@,
                            (Cycles { visited: visited@, odd: labels@ }),
                            pos as int,
                            odd,
                        )
                    } else {
                        (Cycles { visited: visited@, odd: labels@ })
                    }),
                    forall|i: int| 0 <= i < start ==> #[trigger] visited@[i],
                decreases
                    unvisited(visited@),
                    (if open {
                        1int
                    } else {
                        0int
                    }),
            {
                let ghost st = Cycles { visited: visited@, odd: labels@ };
                proof {
                    lemma_trace_step(a@, b@, st, start as int, pos as int, odd);
                }
                visited.set(pos, true);
                labels.set(pos, odd);
                let ghost st2 = Cycles { visited: visited@, odd: labels@ };
                assert(st2.visited =~= st.visited.update(pos as int, true));
                assert(st2.odd =~= st.odd.update(pos as int, odd));
                pos = next[pos];
                if pos == start {
                    open = false;
                    assert(trace(a@, b@, st2, pos as int, odd) == st2);
                }
            }
            odd = !odd;
        }
        start += 1;
    }
    proof {
        let st = trace_all(a@, b@, n as nat).0;
        assert forall|p: int| 0 <= p < n implies #[trigger] labels@[p] == labels@[next_in_cycle(
            a@,
            b@,
            p,
        )] by {
            assert(st.visited[p] == st.visited[next_in_cycle(a@, b@, p)]);
            assert(visited@[p]);
        }
    }
    labels
}

/// The list with two items exchanged.
pub open spec fn exchanged<T>(s: Seq<T>, i: int, j: int) -> Seq<T> {
    s.update(i, s[j]).update(j, s[i])
}

/// An exchange keeps the keys.
pub proof fn lemma_exchanged_keys(s: Seq<usize>, i: int, j: int)
    requires
        s.no_duplicates(),
        0 <= i < s.len(),
        0 <= j < s.len(),
    ensures
        same_keys(s, exchanged(s, i, j)),
{
    let t = exchanged(s, i, j);
    assert forall|v: usize| s.contains(v) <==> t.contains(v) by {
        if s.contains(v) {
            let k = choose|k: int| 0 <= k < s.len() && s[k] == v;
            if k == i {
                assert(t[j] == v);
            } else if k == j {
                assert(t[i] == v);
            } else {
                assert(t[k] == v);
            }
        }
        if t.contains(v) {
            let k = choose|k: int| 0 <= k < t.len() && t[k] == v;
            if k == j {
                assert(s[i] == v);
            } else if k == i {
                assert(s[j] == v);
            } else {
                assert(s[k] == v);
            }
        }
    }
}

/// The positions that are filled in lie one behind the other, from the end of the segment on.
proof fn lemma_fill_rises(donor: Seq<usize>, filler: Seq<usize>, lo: int, hi: int, k: nat)
    requires
        donor.len() == filler.len(),
        0 <= lo <= hi <= donor.len(),
        k <= filler.len(),
    ensures
        ({
            let f = fill_positions(donor, filler, lo, hi, k);
            let n = filler.len() as int;
            &&& forall|i: int| 0 <= i < f.len() ==> 0 <= ahead(#[trigger] f[i], hi, n) < k
            &&& forall|i: int, j: int|
                0 <= i < j < f.len() ==> ahead(#[trigger] f[i], hi, n) < ahead(
                    #[trigger] f[j],
                    hi,
                    n,
                )
        }),
    decreases k,
{
    if k > 0 {
        let m = (k - 1) as nat;
        lemma_fill_rises(donor, filler, lo, hi, m);
        let n = filler.len() as int;
        let g = fill_positions(donor, filler, lo, hi, m);
        let f = fill_positions(donor, filler, lo, hi, k);
        assert(ahead(wrapped(hi, k - 1, n), hi, n) == k - 1);
        assert forall|i: int| 0 <= i < f.len() implies 0 <= ahead(#[trigger] f[i], hi, n) < k by {
            if i < g.len() {
                assert(f[i] == g[i]);
            }
        }
        assert forall|i: int, j: int| 0 <= i < j < f.len() implies ahead(#[trigger] f[i], hi, n)
            < ahead(#[trigger] f[j], hi, n) by {
            assert(f[i] == g[i]);
            if j < g.len() {
                assert(f[j] == g[j]);
            }
        }
    }
}

/// Ordered crossover keeps the segment of the donor where it is. Every other place takes a key
/// of the filler that the segment lacks; from the end of the segment on, and round the end, they
/// stand in the order in which the filler has them from there.
pub proof fn law_ox_keeps_segment_and_order(
    donor: Seq<usize>,
    filler: Seq<usize>,
    lo: int,
    hi: int,
)
    requires
        same_keys(donor, filler),
        0 <= lo <= hi <= donor.len(),
        donor.len() <= usize::MAX,
    ensures
        ({
            let n = donor.len() as int;
            let plan = ox_plan(donor, filler, lo, hi);
            &&& plan.len() == n
            &&& forall|p: int|
                lo <= p < hi ==> !(#[trigger] plan[p]).second && plan[p].pos == p
            &&& forall|p: int|
                0 <= p < n && !(lo <= p < hi) ==> {
                    &&& (#[trigger] plan[p]).second
                    &&& plan[p].pos < n
                    &&& forall|q: int|
                        lo <= q < hi ==> filler[plan[p].pos as int] != #[trigger] donor[q]
                }
            &&& forall|p: int, q: int|
                0 <= p < n && 0 <= q < n && !(lo <= p < hi) && !(lo <= q < hi) && ahead(p, hi, n)
                    < ahead(q, hi, n) ==> ahead((#[trigger] plan[p]).pos as int, hi, n) < ahead(
                    (#[trigger] plan[q]).pos as int,
                    hi,
                    n,
                )
        }),
{
    let n = donor.len() as int;
    let plan = ox_plan(donor, filler, lo, hi);
    let f = fill_positions(donor, filler, lo, hi, donor.len());
    lemma_fill(donor, filler, lo, hi, donor.len());
    lemma_fill_len(donor, filler, lo, hi);
    lemma_fill_rises(donor, filler, lo, hi, donor.len());
    assert forall|p: int| 0 <= p < n && !(lo <= p < hi) implies {
        &&& (#[trigger] plan[p]).second
        &&& plan[p].pos == f[ahead(p, hi, n)]
        &&& 0 <= ahead(p, hi, n) < f.len()
    } by {}
    assert forall|p: int| 0 <= p < n && !(lo <= p < hi) implies {
        &&& (#[trigger] plan[p]).second
        &&& plan[p].pos < n
        &&& forall|q: int| lo <= q < hi ==> filler[plan[p].pos as int] != #[trigger] donor[q]
    } by {
        let x = f[ahead(p, hi, n)];
        assert(!in_segment(donor, lo, hi, filler[x]));
    }
    assert forall|p: int, q: int|
        0 <= p < n && 0 <= q < n && !(lo <= p < hi) && !(lo <= q < hi) && ahead(p, hi, n) < ahead(
            q,
            hi,
            n,
        ) implies ahead((#[trigger] plan[p]).pos as int, hi, n) < ahead(
        (#[trigger] plan[q]).pos as int,
        hi,
        n,
    ) by {
        let (i, j) = (ahead(p, hi, n), ahead(q, hi, n));
        assert(plan[p].pos == f[i] && plan[q].pos == f[j]);
        assert(ahead(f[i], hi, n) < ahead(f[j], hi, n));
    }
}

} // verus!
