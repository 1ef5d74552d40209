//! Sets of candidate copies for one sheet.

use vstd::prelude::*;

use super::fitting::area_of;
use crate::gpf::table::{part_of, GpfType};

verus! {

/// A copy that may go into a pattern, with its dual value as profit.
#[derive(Debug, Clone, Copy, PartialEq, Eq, Structural)]
pub struct Candidate {
    pub type_idx: usize,
    pub flat_idx: usize,
    pub profit: u64,
    pub area: u64,
}

/// Sum of the numbers that are selected among the first `k`.
pub open spec fn picked(g: Seq<int>, sel: Seq<bool>, k: nat) -> int
    decreases k,
{
    if k == 0 {
        0
    } else {
        picked(g, sel, (k - 1) as nat) + if sel[k - 1] {
            g[k - 1]
        } else {
            0
        }
    }
}

pub open spec fn profits(cands: Seq<Candidate>) -> Seq<int> {
    Seq::new(cands.len(), |i: int| cands[i].profit as int)
}

pub open spec fn areas(cands: Seq<Candidate>) -> Seq<int> {
    Seq::new(cands.len(), |i: int| cands[i].area as int)
}

/// 1 for the candidates of type `t`, 0 for others.
pub open spec fn of_type(cands: Seq<Candidate>, t: int) -> Seq<int> {
    Seq::new(
        cands.len(),
        |i: int|
            if cands[i].type_idx == t {
                1int
            } else {
                0int
            },
    )
}

/// Number of selected candidates of type `t` among the first `k`.
pub open spec fn count_of(cands: Seq<Candidate>, sel: Seq<bool>, t: int, k: nat) -> int {
    picked(of_type(cands, t), sel, k)
}

/// How many candidates of each of `n` types are selected.
pub open spec fn counts(cands: Seq<Candidate>, n: nat, sel: Seq<bool>) -> Seq<nat> {
    Seq::new(n, |t: int| count_of(cands, sel, t, cands.len()) as nat)
}

pub open spec fn profit(cands: Seq<Candidate>, sel: Seq<bool>) -> int {
    picked(profits(cands), sel, cands.len())
}

pub open spec fn area(cands: Seq<Candidate>, sel: Seq<bool>) -> int {
    picked(areas(cands), sel, cands.len())
}

/// Selecting one more adds its number.
pub proof fn lemma_picked_more(g: Seq<int>, sel: Seq<bool>, j: int, k: nat)
    requires
        0 <= j < sel.len(),
        k <= sel.len(),
        !sel[j],
    ensures
        picked(g, sel.update(j, true), k) == picked(g, sel, k) + (if j < k {
            g[j]
        } else {
            0
        }),
    decreases k,
{
    if k > 0 {
        lemma_picked_more(g, sel, j, (k - 1) as nat);
    }
}

/// A sum is no more than another where no item gives more.
pub proof fn lemma_picked_le(g: Seq<int>, a: Seq<bool>, b: Seq<bool>, k: nat)
    requires
        forall|i: int|
            0 <= i < k ==> (if #[trigger] a[i] {
                g[i]
            } else {
                0
            }) <= (if b[i] {
                g[i]
            } else {
                0
            }),
    ensures
        picked(g, a, k) <= picked(g, b, k),
    decreases k,
{
    if k > 0 {
        lemma_picked_le(g, a, b, (k - 1) as nat);
        assert((if a[k - 1] {
            g[k - 1]
        } else {
            0
        }) <= (if b[k - 1] {
            g[k - 1]
        } else {
            0
        }));
    }
}

pub proof fn lemma_picked_same(g: Seq<int>, a: Seq<bool>, b: Seq<bool>, k: nat)
    requires
        forall|i: int| 0 <= i < k ==> #[trigger] a[i] == b[i] || g[i] == 0,
    ensures
        picked(g, a, k) == picked(g, b, k),
    decreases k,
{
    if k > 0 {
        lemma_picked_same(g, a, b, (k - 1) as nat);
        assert(a[k - 1] == b[k - 1] || g[k - 1] == 0);
    }
}

/// Sums of numbers from 0 up to `m` are from 0 up to `k` times `m`.
pub proof fn lemma_picked_bound(g: Seq<int>, sel: Seq<bool>, k: nat, m: int)
    requires
        k <= g.len(),
        forall|i: int| 0 <= i < k ==> 0 <= #[trigger] g[i] <= m,
    ensures
        0 <= picked(g, sel, k) <= k * m,
    decreases k,
{
    if k > 0 {
        lemma_picked_bound(g, sel, (k - 1) as nat, m);
        assert(0 <= g[k - 1] <= m);
        assert(k * m == (k - 1) * m + m) by (nonlinear_arith);
    } else {
        assert(0 * m == 0);
    }
}

/// Sums may be scaled and added term by term.
proof fn lemma_picked_linear(
    g: Seq<int>,
    p: Seq<int>,
    a: Seq<int>,
    x: int,
    y: int,
    sel: Seq<bool>,
    k: nat,
)
    requires
        forall|i: int| 0 <= i < k ==> #[trigger] g[i] == x * p[i] - y * a[i],
    ensures
        picked(g, sel, k) == x * picked(p, sel, k) - y * picked(a, sel, k),
    decreases k,
{
    if k > 0 {
        let m = (k - 1) as nat;
        lemma_picked_linear(g, p, a, x, y, sel, m);
        let (sp, sa) = (picked(p, sel, m), picked(a, sel, m));
        let (q, b) = (p[k - 1], a[k - 1]);
        assert(g[k - 1] == x * q - y * b);
        assert(x * (sp + q) == x * sp + x * q) by (nonlinear_arith);
        assert(y * (sa + b) == y * sa + y * b) by (nonlinear_arith);
    } else {
        assert(x * 0 == 0) by (nonlinear_arith);
        assert(y * 0 == 0) by (nonlinear_arith);
    }
}

/// Candidates have positive areas, are of known types, and are sorted by profit for their area,
/// the best first.
pub open spec fn ranked_by_density(cands: Seq<Candidate>, types: Seq<GpfType>) -> bool {
    &&& forall|i: int|
        0 <= i < cands.len() ==> {
            &&& (#[trigger] cands[i]).type_idx < types.len()
            &&& cands[i].area == types[cands[i].type_idx as int].width
                * types[cands[i].type_idx as int].height
            &&& cands[i].area > 0
        }
    &&& forall|i: int, j: int|
        0 <= i < j < cands.len() ==> (#[trigger] cands[j]).profit * (#[trigger] cands[i]).area
            <= cands[i].profit * cands[j].area
}

/// The selection makes no use of a type after it has passed over a copy of it.
pub open spec fn closed(cands: Seq<Candidate>, sel: Seq<bool>) -> bool {
    forall|i: int, j: int|
        0 <= i < j < cands.len() && cands[i].type_idx == cands[j].type_idx && #[trigger] sel[j]
            ==> #[trigger] sel[i]
}

/// Copies of a type, the same area: the earlier one is worth no less.
proof fn lemma_profit_order(cands: Seq<Candidate>, types: Seq<GpfType>, i: int, j: int)
    requires
        ranked_by_density(cands, types),
        0 <= i < j < cands.len(),
        cands[i].type_idx == cands[j].type_idx,
    ensures
        cands[i].profit >= cands[j].profit,
{
    let a = cands[i].area as int;
    assert(cands[j].area == a);
    assert(cands[j].profit * a <= cands[i].profit * a);
    let (p, q) = (cands[i].profit as int, cands[j].profit as int);
    if q > p {
        assert(q * a > p * a) by (nonlinear_arith)
            requires
                q > p,
                a > 0,
        ;
    }
}

/// Number of candidates of type `t` in front of `k`.
pub open spec fn rank_in_type(cands: Seq<Candidate>, t: int, k: nat) -> int {
    picked(of_type(cands, t), Seq::new(cands.len(), |i: int| true), k)
}

/// As many of type `t`, the first ones; other types unchanged.
pub open spec fn firsts(cands: Seq<Candidate>, sel: Seq<bool>, t: int) -> Seq<bool> {
    let n = count_of(cands, sel, t, cands.len());
    Seq::new(
        cands.len(),
        |i: int|
            if cands[i].type_idx == t {
                rank_in_type(cands, t, i as nat) < n
            } else {
                sel[i]
            },
    )
}

proof fn lemma_rank_grows(cands: Seq<Candidate>, t: int, j: nat, k: nat)
    requires
        j <= k <= cands.len(),
    ensures
        rank_in_type(cands, t, j) <= rank_in_type(cands, t, k),
    decreases k,
{
    if j < k {
        lemma_rank_grows(cands, t, j, (k - 1) as nat);
    }
}

/// Taking the first ones of a type: up to any place, they are as many as there can be.
proof fn lemma_firsts_count(cands: Seq<Candidate>, sel: Seq<bool>, t: int, k: nat)
    requires
        sel.len() == cands.len(),
        k <= cands.len(),
    ensures
        ({
            let n = count_of(cands, sel, t, cands.len());
            let r = rank_in_type(cands, t, k);
            count_of(cands, firsts(cands, sel, t), t, k) == if r < n {
                r
            } else {
                n
            }
        }),
        0 <= count_of(cands, sel, t, k) <= rank_in_type(cands, t, k),
        count_of(cands, sel, t, k) <= count_of(cands, sel, t, cands.len()),
    decreases k,
{
    lemma_count_grows(cands, sel, t, k, cands.len());
    if k > 0 {
        lemma_firsts_count(cands, sel, t, (k - 1) as nat);
    }
}

proof fn lemma_count_grows(cands: Seq<Candidate>, sel: Seq<bool>, t: int, j: nat, k: nat)
    requires
        j <= k <= cands.len(),
    ensures
        0 <= count_of(cands, sel, t, j) <= count_of(cands, sel, t, k),
    decreases k,
{
    if j < k {
        lemma_count_grows(cands, sel, t, j, (k - 1) as nat);
    } else if k > 0 {
        lemma_count_grows(cands, sel, t, (k - 1) as nat, (k - 1) as nat);
    }
}

/// The least profit of the copies of type `t` in front of `k`, 0 where there is none.
spec fn last_profit(cands: Seq<Candidate>, t: int, k: nat) -> int
    decreases k,
{
    if k == 0 {
        0
    } else if cands[k - 1].type_idx == t {
        cands[k - 1].profit as int
    } else {
        last_profit(cands, t, (k - 1) as nat)
    }
}

proof fn lemma_last_profit(cands: Seq<Candidate>, types: Seq<GpfType>, t: int, j: nat, k: int)
    requires
        ranked_by_density(cands, types),
        j <= k < cands.len(),
        cands[k].type_idx == t,
        rank_in_type(cands, t, j) > 0,
    ensures
        last_profit(cands, t, j) >= cands[k].profit,
    decreases j,
{
    if j > 0 {
        if cands[j - 1].type_idx == t {
            lemma_profit_order(cands, types, j - 1, k);
        } else {
            lemma_last_profit(cands, types, t, (j - 1) as nat, k);
        }
    }
}

/// Taking the first ones of a type is worth no less.
proof fn lemma_firsts_profit(
    cands: Seq<Candidate>,
    types: Seq<GpfType>,
    sel: Seq<bool>,
    t: int,
    k: nat,
)
    requires
        ranked_by_density(cands, types),
        sel.len() == cands.len(),
        k <= cands.len(),
    ensures
        ({
            let f = firsts(cands, sel, t);
            let d = count_of(cands, f, t, k) - count_of(cands, sel, t, k);
            &&& d >= 0
            &&& picked(profits(cands), f, k) - picked(profits(cands), sel, k) >= d * last_profit(
                cands,
                t,
                k,
            )
        }),
    decreases k,
{
    let f = firsts(cands, sel, t);
    lemma_firsts_count(cands, sel, t, k);
    if k == 0 {
        assert(0 * last_profit(cands, t, 0) == 0);
    } else {
        let m = (k - 1) as nat;
        lemma_firsts_profit(cands, types, sel, t, m);
        lemma_firsts_count(cands, sel, t, m);
        let d = count_of(cands, f, t, m) - count_of(cands, sel, t, m);
        let l = last_profit(cands, t, m);
        if cands[k - 1].type_idx == t {
            let p = cands[k - 1].profit as int;
            if d > 0 {
                lemma_last_profit(cands, types, t, m, k - 1);
                assert(d * l >= d * p) by (nonlinear_arith)
                    requires
                        d >= 0,
                        l >= p,
                ;
            } else {
                assert(d * l == 0 && d * p == 0) by (nonlinear_arith)
                    requires
                        d == 0,
                ;
            }
            assert((d + 1) * p == d * p + p) by (nonlinear_arith);
            assert((d - 1) * p == d * p - p) by (nonlinear_arith);
        }
    }
}

/// Selecting the first copies of every type instead changes no count and is worth no less.
pub proof fn lemma_firsts(
    cands: Seq<Candidate>,
    types: Seq<GpfType>,
    sel: Seq<bool>,
    n: nat,
) -> (r: Seq<bool>)
    requires
        ranked_by_density(cands, types),
        sel.len() == cands.len(),
    ensures
        r.len() == cands.len(),
        counts(cands, types.len(), r) == counts(cands, types.len(), sel),
        profit(cands, r) >= profit(cands, sel),
        forall|i: int, j: int|
            0 <= i < j < cands.len() && cands[i].type_idx == cands[j].type_idx
                && cands[i].type_idx < n && #[trigger] r[j] ==> #[trigger] r[i],
    decreases n,
{
    if n == 0 {
        sel
    } else {
        let s = lemma_firsts(cands, types, sel, (n - 1) as nat);
        let t = n - 1;
        let f = firsts(cands, s, t);
        let m = cands.len();
        lemma_firsts_profit(cands, types, s, t, m);
        lemma_firsts_count(cands, s, t, m);
        assert(count_of(cands, f, t, m) == count_of(cands, s, t, m));
        assert(0 * last_profit(cands, t, m) == 0);
        assert forall|u: int| 0 <= u < types.len() implies counts(cands, types.len(), f)[u]
            == counts(cands, types.len(), sel)[u] by {
            if u != t {
                lemma_picked_same(of_type(cands, u), f, s, m);
            }
            assert(counts(cands, types.len(), s)[u] == counts(cands, types.len(), sel)[u]);
        }
        assert(counts(cands, types.len(), f) =~= counts(cands, types.len(), sel));
        assert forall|i: int, j: int|
            0 <= i < j < cands.len() && cands[i].type_idx == cands[j].type_idx
                && cands[i].type_idx < n && #[trigger] f[j] implies #[trigger] f[i] by {
            if cands[i].type_idx == t {
                lemma_rank_grows(cands, t, i as nat, j as nat);
            } else {
                assert(s[j] ==> s[i]);
            }
        }
        f
    }
}

/// One more of type `t`.
pub open spec fn one_more(c: Seq<nat>, t: int) -> Seq<nat> {
    c.update(t, c[t] + 1)
}

proof fn lemma_area_more(types: Seq<GpfType>, c: Seq<nat>, t: int)
    requires
        types.len() == c.len(),
        0 <= t < c.len(),
    ensures
        area_of(types, one_more(c, t)) == area_of(types, c) + types[t].width * types[t].height,
    decreases c.len(),
{
    let d = one_more(c, t);
    let (t2, c2) = (types.drop_last(), c.drop_last());
    let a = types.last().width * types.last().height;
    if t == c.len() - 1 {
        assert(d.drop_last() =~= c2);
        let k = c.last();
        assert((k + 1) * a == k * a + a) by (nonlinear_arith);
    } else {
        lemma_area_more(t2, c2, t);
        assert(d.drop_last() =~= one_more(c2, t));
    }
}

/// The counts among the first `k`.
spec fn counts_to(cands: Seq<Candidate>, n: nat, sel: Seq<bool>, k: nat) -> Seq<nat> {
    Seq::new(n, |t: int| count_of(cands, sel, t, k) as nat)
}

proof fn lemma_area_to(cands: Seq<Candidate>, types: Seq<GpfType>, sel: Seq<bool>, k: nat)
    requires
        ranked_by_density(cands, types),
        sel.len() == cands.len(),
        k <= cands.len(),
    ensures
        area_of(types, counts_to(cands, types.len(), sel, k)) == picked(areas(cands), sel, k),
    decreases k,
{
    let n = types.len();
    let c = counts_to(cands, n, sel, k);
    if k == 0 {
        assert(area_of(types, c) == 0) by {
            lemma_area_zero(types, c);
        }
    } else {
        let m = (k - 1) as nat;
        lemma_area_to(cands, types, sel, m);
        let b = counts_to(cands, n, sel, m);
        let t = cands[k - 1].type_idx as int;
        assert forall|u: int| 0 <= u < n implies count_of(cands, sel, u, m) >= 0 by {
            lemma_count_grows(cands, sel, u, m, m);
        }
        if sel[k - 1] {
            assert(c =~= one_more(b, t));
            lemma_area_more(types, b, t);
        } else {
            assert(c =~= b);
        }
    }
}

proof fn lemma_area_zero(types: Seq<GpfType>, c: Seq<nat>)
    requires
        types.len() == c.len(),
        forall|i: int| 0 <= i < c.len() ==> #[trigger] c[i] == 0,
    ensures
        area_of(types, c) == 0,
    decreases c.len(),
{
    if c.len() > 0 {
        let (t2, c2) = (types.drop_last(), c.drop_last());
        assert forall|i: int| 0 <= i < c2.len() implies #[trigger] c2[i] == 0 by {
            assert(c[i] == 0);
        }
        lemma_area_zero(t2, c2);
        let a = types.last().width * types.last().height;
        assert(c.last() == 0);
        assert(0 * a == 0);
    }
}

/// The area of a selection is that of the pieces that it counts.
pub proof fn lemma_area_counts(cands: Seq<Candidate>, types: Seq<GpfType>, sel: Seq<bool>)
    requires
        ranked_by_density(cands, types),
        sel.len() == cands.len(),
    ensures
        area_of(types, counts(cands, types.len(), sel)) == area(cands, sel),
{
    lemma_area_to(cands, types, sel, cands.len());
    assert(counts_to(cands, types.len(), sel, cands.len()) =~= counts(cands, types.len(), sel));
}

/// What is selected besides adds to the counts.
pub proof fn lemma_counts_part(cands: Seq<Candidate>, n: nat, a: Seq<bool>, b: Seq<bool>)
    requires
        a.len() == cands.len(),
        b.len() == cands.len(),
        forall|i: int| 0 <= i < a.len() && #[trigger] a[i] ==> b[i],
    ensures
        part_of(counts(cands, n, a), counts(cands, n, b)),
{
    assert forall|t: int| 0 <= t < n implies #[trigger] counts(cands, n, a)[t] <= counts(
        cands,
        n,
        b,
    )[t] by {
        lemma_picked_le(of_type(cands, t), a, b, cands.len());
        lemma_count_grows(cands, a, t, cands.len(), cands.len());
    }
}

/// One more selected is one more counted, of its type.
pub proof fn lemma_counts_more(cands: Seq<Candidate>, types: Seq<GpfType>, sel: Seq<bool>, j: int)
    requires
        ranked_by_density(cands, types),
        sel.len() == cands.len(),
        0 <= j < cands.len(),
        !sel[j],
    ensures
        counts(cands, types.len(), sel.update(j, true)) == one_more(
            counts(cands, types.len(), sel),
            cands[j].type_idx as int,
        ),
        profit(cands, sel.update(j, true)) == profit(cands, sel) + cands[j].profit,
        area(cands, sel.update(j, true)) == area(cands, sel) + cands[j].area,
{
    let n = types.len();
    let m = cands.len();
    lemma_picked_more(profits(cands), sel, j, m);
    lemma_picked_more(areas(cands), sel, j, m);
    assert forall|t: int| 0 <= t < n implies counts(cands, n, sel.update(j, true))[t] == one_more(
        counts(cands, n, sel),
        cands[j].type_idx as int,
    )[t] by {
        lemma_picked_more(of_type(cands, t), sel, j, m);
        lemma_count_grows(cands, sel, t, m, m);
    }
    assert(counts(cands, n, sel.update(j, true)) =~= one_more(
        counts(cands, n, sel),
        cands[j].type_idx as int,
    ));
}

/// A bound on what a selection is worth: take all candidates in order up to candidate `b` whose
/// type is open, and of `b` the fraction that the area left has room for. `greedy` is that
/// selection without the fraction, `sel` any other that agrees with it in front of `pos` and
/// uses no closed type from there on.
pub proof fn lemma_fraction_bound(
    cands: Seq<Candidate>,
    types: Seq<GpfType>,
    sel: Seq<bool>,
    greedy: Seq<bool>,
    pos: int,
    b: int,
    room: int,
)
    requires
        ranked_by_density(cands, types),
        sel.len() == cands.len(),
        greedy.len() == cands.len(),
        0 <= pos <= b < cands.len(),
        forall|i: int| 0 <= i < pos ==> #[trigger] sel[i] == greedy[i],
        forall|i: int| pos <= i < b && #[trigger] sel[i] ==> greedy[i],
        forall|i: int| b <= i < cands.len() ==> !#[trigger] greedy[i],
        area(cands, sel) <= room,
        area(cands, greedy) <= room,
    ensures
        profit(cands, sel) <= profit(cands, greedy) + (cands[b].profit * (room - area(
            cands,
            greedy,
        ))) / (cands[b].area as int),
{
    let m = cands.len();
    let (p, a) = (cands[b].profit as int, cands[b].area as int);
    let (ps, asq) = (profits(cands), areas(cands));
    let g = Seq::new(m, |i: int| a * ps[i] - p * asq[i]);
    lemma_picked_linear(g, ps, asq, a, p, sel, m);
    lemma_picked_linear(g, ps, asq, a, p, greedy, m);
    assert forall|i: int| 0 <= i < m implies (if #[trigger] sel[i] {
        g[i]
    } else {
        0
    }) <= (if greedy[i] {
        g[i]
    } else {
        0
    }) by {
        let (pi, ai) = (cands[i].profit as int, cands[i].area as int);
        if i < pos {
            assert(sel[i] == greedy[i]);
        } else if i < b {
            assert(p * ai <= pi * a);
            assert(a * pi == pi * a) by (nonlinear_arith);
            assert(g[i] >= 0);
        } else {
            if i > b {
                assert(pi * a <= p * ai);
            } else {
                assert(pi * a <= p * ai);
            }
            assert(a * pi == pi * a) by (nonlinear_arith);
            assert(g[i] <= 0);
            assert(!greedy[i]);
        }
    }
    lemma_picked_le(g, sel, greedy, m);
    let (x, y) = (profit(cands, sel), profit(cands, greedy));
    let (u, v) = (area(cands, sel), area(cands, greedy));
    assert(a * x - p * u <= a * y - p * v);
    let left = room - v;
    let top = p * left;
    assert(a * (x - y) <= top) by (nonlinear_arith)
        requires
            a * x - p * u <= a * y - p * v,
            u <= room,
            p >= 0,
            left == room - v,
            top == p * left,
    ;
    let d = x - y;
    assert(d <= top / a) by {
        vstd::arithmetic::div_mod::lemma_div_is_ordered(a * d, top, a);
        vstd::arithmetic::div_mod::lemma_div_multiples_vanish(d, a);
    }
}

} // verus!
