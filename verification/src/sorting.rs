//! Ordering indices by rank, earlier index first where ranks are equal.

use vstd::prelude::*;

verus! {

/// A total preorder on things that are known by index.
pub trait Order {
    /// Index `i` is ranked.
    spec fn ranks(self, i: int) -> bool;

    /// `a` does not rank behind `b`.
    spec fn leq(self, a: int, b: int) -> bool;

    proof fn leq_total(self, a: int, b: int)
        requires
            self.ranks(a),
            self.ranks(b),
        ensures
            self.leq(a, b) || self.leq(b, a),
    ;

    proof fn leq_trans(self, a: int, b: int, c: int)
        requires
            self.ranks(a),
            self.ranks(b),
            self.ranks(c),
            self.leq(a, b),
            self.leq(b, c),
        ensures
            self.leq(a, c),
    ;
}

/// A way to compute an order.
pub trait Ranking {
    type Of: Order;

    spec fn order(&self) -> Self::Of;

    fn at_most(&self, a: usize, b: usize) -> (r: bool)
        requires
            self.order().ranks(a as int),
            self.order().ranks(b as int),
        ensures
            r == self.order().leq(a as int, b as int),
    ;
}

/// `a` comes before `b`: it ranks in front, or equal with the smaller index.
pub open spec fn precedes<R: Order>(rank: R, a: int, b: int) -> bool {
    rank.leq(a, b) && (rank.leq(b, a) ==> a < b)
}

/// `s` lists each index below `n` once, in order.
pub open spec fn in_order<R: Order>(rank: R, n: nat, s: Seq<usize>) -> bool {
    &&& s.len() == n
    &&& forall|i: int| 0 <= i < s.len() ==> #[trigger] s[i] < n
    &&& forall|i: int, j: int|
        0 <= i < j < s.len() ==> precedes(rank, #[trigger] s[i] as int, #[trigger] s[j] as int)
}

/// The indices below `n` in order.
pub open spec fn order_of<R: Order>(rank: R, n: nat) -> Seq<usize> {
    choose|s: Seq<usize>| in_order(rank, n, s)
}

proof fn lemma_precedes_strict<R: Order>(rank: R, a: int, b: int)
    requires
        rank.ranks(a),
        rank.ranks(b),
        a != b,
    ensures
        precedes(rank, a, b) != precedes(rank, b, a),
{
    rank.leq_total(a, b);
}

/// An ordered list holds every index.
pub proof fn lemma_in_order_all<R: Order>(rank: R, n: nat, s: Seq<usize>, v: usize)
    requires
        in_order(rank, n, s),
        forall|i: int| 0 <= i < n ==> #[trigger] rank.ranks(i),
        v < n,
    ensures
        s.contains(v),
        s.no_duplicates(),
{
    assert forall|i: int, j: int| 0 <= i < j < s.len() implies s[i] != s[j] by {
        assert(precedes(rank, s[i] as int, s[j] as int));
    }
    lemma_all_present(s, n, v);
}

/// A list of `n` different numbers below `n` holds them all.
pub proof fn lemma_all_present(s: Seq<usize>, n: nat, v: usize)
    requires
        s.len() == n,
        s.no_duplicates(),
        forall|i: int| 0 <= i < s.len() ==> #[trigger] s[i] < n,
        v < n,
    ensures
        s.contains(v),
{
    let t = s.map_values(|x: usize| x as int);
    assert(t.no_duplicates());
    let set = t.to_set();
    t.unique_seq_to_set();
    let full = vstd::set_lib::set_int_range(0, n as int);
    vstd::set_lib::lemma_int_range(0, n as int);
    assert(set.subset_of(full)) by {
        assert forall|x: int| set.contains(x) implies full.contains(x) by {
            assert(t.contains(x));
        }
    }
    vstd::set_lib::lemma_subset_equality(set, full);
    assert(full.contains(v as int));
    assert(set.contains(v as int));
    assert(t.contains(v as int));
    let i = choose|i: int| 0 <= i < t.len() && t[i] == v as int;
    assert(s[i] == v);
}

/// The items of `m`, in the given order of their indices.
pub open spec fn arranged<T>(m: Seq<T>, order: Seq<usize>) -> Seq<T> {
    Seq::new(order.len(), |k: int| m[order[k] as int])
}

/// Arranging items keeps them.
pub proof fn lemma_arranged<T>(m: Seq<T>, order: Seq<usize>)
    requires
        order.len() == m.len(),
        order.no_duplicates(),
        forall|i: int| 0 <= i < order.len() ==> #[trigger] order[i] < m.len(),
    ensures
        arranged(m, order).to_multiset() == m.to_multiset(),
    decreases m.len(),
{
    let a = arranged(m, order);
    if m.len() == 0 {
        assert(a =~= m);
    } else {
        let n = (m.len() - 1) as nat;
        lemma_distinct_bound(order);
        lemma_all_present(order, m.len(), n as usize);
        let q = choose|q: int| 0 <= q < order.len() && order[q] == n as usize;
        let rest = order.remove(q);
        let b = m.drop_last();
        assert forall|i: int| 0 <= i < rest.len() implies #[trigger] rest[i] < n by {
            if i < q {
                assert(rest[i] == order[i]);
            } else {
                assert(rest[i] == order[i + 1]);
            }
        }
        assert(rest.no_duplicates());
        lemma_arranged(b, rest);
        assert(arranged(b, rest) =~= a.remove(q));
        a.to_multiset_ensures();
        b.to_multiset_ensures();
        assert(a[q] == m.last());
        assert(m =~= b.push(m.last()));
        assert(a.contains(a[q]));
        assert(a.to_multiset() =~= a.remove(q).to_multiset().insert(a[q]));
    }
}

/// There are no more different machine integers than that.
proof fn lemma_distinct_bound(s: Seq<usize>)
    requires
        s.no_duplicates(),
    ensures
        s.len() <= usize::MAX + 1,
{
    let t = s.map_values(|x: usize| x as int);
    assert(t.no_duplicates());
    t.unique_seq_to_set();
    let full = vstd::set_lib::set_int_range(0, usize::MAX + 1);
    vstd::set_lib::lemma_int_range(0, usize::MAX + 1);
    assert(t.to_set().subset_of(full)) by {
        assert forall|x: int| t.to_set().contains(x) implies full.contains(x) by {
            assert(t.contains(x));
        }
    }
    vstd::set_lib::lemma_len_subset(t.to_set(), full);
}

/// There is one order only.
pub proof fn lemma_order_unique<R: Order>(rank: R, n: nat, s: Seq<usize>, t: Seq<usize>)
    requires
        in_order(rank, n, s),
        in_order(rank, n, t),
        forall|i: int| 0 <= i < n ==> #[trigger] rank.ranks(i),
    ensures
        s == t,
{
    if s != t {
        assert(!(s =~= t));
        let k = lemma_first_difference(s, t);
        lemma_in_order_all(rank, n, s, t[k]);
        lemma_in_order_all(rank, n, t, s[k]);
        let i = choose|i: int| 0 <= i < s.len() && s[i] == t[k];
        let j = choose|j: int| 0 <= j < t.len() && t[j] == s[k];
        if i < k {
            assert(t[i] == s[i]);
            assert(precedes(rank, t[i] as int, t[k] as int));
        }
        if j < k {
            assert(t[j] == s[j]);
            assert(precedes(rank, s[j] as int, s[k] as int));
        }
        assert(k < i && k < j);
        assert(precedes(rank, s[k] as int, s[i] as int));
        assert(precedes(rank, t[k] as int, t[j] as int));
        assert(rank.ranks(s[k] as int) && rank.ranks(t[k] as int));
        lemma_precedes_strict(rank, s[k] as int, t[k] as int);
    }
}

proof fn lemma_first_difference(s: Seq<usize>, t: Seq<usize>) -> (k: int)
    requires
        s.len() == t.len(),
        s != t,
    ensures
        0 <= k < s.len(),
        s[k] != t[k],
        forall|i: int| 0 <= i < k ==> s[i] == t[i],
    decreases s.len(),
{
    assert(!(s =~= t));
    let a = s.drop_last();
    let b = t.drop_last();
    if a != b {
        let k = lemma_first_difference(a, b);
        assert(a[k] == s[k] && b[k] == t[k]);
        assert forall|i: int| 0 <= i < k implies s[i] == t[i] by {
            assert(a[i] == b[i]);
        }
        k
    } else {
        let k = s.len() - 1;
        assert forall|i: int| 0 <= i < k implies s[i] == t[i] by {
            assert(a[i] == b[i]);
        }
        if s[k] == t[k] {
            assert(s =~= t);
        }
        k
    }
}

/// There is an order.
pub proof fn lemma_order_exists<R: Order>(rank: R, n: nat)
    requires
        forall|i: int| 0 <= i < n ==> #[trigger] rank.ranks(i),
        n <= usize::MAX + 1,
    ensures
        in_order(rank, n, order_of(rank, n)),
    decreases n,
{
    if n == 0 {
        assert(in_order(rank, 0, Seq::<usize>::empty()));
    } else {
        let m = (n - 1) as nat;
        lemma_order_exists(rank, m);
        let s = order_of(rank, m);
        let k = lemma_insert_position(rank, s, m, m);
        let t = s.insert(k, m as usize);
        lemma_insert_in_order(rank, s, m, k);
        assert(in_order(rank, n, t));
    }
}

/// Where index `m` goes into the ordered list of the smaller ones.
proof fn lemma_insert_position<R: Order>(rank: R, s: Seq<usize>, m: nat, p: nat) -> (k: int)
    requires
        forall|i: int| 0 <= i <= m ==> #[trigger] rank.ranks(i),
        in_order(rank, m, s),
        p <= m,
        forall|i: int| p <= i < m ==> !rank.leq(#[trigger] s[i] as int, m as int),
    ensures
        0 <= k <= m,
        k > 0 ==> rank.leq(s[k - 1] as int, m as int),
        forall|i: int| k <= i < m ==> !rank.leq(#[trigger] s[i] as int, m as int),
    decreases p,
{
    if p == 0 || rank.leq(s[p - 1] as int, m as int) {
        p as int
    } else {
        lemma_insert_position(rank, s, m, (p - 1) as nat)
    }
}

proof fn lemma_insert_in_order<R: Order>(rank: R, s: Seq<usize>, m: nat, pos: int)
    requires
        forall|i: int| 0 <= i <= m ==> #[trigger] rank.ranks(i),
        in_order(rank, m, s),
        m <= usize::MAX,
        0 <= pos <= m,
        pos > 0 ==> rank.leq(s[pos - 1] as int, m as int),
        forall|i: int| pos <= i < m ==> !rank.leq(#[trigger] s[i] as int, m as int),
    ensures
        in_order(rank, m + 1, s.insert(pos, m as usize)),
{
    let out = s.insert(pos, m as usize);
    assert forall|i: int, j: int| 0 <= i < j < out.len() implies precedes(
        rank,
        #[trigger] out[i] as int,
        #[trigger] out[j] as int,
    ) by {
        if j < pos {
            assert(out[i] == s[i] && out[j] == s[j]);
        } else if j == pos {
            assert(out[i] == s[i]);
            if i < pos - 1 {
                assert(precedes(rank, s[i] as int, s[pos - 1] as int));
                rank.leq_trans(s[i] as int, s[pos - 1] as int, m as int);
            }
        } else {
            assert(out[j] == s[j - 1]);
            if i < pos {
                assert(out[i] == s[i]);
            } else if i == pos {
                rank.leq_total(s[j - 1] as int, m as int);
            } else {
                assert(out[i] == s[i - 1]);
            }
        }
    }
    assert forall|i: int| 0 <= i < out.len() implies #[trigger] out[i] < m + 1 by {
        if i < pos {
            assert(out[i] == s[i]);
        } else if i > pos {
            assert(out[i] == s[i - 1]);
        }
    }
}

/// The indices below `n`, ordered by rank and then by index.
pub fn ranked<R: Ranking>(rank: &R, n: usize) -> (out: Vec<usize>)
    requires
        forall|i: int| 0 <= i < n ==> #[trigger] rank.order().ranks(i),
    ensures
        in_order(rank.order(), n as nat, out@),
        out@ == order_of(rank.order(), n as nat),
{
    let mut out: Vec<usize> = Vec::new();
    let mut k: usize = 0;
    while k < n
        invariant
            k <= n,
            forall|i: int| 0 <= i < n ==> #[trigger] rank.order().ranks(i),
            in_order(rank.order(), k as nat, out@),
        decreases n - k,
    {
        let mut pos: usize = k;
        let ghost before = out@;
        while pos > 0 && !rank.at_most(out[pos - 1], k)
            invariant
                pos <= k < n,
                out@ == before,
                forall|i: int| 0 <= i < n ==> #[trigger] rank.order().ranks(i),
                in_order(rank.order(), k as nat, out@),
                forall|i: int| pos <= i < k ==> !rank.order().leq(#[trigger] out@[i] as int, k as int),
            decreases pos,
        {
            pos -= 1;
        }
        out.insert(pos, k);
        proof {
            if pos < k {
                assert forall|i: int| 0 <= i <= k implies #[trigger] rank.order().ranks(i) by {}
            }
            lemma_insert_in_order(rank.order(), before, k as nat, pos as int);
        }
        k += 1;
    }
    proof {
        lemma_order_unique(rank.order(), n as nat, out@, order_of(rank.order(), n as nat));
    }
    out
}

} // verus!
