//! Groups of pieces that fill a strip as far as possible.

use vstd::prelude::*;

use crate::model::Piece;

verus! {

/// Extent of a piece across the strip.
pub open spec fn cross_of(p: Piece, rotated: bool, vertical: bool) -> u32 {
    if vertical {
        p.placed_w(rotated)
    } else {
        p.placed_h(rotated)
    }
}

/// Extent of a piece along the strip.
pub open spec fn len_of(p: Piece, rotated: bool, vertical: bool) -> u32 {
    if vertical {
        p.placed_h(rotated)
    } else {
        p.placed_w(rotated)
    }
}

/// A strip to be filled: its candidates, its extent across, and its direction.
pub struct Strip {
    pub pieces: Seq<Piece>,
    pub candidates: Seq<usize>,
    pub cross_cap: u32,
    pub vertical: bool,
}

impl Strip {
    pub open spec fn piece(self, pos: int) -> Piece {
        self.pieces[self.candidates[pos] as int]
    }

    /// Candidate `pos` may stand in the strip in this orientation; turning a square changes
    /// nothing and is not considered.
    pub open spec fn usable(self, pos: int, rotated: bool) -> bool {
        let p = self.piece(pos);
        (rotated ==> p.can_rotate && p.width != p.height) && cross_of(p, rotated, self.vertical)
            <= self.cross_cap
    }

    pub open spec fn len(self, pos: int, rotated: bool) -> int {
        len_of(self.piece(pos), rotated, self.vertical) as int
    }

    /// Some of the first `k` candidates, each used once at most and in one orientation, have
    /// lengths that add up to `s`.
    pub open spec fn reachable(self, k: nat, s: int) -> bool
        decreases k,
    {
        if k == 0 {
            s == 0
        } else {
            ||| self.reachable((k - 1) as nat, s)
            ||| self.usable(k - 1, false) && self.reachable((k - 1) as nat, s - self.len(k - 1, false))
            ||| self.usable(k - 1, true) && self.reachable((k - 1) as nat, s - self.len(k - 1, true))
        }
    }

    /// How the sum `s` came to be when candidate `pos` was added, if it did: the orientation
    /// and the sum before.
    pub open spec fn extended(
        self,
        before: Seq<Option<(usize, bool, u32)>>,
        pos: int,
        s: int,
        rotated: bool,
    ) -> bool {
        let prev = s - self.len(pos, rotated);
        self.usable(pos, rotated) && prev >= 0 && (prev == 0 || before[prev] is Some)
    }

    /// For every sum up to `target` the candidate that first reached it, its orientation and
    /// the sum before, once the first `k` candidates are considered.
    pub open spec fn table(self, target: u32, k: nat) -> Seq<Option<(usize, bool, u32)>>
        decreases k,
    {
        if k == 0 {
            Seq::new((target + 1) as nat, |s: int| None)
        } else {
            let before = self.table(target, (k - 1) as nat);
            Seq::new(
                (target + 1) as nat,
                |s: int|
                    if s == 0 || before[s] is Some {
                        before[s]
                    } else if self.extended(before, k - 1, s, false) {
                        Some(((k - 1) as usize, false, (s - self.len(k - 1, false)) as u32))
                    } else if self.extended(before, k - 1, s, true) {
                        Some(((k - 1) as usize, true, (s - self.len(k - 1, true)) as u32))
                    } else {
                        None
                    },
            )
        }
    }

    /// The group that reaches the sum `s`, last candidate first.
    pub open spec fn chain(self, table: Seq<Option<(usize, bool, u32)>>, s: int) -> Seq<
        (usize, bool),
    >
        decreases s,
    {
        if s <= 0 || table[s] is None {
            Seq::empty()
        } else {
            let (pos, rotated, prev) = table[s]->0;
            if prev >= s {
                Seq::empty()
            } else {
                seq![(self.candidates[pos as int], rotated)] + self.chain(table, prev as int)
            }
        }
    }

    /// The greatest sum up to `s` that is reached, 0 where none is.
    pub open spec fn best_sum(self, table: Seq<Option<(usize, bool, u32)>>, s: int) -> int
        decreases s,
    {
        if s <= 0 || table[s] is Some {
            s
        } else {
            self.best_sum(table, s - 1)
        }
    }

    /// The group that fills the strip best.
    pub open spec fn best(self, target: u32) -> Seq<(usize, bool)> {
        let table = self.table(target, self.candidates.len());
        self.chain(table, self.best_sum(table, target as int))
    }

    /// Total length of a group.
    pub open spec fn total(self, group: Seq<(usize, bool)>) -> int
        decreases group.len(),
    {
        if group.len() == 0 {
            0
        } else {
            len_of(self.pieces[group[0].0 as int], group[0].1, self.vertical) + self.total(
                group.drop_first(),
            )
        }
    }
}

proof fn lemma_reachable_nonneg(strip: Strip, k: nat, s: int)
    requires
        strip.reachable(k, s),
    ensures
        s >= 0,
    decreases k,
{
    if k > 0 {
        if strip.reachable((k - 1) as nat, s) {
            lemma_reachable_nonneg(strip, (k - 1) as nat, s);
        } else if strip.usable(k - 1, false) && strip.reachable(
            (k - 1) as nat,
            s - strip.len(k - 1, false),
        ) {
            lemma_reachable_nonneg(strip, (k - 1) as nat, s - strip.len(k - 1, false));
        } else {
            lemma_reachable_nonneg(strip, (k - 1) as nat, s - strip.len(k - 1, true));
        }
    }
}

proof fn lemma_zero_reachable(strip: Strip, k: nat)
    ensures
        strip.reachable(k, 0),
    decreases k,
{
    if k > 0 {
        lemma_zero_reachable(strip, (k - 1) as nat);
    }
}

/// The table marks exactly the sums that can be reached.
proof fn lemma_table_reachable(strip: Strip, target: u32, k: nat, s: int)
    requires
        0 < s <= target,
    ensures
        strip.table(target, k)[s] is Some <==> strip.reachable(k, s),
    decreases k,
{
    if k > 0 {
        let j = (k - 1) as nat;
        lemma_table_reachable(strip, target, j, s);
        assert forall|rotated: bool| #[trigger] strip.usable(k - 1, rotated) implies (
        strip.extended(strip.table(target, j), k - 1, s, rotated) <==> strip.reachable(
            j,
            s - strip.len(k - 1, rotated),
        )) by {
            let prev = s - strip.len(k - 1, rotated);
            if prev > 0 {
                lemma_table_reachable(strip, target, j, prev);
            } else if prev == 0 {
                lemma_zero_reachable(strip, j);
            } else if strip.reachable(j, prev) {
                lemma_reachable_nonneg(strip, j, prev);
            }
        }
        assert(strip.usable(k - 1, false) || !strip.usable(k - 1, false));
        assert(strip.usable(k - 1, true) || !strip.usable(k - 1, true));
    }
}

/// What an entry of the table says: it names an earlier candidate that is usable, and the sum
/// before it was reached by candidates before it.
proof fn lemma_table_entry(strip: Strip, target: u32, k: nat, s: int)
    requires
        0 <= s <= target,
        k <= strip.candidates.len() <= usize::MAX,
        strip.table(target, k)[s] is Some,
    ensures
        ({
            let (pos, rotated, prev) = strip.table(target, k)[s]->0;
            &&& s > 0
            &&& pos < k
            &&& strip.usable(pos as int, rotated)
            &&& strip.len(pos as int, rotated) > 0
            &&& prev + strip.len(pos as int, rotated) == s
            &&& prev == 0 || strip.table(target, pos as nat)[prev as int] is Some
        }),
    decreases k,
{
    let j = (k - 1) as nat;
    if k > 0 {
        let before = strip.table(target, j);
        if s == 0 || before[s] is Some {
            lemma_table_entry(strip, target, j, s);
        }
    }
}

/// An entry stays as it was first written.
proof fn lemma_table_stays(strip: Strip, target: u32, j: nat, k: nat, s: int)
    requires
        j <= k,
        0 <= s <= target,
        strip.table(target, j)[s] is Some,
    ensures
        strip.table(target, k)[s] == strip.table(target, j)[s],
    decreases k,
{
    if j < k {
        lemma_table_stays(strip, target, j, (k - 1) as nat, s);
    }
}

/// The positions that a chain uses.
spec fn chain_positions(strip: Strip, table: Seq<Option<(usize, bool, u32)>>, s: int) -> Seq<
    int,
>
    decreases s,
{
    if s <= 0 || table[s] is None {
        Seq::empty()
    } else {
        let (pos, rotated, prev) = table[s]->0;
        if prev >= s {
            Seq::empty()
        } else {
            seq![pos as int] + chain_positions(strip, table, prev as int)
        }
    }
}

/// A chain adds up to its sum, uses candidates in decreasing order of position, and each of
/// them in a usable orientation.
proof fn lemma_chain(strip: Strip, target: u32, k: nat, j: nat, s: int)
    requires
        0 <= s <= target,
        j <= k <= strip.candidates.len() <= usize::MAX,
        s == 0 || strip.table(target, j)[s] is Some,
    ensures
        ({
            let table = strip.table(target, k);
            let g = strip.chain(table, s);
            let p = chain_positions(strip, table, s);
            &&& strip.total(g) == s
            &&& g.len() == p.len()
            &&& forall|i: int|
                0 <= i < g.len() ==> {
                    &&& 0 <= #[trigger] p[i] < j
                    &&& g[i].0 == strip.candidates[p[i]]
                    &&& strip.usable(p[i], g[i].1)
                }
            &&& forall|a: int, b: int| 0 <= a < b < p.len() ==> p[b] < p[a]
        }),
    decreases s,
{
    let table = strip.table(target, k);
    if s > 0 {
        lemma_table_stays(strip, target, j, k, s);
        lemma_table_entry(strip, target, j, s);
        let (pos, rotated, prev) = table[s]->0;
        lemma_chain(strip, target, k, pos as nat, prev as int);
        let g = strip.chain(table, s);
        let p = chain_positions(strip, table, s);
        let g2 = strip.chain(table, prev as int);
        let p2 = chain_positions(strip, table, prev as int);
        assert(g.drop_first() =~= g2);
        assert forall|i: int| 0 <= i < g.len() implies {
            &&& 0 <= #[trigger] p[i] < j
            &&& g[i].0 == strip.candidates[p[i]]
            &&& strip.usable(p[i], g[i].1)
        } by {
            if i > 0 {
                assert(p[i] == p2[i - 1] && g[i] == g2[i - 1]);
            }
        }
        assert forall|a: int, b: int| 0 <= a < b < p.len() implies p[b] < p[a] by {
            assert(p[b] == p2[b - 1]);
            if a > 0 {
                assert(p[a] == p2[a - 1]);
            }
        }
    }
}

proof fn lemma_best_sum(strip: Strip, target: u32, k: nat, s: int)
    requires
        0 <= s <= target,
    ensures
        ({
            let b = strip.best_sum(strip.table(target, k), s);
            &&& 0 <= b <= s
            &&& strip.reachable(k, b)
            &&& b == 0 || strip.table(target, k)[b] is Some
            &&& forall|v: int| b < v <= s ==> !strip.reachable(k, v)
        }),
    decreases s,
{
    let table = strip.table(target, k);
    if s > 0 {
        lemma_table_reachable(strip, target, k, s);
        if table[s] is None {
            lemma_best_sum(strip, target, k, s - 1);
        }
    } else {
        lemma_zero_reachable(strip, k);
    }
}

/// The best group is as long as any that does not exceed the target; its members are distinct
/// candidates, each in an orientation that goes into the strip.
pub proof fn law_best_group(strip: Strip, target: u32)
    requires
        strip.candidates.len() <= usize::MAX,
    ensures
        ({
            let g = strip.best(target);
            &&& strip.total(g) <= target
            &&& strip.reachable(strip.candidates.len(), strip.total(g))
            &&& forall|v: int|
                strip.total(g) < v <= target ==> !strip.reachable(strip.candidates.len(), v)
        }),
        forall|i: int|
            0 <= i < strip.best(target).len() ==> {
                let m = #[trigger] strip.best(target)[i];
                &&& strip.candidates.contains(m.0)
                &&& m.1 ==> strip.pieces[m.0 as int].can_rotate
                &&& cross_of(strip.pieces[m.0 as int], m.1, strip.vertical) <= strip.cross_cap
            },
        strip.candidates.no_duplicates() ==> forall|i: int, j: int|
            0 <= i < j < strip.best(target).len() ==> (#[trigger] strip.best(target)[i]).0 != (
            #[trigger] strip.best(target)[j]).0,
        strip.best(target).len() <= strip.candidates.len(),
{
    let n = strip.candidates.len();
    let table = strip.table(target, n);
    let b = strip.best_sum(table, target as int);
    lemma_best_sum(strip, target, n, target as int);
    lemma_chain(strip, target, n, n, b);
    let g = strip.best(target);
    let p = chain_positions(strip, table, b);
    assert forall|i: int| 0 <= i < g.len() implies {
        let m = #[trigger] g[i];
        &&& strip.candidates.contains(m.0)
        &&& m.1 ==> strip.pieces[m.0 as int].can_rotate
        &&& cross_of(strip.pieces[m.0 as int], m.1, strip.vertical) <= strip.cross_cap
    } by {
        assert(0 <= p[i] < n);
        assert(g[i].0 == strip.candidates[p[i]]);
    }
    if strip.candidates.no_duplicates() {
        assert forall|i: int, j: int| 0 <= i < j < g.len() implies (#[trigger] g[i]).0 != (
        #[trigger] g[j]).0 by {
            assert(p[j] < p[i]);
        }
    }
    if g.len() > 0 {
        lemma_decreasing(p, n as int, g.len() - 1);
    }
}

proof fn lemma_decreasing(p: Seq<int>, n: int, i: int)
    requires
        0 <= i < p.len(),
        forall|a: int| 0 <= a < p.len() ==> 0 <= #[trigger] p[a] < n,
        forall|a: int, b: int| 0 <= a < b < p.len() ==> p[b] < p[a],
    ensures
        p[i] <= n - 1 - i,
    decreases i,
{
    if i > 0 {
        lemma_decreasing(p, n, i - 1);
        assert(p[i] < p[i - 1]);
    }
}

/// Considers one candidate: every sum that it reaches first is entered in the table.
fn add_candidate(
    choice: &mut Vec<Option<(usize, bool, u32)>>,
    p: &Piece,
    pos: usize,
    cross_cap: u32,
    target: u32,
    vertical: bool,
    Ghost(strip): Ghost<Strip>,
)
    requires
        pos < strip.candidates.len(),
        *p == strip.piece(pos as int),
        strip.cross_cap == cross_cap,
        strip.vertical == vertical,
        old(choice)@ == strip.table(target, pos as nat),
    ensures
        final(choice)@ == strip.table(target, (pos + 1) as nat),
{
    let ghost before = choice@;
    let ghost after = strip.table(target, (pos + 1) as nat);
    let turn = p.can_rotate && p.width != p.height;
    let (cross_a, len_a) = if vertical {
        (p.width, p.height)
    } else {
        (p.height, p.width)
    };
    let mut s: u32 = target;
    while s > 0
        invariant
            s <= target,
            pos < strip.candidates.len(),
            *p == strip.piece(pos as int),
            strip.cross_cap == cross_cap,
            strip.vertical == vertical,
            turn == (p.can_rotate && p.width != p.height),
            cross_a == cross_of(*p, false, vertical),
            len_a == len_of(*p, false, vertical),
            before == strip.table(target, pos as nat),
            after == strip.table(target, (pos + 1) as nat),
            before.len() == target + 1,
            choice@.len() == target + 1,
            forall|i: int| 0 <= i <= s ==> choice@[i] == before[i],
            forall|i: int| s < i <= target ==> choice@[i] == after[i],
        decreases s,
    {
        if choice[s as usize].is_none() {
            assert(before[s as int] is None);
            if cross_a <= cross_cap && len_a <= s && (s == len_a || choice[(s
                - len_a) as usize].is_some()) {
                assert(strip.extended(before, pos as int, s as int, false));
                choice.set(s as usize, Some((pos, false, s - len_a)));
            } else if turn && len_a <= cross_cap && cross_a <= s && (s == cross_a || choice[(s
                - cross_a) as usize].is_some()) {
                assert(strip.extended(before, pos as int, s as int, true));
                choice.set(s as usize, Some((pos, true, s - cross_a)));
            }
        }
        assert(choice@[s as int] == after[s as int]);
        s -= 1;
    }
    assert(choice@ =~= after);
}

/// Best group of pieces for a guillotine strip: the subset of the candidates whose total
/// length along the strip is greatest but does not exceed `target`.
///
/// In a vertical strip (a column) a piece of `pw` x `ph` participates when `pw <= cross_cap`
/// and adds `ph`; in a horizontal strip (a row) the roles swap. Candidates are considered in
/// the given order, the first that reaches a sum stays, and the orientation that is not rotated
/// is tried first.
pub fn best_group(
    pieces: &[Piece],
    candidates: &[usize],
    cross_cap: u32,
    target: u32,
    vertical: bool,
) -> (r: Vec<(usize, bool)>)
    requires
        forall|i: int|
            0 <= i < candidates@.len() ==> #[trigger] candidates@[i] < pieces@.len(),
        target < usize::MAX,
    ensures
        r@ == (Strip { pieces: pieces@, candidates: candidates@, cross_cap, vertical }).best(target),
{
    let ghost strip = Strip { pieces: pieces@, candidates: candidates@, cross_cap, vertical };
    let mut choice: Vec<Option<(usize, bool, u32)>> = vec![None; target as usize + 1];
    let n: usize = candidates.len();
    let mut pos: usize = 0;
    assert(choice@ =~= strip.table(target, 0));
    while pos < n
        invariant
            pos <= n,
            n == candidates@.len(),
            strip == (Strip { pieces: pieces@, candidates: candidates@, cross_cap, vertical }),
            forall|i: int|
                0 <= i < candidates@.len() ==> #[trigger] candidates@[i] < pieces@.len(),
            choice@ == strip.table(target, pos as nat),
        decreases n - pos,
    {
        let p = &pieces[candidates[pos]];
        add_candidate(&mut choice, p, pos, cross_cap, target, vertical, Ghost(strip));
        pos += 1;
    }
    let ghost table = strip.table(target, n as nat);
    let mut s: u32 = target;
    while s > 0 && choice[s as usize].is_none()
        invariant
            s <= target,
            choice@.len() == target + 1,
            choice@ == table,
            strip.best_sum(table, target as int) == strip.best_sum(table, s as int),
        decreases s,
    {
        s -= 1;
    }
    let mut group: Vec<(usize, bool)> = Vec::new();
    let ghost goal = strip.chain(table, s as int);
    assert(group@ + strip.chain(table, s as int) =~= goal);
    while s > 0
        invariant
            s <= target,
            n == candidates@.len(),
            strip == (Strip { pieces: pieces@, candidates: candidates@, cross_cap, vertical }),
            choice@ == table,
            table == strip.table(target, n as nat),
            s == 0 || table[s as int] is Some,
            group@ + strip.chain(table, s as int) == goal,
        decreases s,
    {
        proof {
            lemma_table_entry(strip, target, n as nat, s as int);
        }
        if let Some((pos, rotated, prev)) = choice[s as usize] {
            proof {
                if prev > 0 {
                    lemma_table_stays(strip, target, pos as nat, n as nat, prev as int);
                }
            }
            let ghost start = group@;
            group.push((candidates[pos], rotated));
            assert(group@ + strip.chain(table, prev as int) =~= start + strip.chain(
                table,
                s as int,
            ));
            s = prev;
        }
    }
    assert(group@ =~= goal);
    group
}

} // verus!
