//! Problems and solutions as the user states and reads them.

use vstd::prelude::*;

use crate::expand::copies;
use crate::model::{FreeRect, PieceType, PlacementSpec, ProblemSpec, Sheet, SolutionSpec};

verus! {

/// A piece type with its shorter side as its width, where it may rotate.
pub open spec fn canonical_type(t: PieceType) -> PieceType {
    if t.can_rotate && t.width > t.height {
        PieceType { width: t.height, height: t.width, ..t }
    } else {
        t
    }
}

/// Two types of the same size and rotation.
pub open spec fn same_key(a: PieceType, b: PieceType) -> bool {
    a.width == b.width && a.height == b.height && a.can_rotate == b.can_rotate
}

/// Types of different keys, and how many copies each has.
pub struct Merged {
    pub types: Seq<PieceType>,
    pub counts: Seq<int>,
}

/// The first of the first `k` types with the key of `t`, none where there is none.
pub open spec fn key_position(types: Seq<PieceType>, t: PieceType, k: nat) -> Option<int>
    decreases k,
{
    if k == 0 {
        None
    } else {
        match key_position(types, t, (k - 1) as nat) {
            Some(i) => Some(i),
            None => if same_key(types[k - 1], t) {
                Some(k - 1)
            } else {
                None
            },
        }
    }
}

/// One more type: its copies go to the one with its key, or it comes last.
pub open spec fn merge_one(m: Merged, t: PieceType) -> Merged {
    match key_position(m.types, t, m.types.len()) {
        Some(i) => Merged { types: m.types, counts: m.counts.update(i, m.counts[i] + t.count) },
        None => Merged { types: m.types.push(t), counts: m.counts.push(t.count as int) },
    }
}

/// The first `k` types in canonical form, those with equal keys together.
pub open spec fn merged(types: Seq<PieceType>, k: nat) -> Merged
    decreases k,
{
    if k == 0 {
        Merged { types: Seq::empty(), counts: Seq::empty() }
    } else {
        merge_one(merged(types, (k - 1) as nat), canonical_type(types[k - 1]))
    }
}

/// The types with their counts.
pub open spec fn counted(m: Merged) -> Seq<PieceType> {
    Seq::new(m.types.len(), |i: int| PieceType { count: m.counts[i] as u32, ..m.types[i] })
}

/// Every count is one that a machine integer holds.
pub open spec fn countable(m: Merged) -> bool {
    forall|i: int| 0 <= i < m.counts.len() ==> 0 <= #[trigger] m.counts[i] <= u32::MAX
}

proof fn lemma_key_position(types: Seq<PieceType>, t: PieceType, k: nat)
    requires
        k <= types.len(),
    ensures
        match key_position(types, t, k) {
            Some(i) => 0 <= i < k && same_key(types[i], t) && forall|j: int|
                0 <= j < i ==> !same_key(#[trigger] types[j], t),
            None => forall|j: int| 0 <= j < k ==> !same_key(#[trigger] types[j], t),
        },
    decreases k,
{
    if k > 0 {
        lemma_key_position(types, t, (k - 1) as nat);
    }
}

/// Merging keeps keys apart, takes every copy in, and counts never go down.
proof fn lemma_merged(types: Seq<PieceType>, k: nat)
    requires
        k <= types.len(),
    ensures
        merged(types, k).types.len() == merged(types, k).counts.len(),
        forall|i: int, j: int|
            0 <= i < j < merged(types, k).types.len() ==> !same_key(
                #[trigger] merged(types, k).types[i],
                #[trigger] merged(types, k).types[j],
            ),
        forall|i: int|
            0 <= i < merged(types, k).types.len() ==> {
                let t = #[trigger] merged(types, k).types[i];
                t.can_rotate ==> t.width <= t.height
            },
        forall|i: int| 0 <= i < merged(types, k).counts.len() ==> #[trigger] merged(types, k).counts[i] >= 0,
        int_sum(merged(types, k).counts) == copies(types, k),
    decreases k,
{
    if k > 0 {
        let m = merged(types, (k - 1) as nat);
        let t = canonical_type(types[k - 1]);
        lemma_merged(types, (k - 1) as nat);
        lemma_key_position(m.types, t, m.types.len());
        match key_position(m.types, t, m.types.len()) {
            Some(i) => {
                lemma_sum_update(m.counts, i, m.counts[i] + t.count);
            },
            None => {
                let c = m.counts.push(t.count as int);
                assert(c.drop_last() =~= m.counts);
            },
        }
    }
}

/// Sum of all numbers.
pub open spec fn int_sum(s: Seq<int>) -> int
    decreases s.len(),
{
    if s.len() == 0 {
        0
    } else {
        int_sum(s.drop_last()) + s.last()
    }
}

proof fn lemma_sum_update(s: Seq<int>, i: int, v: int)
    requires
        0 <= i < s.len(),
    ensures
        int_sum(s.update(i, v)) == int_sum(s) - s[i] + v,
    decreases s.len(),
{
    let d = s.drop_last();
    let u = s.update(i, v);
    if i == s.len() - 1 {
        assert(u.drop_last() =~= d);
    } else {
        lemma_sum_update(d, i, v);
        assert(u.drop_last() =~= d.update(i, v));
    }
}

proof fn lemma_counts_grow(types: Seq<PieceType>, j: nat, k: nat, i: int)
    requires
        j <= k <= types.len(),
        0 <= i < merged(types, j).counts.len(),
    ensures
        i < merged(types, k).counts.len(),
        merged(types, j).counts[i] <= merged(types, k).counts[i],
    decreases k,
{
    if j < k {
        lemma_counts_grow(types, j, (k - 1) as nat, i);
        let m = merged(types, (k - 1) as nat);
        lemma_merged(types, (k - 1) as nat);
        lemma_key_position(m.types, canonical_type(types[k - 1]), m.types.len());
    }
}

/// Normal form has as many copies in all, no two types of the same key, and no type that may
/// rotate wider than high.
pub proof fn law_normal_form(types: Seq<PieceType>)
    requires
        countable(merged(types, types.len())),
    ensures
        ({
            let r = counted(merged(types, types.len()));
            &&& copies(r, r.len()) == copies(types, types.len())
            &&& forall|i: int, j: int|
                0 <= i < j < r.len() ==> !same_key(#[trigger] r[i], #[trigger] r[j])
            &&& forall|i: int|
                0 <= i < r.len() && (#[trigger] r[i]).can_rotate ==> r[i].width <= r[i].height
        }),
{
    let m = merged(types, types.len());
    let r = counted(m);
    lemma_merged(types, types.len());
    lemma_copies_sum(m, r.len());
    assert(m.counts.take(r.len() as int) =~= m.counts);
    assert forall|i: int, j: int| 0 <= i < j < r.len() implies !same_key(
        #[trigger] r[i],
        #[trigger] r[j],
    ) by {
        assert(!same_key(m.types[i], m.types[j]));
    }
    assert forall|i: int| 0 <= i < r.len() && (#[trigger] r[i]).can_rotate implies r[i].width
        <= r[i].height by {
        assert(m.types[i].can_rotate ==> m.types[i].width <= m.types[i].height);
    }
}

proof fn lemma_copies_sum(m: Merged, k: nat)
    requires
        countable(m),
        m.counts.len() == m.types.len(),
        k <= m.types.len(),
    ensures
        copies(counted(m), k) == int_sum(m.counts.take(k as int)),
    decreases k,
{
    let s = m.counts.take(k as int);
    if k > 0 {
        lemma_copies_sum(m, (k - 1) as nat);
        assert(s.drop_last() =~= m.counts.take(k - 1));
        assert(0 <= m.counts[k - 1] <= u32::MAX);
    }
}

/// A normal form can be brought to normal form again, and stays the same.
pub proof fn law_normalize_twice(types: Seq<PieceType>)
    requires
        countable(merged(types, types.len())),
    ensures
        ({
            let r = counted(merged(types, types.len()));
            &&& countable(merged(r, r.len()))
            &&& counted(merged(r, r.len())) == r
        }),
{
    let r = counted(merged(types, types.len()));
    law_normal_form(types);
    lemma_merge_normal(r, r.len());
    assert(counted(merged(r, r.len())) =~= r) by {
        let m = merged(r, r.len());
        assert forall|i: int| 0 <= i < r.len() implies counted(m)[i] == r[i] by {
            assert(m.types[i] == r[i]);
        }
    }
}

proof fn lemma_merge_normal(r: Seq<PieceType>, k: nat)
    requires
        k <= r.len(),
        forall|i: int, j: int| 0 <= i < j < r.len() ==> !same_key(#[trigger] r[i], #[trigger] r[j]),
        forall|i: int|
            0 <= i < r.len() && (#[trigger] r[i]).can_rotate ==> r[i].width <= r[i].height,
    ensures
        merged(r, k).types == r.take(k as int),
        merged(r, k).counts.len() == k,
        forall|i: int| 0 <= i < k ==> #[trigger] merged(r, k).counts[i] == r[i].count,
    decreases k,
{
    let m = merged(r, k);
    if k == 0 {
        assert(m.types =~= r.take(0));
    } else {
        let p = merged(r, (k - 1) as nat);
        lemma_merge_normal(r, (k - 1) as nat);
        let t = canonical_type(r[k - 1]);
        assert(t == r[k - 1]);
        lemma_key_position(p.types, t, p.types.len());
        if key_position(p.types, t, p.types.len()) is Some {
            let i = key_position(p.types, t, p.types.len())->0;
            assert(p.types[i] == r[i]);
            assert(!same_key(r[i], r[k - 1]));
        }
        assert(m.types =~= r.take(k as int));
    }
}

fn find_key(types: &Vec<PieceType>, t: &PieceType) -> (r: Option<usize>)
    ensures
        match r {
            Some(i) => i < types@.len() && key_position(types@, *t, types@.len()) == Some(i as int),
            None => key_position(types@, *t, types@.len()) is None,
        },
{
    let mut k: usize = 0;
    while k < types.len()
        invariant
            k <= types@.len(),
            key_position(types@, *t, k as nat) is None,
        decreases types@.len() - k,
    {
        let q = &types[k];
        if q.width == t.width && q.height == t.height && q.can_rotate == t.can_rotate {
            proof {
                lemma_position_stays(types@, *t, (k + 1) as nat, types@.len());
            }
            return Some(k);
        }
        k += 1;
    }
    None
}

proof fn lemma_position_stays(types: Seq<PieceType>, t: PieceType, j: nat, k: nat)
    requires
        j <= k <= types.len(),
        key_position(types, t, j) is Some,
    ensures
        key_position(types, t, k) == key_position(types, t, j),
    decreases k,
{
    if j < k {
        lemma_position_stays(types, t, j, (k - 1) as nat);
    }
}

/// Only keys count for the position of a key.
proof fn lemma_position_keys(a: Seq<PieceType>, b: Seq<PieceType>, t: PieceType, k: nat)
    requires
        k <= a.len(),
        k <= b.len(),
        forall|i: int| 0 <= i < k ==> same_key(#[trigger] a[i], b[i]),
    ensures
        key_position(a, t, k) == key_position(b, t, k),
    decreases k,
{
    if k > 0 {
        lemma_position_keys(a, b, t, (k - 1) as nat);
        assert(same_key(a[k - 1], b[k - 1]));
    }
}

/// Whether the copies of all types that normal form merges can be counted.
pub fn can_normalize(types: &Vec<PieceType>) -> (r: bool)
    requires
        types@.len() <= u32::MAX,
    ensures
        r == countable(merged(types@, types@.len())),
{
    let mut out: Vec<PieceType> = Vec::new();
    let mut counts: Vec<u64> = Vec::new();
    let mut k: usize = 0;
    let ghost first = merged(types@, 0);
    assert(out@ =~= first.types);
    while k < types.len()
        invariant
            k <= types@.len(),
            types@.len() <= u32::MAX,
            out@ == merged(types@, k as nat).types,
            counts@.len() == merged(types@, k as nat).counts.len(),
            forall|i: int|
                0 <= i < counts@.len() ==> #[trigger] counts@[i] == merged(
                    types@,
                    k as nat,
                ).counts[i] && counts@[i] <= k * 0xffff_ffff,
        decreases types@.len() - k,
    {
        let ghost m = merged(types@, k as nat);
        let mut t = types[k].clone();
        if t.can_rotate && t.width > t.height {
            let w: u32 = t.width;
            t.width = t.height;
            t.height = w;
        }
        proof {
            assert(t == canonical_type(types@[k as int]));
            lemma_merged(types@, k as nat);
            lemma_key_position(m.types, t, m.types.len());
            assert((k + 1) * 0xffff_ffff == k * 0xffff_ffff + 0xffff_ffff);
            assert(k * 0xffff_ffff <= 0xffff_ffff * 0xffff_ffff);
        }
        match find_key(&out, &t) {
            Some(i) => {
                assert(counts@[i as int] == m.counts[i as int]);
                counts.set(i, counts[i] + t.count as u64);
            },
            None => {
                counts.push(t.count as u64);
                out.push(t);
            },
        }
        k += 1;
    }
    let mut i: usize = 0;
    while i < counts.len()
        invariant
            i <= counts@.len(),
            counts@.len() == merged(types@, types@.len()).counts.len(),
            forall|j: int|
                0 <= j < counts@.len() ==> #[trigger] counts@[j] == merged(
                    types@,
                    types@.len(),
                ).counts[j],
            forall|j: int| 0 <= j < i ==> 0 <= #[trigger] merged(types@, types@.len()).counts[j]
                <= u32::MAX,
        decreases counts@.len() - i,
    {
        assert(counts@[i as int] == merged(types@, types@.len()).counts[i as int]);
        if counts[i] > 0xffff_ffff {
            return false;
        }
        i += 1;
    }
    true
}

impl ProblemSpec {
    /// Brings the piece types to normal form: types that may rotate get their shorter side as
    /// their width, and types of the same size and rotation are merged into the first of them.
    pub fn normalize(&mut self)
        requires
            countable(merged(old(self).piece_types@, old(self).piece_types@.len())),
        ensures
            final(self).piece_types@ == counted(
                merged(old(self).piece_types@, old(self).piece_types@.len()),
            ),
            final(self).sheet == old(self).sheet,
            final(self).kerf == old(self).kerf,
            final(self).margin == old(self).margin,
    {
        let ghost types = self.piece_types@;
        let mut out: Vec<PieceType> = Vec::new();
        let mut k: usize = 0;
        assert(out@ =~= counted(merged(types, 0)));
        while k < self.piece_types.len()
            invariant
                k <= types.len(),
                types == self.piece_types@,
                types == old(self).piece_types@,
                self.sheet == old(self).sheet,
                self.kerf == old(self).kerf,
                self.margin == old(self).margin,
                countable(merged(types, types.len())),
                out@ == counted(merged(types, k as nat)),
            decreases types.len() - k,
        {
            let ghost m = merged(types, k as nat);
            let mut t = self.piece_types[k].clone();
            if t.can_rotate && t.width > t.height {
                let w: u32 = t.width;
                t.width = t.height;
                t.height = w;
            }
            proof {
                assert(t == canonical_type(types[k as int]));
                lemma_merged(types, k as nat);
                lemma_key_position(m.types, t, m.types.len());
                assert forall|i: int| 0 <= i < m.types.len() implies same_key(
                    #[trigger] out@[i],
                    m.types[i],
                ) by {}
                lemma_position_keys(out@, m.types, t, m.types.len());
            }
            match find_key(&out, &t) {
                Some(i) => {
                    proof {
                        lemma_counts_grow(types, (k + 1) as nat, types.len(), i as int);
                        lemma_counts_grow(types, k as nat, types.len(), i as int);
                        assert(0 <= merged(types, types.len()).counts[i as int] <= u32::MAX);
                        assert(merged(types, (k + 1) as nat).counts[i as int] == m.counts[i as int]
                            + t.count);
                    }
                    let c: u32 = out[i].count;
                    out[i].count = c + t.count;
                    assert(out@ =~= counted(merged(types, (k + 1) as nat)));
                },
                None => {
                    out.push(t);
                    assert(out@ =~= counted(merged(types, (k + 1) as nat)));
                },
            }
            k += 1;
        }
        self.piece_types = out;
    }
}

/// The number of sheets of a solution: one more than the largest sheet index.
pub open spec fn spec_sheets(placements: Seq<PlacementSpec>) -> int
    decreases placements.len(),
{
    if placements.len() == 0 {
        0
    } else {
        let rest = spec_sheets(placements.drop_last());
        let s = placements.last().sheet_idx + 1;
        if s > rest {
            s
        } else {
            rest
        }
    }
}

proof fn lemma_spec_sheets(placements: Seq<PlacementSpec>)
    ensures
        spec_sheets(placements) >= 0,
        forall|i: int|
            0 <= i < placements.len() ==> (#[trigger] placements[i]).sheet_idx < spec_sheets(
                placements,
            ),
    decreases placements.len(),
{
    if placements.len() > 0 {
        let d = placements.drop_last();
        lemma_spec_sheets(d);
        assert forall|i: int| 0 <= i < placements.len() implies (
        #[trigger] placements[i]).sheet_idx < spec_sheets(placements) by {
            if i < d.len() {
                assert(d[i] == placements[i]);
            }
        }
    }
}

/// The rectangle of a placed piece, without the saw cut.
pub open spec fn spec_cell(types: Seq<PieceType>, pl: PlacementSpec) -> FreeRect {
    let t = types[pl.ptype_idx as int];
    FreeRect {
        sheet_idx: pl.sheet_idx,
        x: pl.x,
        y: pl.y,
        w: if pl.rotated {
            t.height
        } else {
            t.width
        },
        h: if pl.rotated {
            t.width
        } else {
            t.height
        },
    }
}

/// The length of the edges of a rectangle that are not on the edge of the working area.
pub open spec fn inner_edges(sheet: Sheet, margin: u32, c: FreeRect) -> int {
    (if c.x > margin {
        c.h as int
    } else {
        0
    }) + (if c.x + c.w < sheet.width - margin {
        c.h as int
    } else {
        0
    }) + (if c.y > margin {
        c.w as int
    } else {
        0
    }) + (if c.y + c.h < sheet.height - margin {
        c.w as int
    } else {
        0
    })
}

/// The inner edges of the first `k` placed pieces on a sheet.
pub open spec fn piece_edges(
    spec: ProblemSpec,
    placements: Seq<PlacementSpec>,
    s: int,
    k: nat,
) -> int
    decreases k,
{
    if k == 0 {
        0
    } else {
        let c = spec_cell(spec.piece_types@, placements[k - 1]);
        piece_edges(spec, placements, s, (k - 1) as nat) + if c.sheet_idx == s {
            inner_edges(spec.sheet, spec.margin, c)
        } else {
            0
        }
    }
}

/// The inner edges of the first `k` leftovers on a sheet.
pub open spec fn leftover_edges(spec: ProblemSpec, leftovers: Seq<FreeRect>, s: int, k: nat) -> int
    decreases k,
{
    if k == 0 {
        0
    } else {
        leftover_edges(spec, leftovers, s, (k - 1) as nat) + if leftovers[k - 1].sheet_idx == s {
            inner_edges(spec.sheet, spec.margin, leftovers[k - 1])
        } else {
            0
        }
    }
}

/// The length of all cuts on a sheet: every inner edge is shared by two rectangles; with a
/// margin, the working area is cut out too.
pub open spec fn cut_length(spec: ProblemSpec, sol: SolutionSpec, s: int) -> int {
    let edges = piece_edges(spec, sol.placements@, s, sol.placements@.len()) + leftover_edges(
        spec,
        sol.leftovers@,
        s,
        sol.leftovers@.len(),
    );
    edges / 2 + if spec.margin > 0 {
        2 * (spec.sheet.width - 2 * spec.margin + spec.sheet.height - 2 * spec.margin)
    } else {
        0
    }
}

/// The rectangle ends inside the number range.
pub open spec fn ends_in_range(c: FreeRect) -> bool {
    c.x + c.w <= u32::MAX && c.y + c.h <= u32::MAX
}

/// The cuts of a solution can be measured: its rectangles end inside the number range, and so
/// do the sums of their edges.
pub open spec fn measurable(spec: ProblemSpec, sol: SolutionSpec) -> bool {
    &&& 2 * spec.margin <= spec.sheet.width
    &&& 2 * spec.margin <= spec.sheet.height
    &&& forall|i: int|
        0 <= i < sol.placements@.len() ==> {
            &&& (#[trigger] sol.placements@[i]).sheet_idx < usize::MAX
            &&& sol.placements@[i].ptype_idx < spec.piece_types@.len()
            &&& ends_in_range(spec_cell(spec.piece_types@, sol.placements@[i]))
        }
    &&& forall|i: int|
        0 <= i < sol.leftovers@.len() ==> ends_in_range(#[trigger] sol.leftovers@[i])
    &&& forall|s: int|
        0 <= s < spec_sheets(sol.placements@) ==> #[trigger] piece_edges(
            spec,
            sol.placements@,
            s,
            sol.placements@.len(),
        ) + leftover_edges(spec, sol.leftovers@, s, sol.leftovers@.len()) <= u64::MAX
}

/// A solution of a moderate number of rectangles can be measured.
pub proof fn law_few_are_measurable(spec: ProblemSpec, sol: SolutionSpec)
    requires
        sol.placements@.len() + sol.leftovers@.len() <= 0x1000_0000,
        2 * spec.margin <= spec.sheet.width,
        2 * spec.margin <= spec.sheet.height,
        forall|i: int|
            0 <= i < sol.placements@.len() ==> {
                &&& (#[trigger] sol.placements@[i]).sheet_idx < usize::MAX
                &&& sol.placements@[i].ptype_idx < spec.piece_types@.len()
                &&& ends_in_range(spec_cell(spec.piece_types@, sol.placements@[i]))
            },
        forall|i: int|
            0 <= i < sol.leftovers@.len() ==> ends_in_range(#[trigger] sol.leftovers@[i]),
    ensures
        measurable(spec, sol),
{
    assert forall|s: int|
        0 <= s < spec_sheets(sol.placements@) implies #[trigger] piece_edges(
        spec,
        sol.placements@,
        s,
        sol.placements@.len(),
    ) + leftover_edges(spec, sol.leftovers@, s, sol.leftovers@.len()) <= u64::MAX by {
        lemma_piece_edges(spec, sol.placements@, s, 0, sol.placements@.len());
        lemma_leftover_edges(spec, sol.leftovers@, s, 0, sol.leftovers@.len());
    }
}

proof fn lemma_piece_edges(
    spec: ProblemSpec,
    placements: Seq<PlacementSpec>,
    s: int,
    j: nat,
    k: nat,
)
    requires
        j <= k,
    ensures
        0 <= piece_edges(spec, placements, s, j) <= piece_edges(spec, placements, s, k)
            <= piece_edges(spec, placements, s, j) + (k - j) * 17_179_869_180,
    decreases k,
{
    if j < k {
        lemma_piece_edges(spec, placements, s, j, (k - 1) as nat);
    } else if k > 0 {
        lemma_piece_edges(spec, placements, s, (k - 1) as nat, (k - 1) as nat);
    }
}

proof fn lemma_leftover_edges(
    spec: ProblemSpec,
    leftovers: Seq<FreeRect>,
    s: int,
    j: nat,
    k: nat,
)
    requires
        j <= k,
    ensures
        0 <= leftover_edges(spec, leftovers, s, j) <= leftover_edges(spec, leftovers, s, k)
            <= leftover_edges(spec, leftovers, s, j) + (k - j) * 17_179_869_180,
    decreases k,
{
    if j < k {
        lemma_leftover_edges(spec, leftovers, s, j, (k - 1) as nat);
    } else if k > 0 {
        lemma_leftover_edges(spec, leftovers, s, (k - 1) as nat, (k - 1) as nat);
    }
}

fn edges_of(sheet: Sheet, margin: u32, c: FreeRect) -> (r: u64)
    requires
        ends_in_range(c),
        margin <= sheet.width,
        margin <= sheet.height,
    ensures
        r == inner_edges(sheet, margin, c),
        r <= 17_179_869_180,
{
    let mut total: u64 = 0;
    if c.x > margin {
        total = total + c.h as u64;
    }
    if c.x + c.w < sheet.width - margin {
        total = total + c.h as u64;
    }
    if c.y > margin {
        total = total + c.w as u64;
    }
    if c.y + c.h < sheet.height - margin {
        total = total + c.w as u64;
    }
    total
}

impl SolutionSpec {
    /// Number of sheets used.
    pub fn sheets_used(&self) -> (n: usize)
        requires
            forall|i: int|
                0 <= i < self.placements@.len() ==> (#[trigger] self.placements@[i]).sheet_idx
                    < usize::MAX,
        ensures
            n == spec_sheets(self.placements@),
    {
        let mut n: usize = 0;
        let mut k: usize = 0;
        assert(self.placements@.take(0) =~= Seq::empty());
        while k < self.placements.len()
            invariant
                k <= self.placements@.len(),
                forall|i: int|
                    0 <= i < self.placements@.len() ==> (#[trigger] self.placements@[i]).sheet_idx
                        < usize::MAX,
                n == spec_sheets(self.placements@.take(k as int)),
            decreases self.placements@.len() - k,
        {
            assert(self.placements@.take(k + 1).drop_last() =~= self.placements@.take(k as int));
            assert(self.placements@[k as int].sheet_idx < usize::MAX);
            let s: usize = self.placements[k].sheet_idx + 1;
            if s > n {
                n = s;
            }
            k += 1;
        }
        assert(self.placements@.take(k as int) =~= self.placements@);
        n
    }

    /// The length of the cuts of every sheet: each inner edge of a piece or a leftover counted
    /// once, and the outline of the working area where there is a margin.
    pub fn cut_lengths(&self, spec: &ProblemSpec) -> (r: Vec<u64>)
        requires
            measurable(*spec, *self),
        ensures
            r@.len() == spec_sheets(self.placements@),
            forall|s: int|
                0 <= s < r@.len() ==> #[trigger] r@[s] == cut_length(*spec, *self, s),
    {
        let n: usize = self.sheets_used();
        let m: u32 = spec.margin;
        let outline: u64 = if m > 0 {
            2 * ((spec.sheet.width - 2 * m) as u64 + (spec.sheet.height - 2 * m) as u64)
        } else {
            0
        };
        let mut out: Vec<u64> = Vec::new();
        while out.len() < n
            invariant
                out@.len() <= n,
                n == spec_sheets(self.placements@),
                m == spec.margin,
                outline == (if spec.margin > 0 {
                    2 * (spec.sheet.width - 2 * spec.margin + spec.sheet.height - 2 * spec.margin)
                } else {
                    0
                }),
                measurable(*spec, *self),
                2 * spec.margin <= spec.sheet.width,
                2 * spec.margin <= spec.sheet.height,
                forall|i: int|
                    0 <= i < self.placements@.len() ==> {
                        &&& (#[trigger] self.placements@[i]).sheet_idx < usize::MAX
                        &&& self.placements@[i].ptype_idx < spec.piece_types@.len()
                        &&& ends_in_range(spec_cell(spec.piece_types@, self.placements@[i]))
                    },
                forall|i: int|
                    0 <= i < self.leftovers@.len() ==> ends_in_range(#[trigger] self.leftovers@[i]),
                forall|s: int|
                    0 <= s < out@.len() ==> #[trigger] out@[s] == cut_length(*spec, *self, s),
            decreases n - out@.len(),
        {
            let s: usize = out.len();
            let mut a: u64 = 0;
            let mut k: usize = 0;
            assert(piece_edges(*spec, self.placements@, s as int, self.placements@.len())
                + leftover_edges(*spec, self.leftovers@, s as int, self.leftovers@.len())
                <= u64::MAX);
            while k < self.placements.len()
                invariant
                    k <= self.placements@.len(),
                    measurable(*spec, *self),
                    s < spec_sheets(self.placements@),
                    m == spec.margin,
                    2 * spec.margin <= spec.sheet.width,
                    2 * spec.margin <= spec.sheet.height,
                    forall|i: int|
                        0 <= i < self.placements@.len() ==> {
                            &&& (#[trigger] self.placements@[i]).sheet_idx < usize::MAX
                            &&& self.placements@[i].ptype_idx < spec.piece_types@.len()
                            &&& ends_in_range(spec_cell(spec.piece_types@, self.placements@[i]))
                        },
                    a == piece_edges(*spec, self.placements@, s as int, k as nat),
                decreases self.placements@.len() - k,
            {
                let pl = self.placements[k];
                assert(self.placements@[k as int].ptype_idx < spec.piece_types@.len());
                assert(ends_in_range(spec_cell(spec.piece_types@, self.placements@[k as int])));
                if pl.sheet_idx == s {
                    let t = &spec.piece_types[pl.ptype_idx];
                    let c = if pl.rotated {
                        FreeRect { sheet_idx: s, x: pl.x, y: pl.y, w: t.height, h: t.width }
                    } else {
                        FreeRect { sheet_idx: s, x: pl.x, y: pl.y, w: t.width, h: t.height }
                    };
                    proof {
                        let all = self.placements@.len();
                        lemma_piece_edges(
                            *spec,
                            self.placements@,
                            s as int,
                            (k + 1) as nat,
                            all,
                        );
                        lemma_leftover_edges(
                            *spec,
                            self.leftovers@,
                            s as int,
                            0,
                            self.leftovers@.len(),
                        );
                        assert(piece_edges(*spec, self.placements@, s as int, all)
                            <= u64::MAX);
                    }
                    a = a + edges_of(spec.sheet, m, c);
                }
                k += 1;
            }
            let mut b: u64 = 0;
            let mut q: usize = 0;
            while q < self.leftovers.len()
                invariant
                    q <= self.leftovers@.len(),
                    measurable(*spec, *self),
                    s < spec_sheets(self.placements@),
                    m == spec.margin,
                    2 * spec.margin <= spec.sheet.width,
                    2 * spec.margin <= spec.sheet.height,
                    forall|i: int|
                        0 <= i < self.leftovers@.len() ==> ends_in_range(
                            #[trigger] self.leftovers@[i],
                        ),
                    b == leftover_edges(*spec, self.leftovers@, s as int, q as nat),
                decreases self.leftovers@.len() - q,
            {
                let c = self.leftovers[q];
                assert(ends_in_range(self.leftovers@[q as int]));
                if c.sheet_idx == s {
                    proof {
                        let all = self.leftovers@.len();
                        lemma_leftover_edges(
                            *spec,
                            self.leftovers@,
                            s as int,
                            (q + 1) as nat,
                            all,
                        );
                        lemma_piece_edges(
                            *spec,
                            self.placements@,
                            s as int,
                            0,
                            self.placements@.len(),
                        );
                        assert(piece_edges(
                            *spec,
                            self.placements@,
                            s as int,
                            self.placements@.len(),
                        ) + leftover_edges(*spec, self.leftovers@, s as int, all) <= u64::MAX);
                    }
                    b = b + edges_of(spec.sheet, m, c);
                }
                q += 1;
            }
            out.push((a + b) / 2 + outline);
        }
        out
    }
}

} // verus!
