//! From piece types with counts to single pieces, and back.

use vstd::multiset::Multiset;
use vstd::prelude::*;

use crate::layout::{lemma_packed_apart, lemma_packed_fewer, lemma_packed_within};
use crate::model::{
    cells, FreeRect, Piece, PieceType, Placement, PlacementSpec, Problem, ProblemSpec, Sheet,
    Solution, SolutionSpec,
};
use crate::packing::{all_cells, sliced, sliced_sheets};
use crate::specs::spec_cell;
use crate::sorting::{
    arranged, in_order, lemma_order_exists, lemma_order_unique, order_of, precedes, ranked, Order,
    Ranking,
};

verus! {

/// Number of copies of the first `n` types.
pub open spec fn copies(types: Seq<PieceType>, n: nat) -> nat
    decreases n,
{
    if n == 0 {
        0
    } else {
        copies(types, (n - 1) as nat) + types[n - 1].count as nat
    }
}

/// The type of every copy, copies of one type side by side, for the first `n` types.
pub open spec fn type_indices(types: Seq<PieceType>, n: nat) -> Seq<usize>
    decreases n,
{
    if n == 0 {
        Seq::empty()
    } else {
        type_indices(types, (n - 1) as nat) + Seq::new(
            types[n - 1].count as nat,
            |i: int| (n - 1) as usize,
        )
    }
}

/// One copy, enlarged by the width of the saw cut.
pub open spec fn grown(t: PieceType, kerf: u32) -> Piece {
    Piece {
        name: t.name,
        width: (t.width + kerf) as u32,
        height: (t.height + kerf) as u32,
        can_rotate: t.can_rotate,
    }
}

/// All copies in order.
pub open spec fn grown_pieces(types: Seq<PieceType>, kerf: u32) -> Seq<Piece> {
    let of = type_indices(types, types.len());
    Seq::new(of.len(), |i: int| grown(types[of[i] as int], kerf))
}

/// The usable part of the sheet, enlarged by the width of the saw cut.
pub open spec fn grown_sheet(spec: ProblemSpec) -> Sheet {
    Sheet {
        width: (spec.sheet.width - 2 * spec.margin + spec.kerf) as u32,
        height: (spec.sheet.height - 2 * spec.margin + spec.kerf) as u32,
    }
}

/// The flat problem that a statement stands for.
pub open spec fn is_expansion(spec: ProblemSpec, problem: Problem) -> bool {
    problem.sheet == grown_sheet(spec) && problem.pieces@ == grown_pieces(
        spec.piece_types@,
        spec.kerf,
    )
}

/// The margin leaves room, and no enlarged measure is out of range.
pub open spec fn expandable(spec: ProblemSpec) -> bool {
    &&& spec.margin * 2 < spec.sheet.width
    &&& spec.margin * 2 < spec.sheet.height
    &&& spec.sheet.width - 2 * spec.margin + spec.kerf <= u32::MAX
    &&& spec.sheet.height - 2 * spec.margin + spec.kerf <= u32::MAX
    &&& forall|t: int|
        0 <= t < spec.piece_types@.len() ==> (#[trigger] spec.piece_types@[t]).width + spec.kerf
            <= u32::MAX && spec.piece_types@[t].height + spec.kerf <= u32::MAX
}

/// Whether the statement can be expanded.
pub fn is_expandable(spec: &ProblemSpec) -> (r: bool)
    ensures
        r == expandable(*spec),
{
    let (k, m) = (spec.kerf as u64, spec.margin as u64);
    let (w, h) = (spec.sheet.width as u64, spec.sheet.height as u64);
    let top: u64 = 0xffff_ffff;
    if !(2 * m < w && 2 * m < h && w - 2 * m + k <= top && h - 2 * m + k <= top) {
        return false;
    }
    let mut t: usize = 0;
    while t < spec.piece_types.len()
        invariant
            t <= spec.piece_types@.len(),
            k == spec.kerf,
            top == 0xffff_ffff,
            forall|i: int|
                0 <= i < t ==> (#[trigger] spec.piece_types@[i]).width + k <= top
                    && spec.piece_types@[i].height + k <= top,
        decreases spec.piece_types@.len() - t,
    {
        let p = &spec.piece_types[t];
        assert(*p == spec.piece_types@[t as int]);
        if p.width as u64 + k > top || p.height as u64 + k > top {
            return false;
        }
        t += 1;
    }
    true
}

/// Copies and their types: how many there are, and which type each has.
pub proof fn lemma_type_indices(types: Seq<PieceType>, n: nat)
    requires
        n <= types.len(),
    ensures
        type_indices(types, n).len() == copies(types, n),
        forall|i: int|
            0 <= i < type_indices(types, n).len() ==> {
                let t = #[trigger] type_indices(types, n)[i];
                n <= usize::MAX ==> t < n && copies(types, t as nat) <= i < copies(
                    types,
                    (t + 1) as nat,
                )
            },
    decreases n,
{
    if n > 0 {
        let m = (n - 1) as nat;
        lemma_type_indices(types, m);
        let a = type_indices(types, m);
        let b = type_indices(types, n);
        assert forall|i: int| 0 <= i < b.len() && n <= usize::MAX implies {
            let t = #[trigger] b[i];
            t < n && copies(types, t as nat) <= i < copies(types, (t + 1) as nat)
        } by {
            if i < a.len() {
                assert(b[i] == a[i]);
            }
        }
    }
}

/// A copy between the start of a type and the start of the next is of that type.
pub proof fn lemma_type_at(types: Seq<PieceType>, n: nat, t: int, i: int)
    requires
        n <= types.len(),
        n <= usize::MAX,
        0 <= t < n,
        copies(types, t as nat) <= i < copies(types, (t + 1) as nat),
    ensures
        i < copies(types, n),
        type_indices(types, n)[i] == t,
    decreases n,
{
    let m = (n - 1) as nat;
    lemma_type_indices(types, m);
    lemma_type_indices(types, n);
    if t < m {
        lemma_type_at(types, m, t, i);
        assert(type_indices(types, n)[i] == type_indices(types, m)[i]);
    } else {
        assert(type_indices(types, n)[i] == m);
    }
}

pub proof fn lemma_copies_grow(types: Seq<PieceType>, j: nat, k: nat)
    requires
        j <= k,
    ensures
        copies(types, j) <= copies(types, k),
    decreases k,
{
    if j < k {
        lemma_copies_grow(types, j, (k - 1) as nat);
    }
}

/// Builds the `flat_to_type` mapping: the type index of every copy.
pub fn flat_to_type_map(spec: &ProblemSpec) -> (r: Vec<usize>)
    ensures
        r@ == type_indices(spec.piece_types@, spec.piece_types@.len()),
{
    let mut out: Vec<usize> = Vec::new();
    let mut t: usize = 0;
    while t < spec.piece_types.len()
        invariant
            t <= spec.piece_types@.len(),
            out@ == type_indices(spec.piece_types@, t as nat),
        decreases spec.piece_types@.len() - t,
    {
        let count: u32 = spec.piece_types[t].count;
        let ghost start = out@;
        let mut c: u32 = 0;
        while c < count
            invariant
                c <= count,
                out@ =~= start + Seq::new(c as nat, |i: int| t),
            decreases count - c,
        {
            out.push(t);
            c += 1;
        }
        t += 1;
        assert(out@ =~= type_indices(spec.piece_types@, t as nat));
    }
    out
}

/// Expands a problem to one piece per copy. Sheet and pieces are enlarged by the width of the
/// saw cut, so that pieces can be placed flush, and the sheet is reduced by the margin.
pub fn expand_problem(spec: &ProblemSpec) -> (r: Problem)
    requires
        expandable(*spec),
    ensures
        is_expansion(*spec, r),
{
    let m: u32 = spec.margin;
    let k: u32 = spec.kerf;
    let of = flat_to_type_map(spec);
    proof {
        assert(spec.piece_types@.len() == spec.piece_types.len());
        lemma_type_indices(spec.piece_types@, spec.piece_types@.len());
    }
    let mut pieces: Vec<Piece> = Vec::new();
    let mut i: usize = 0;
    while i < of.len()
        invariant
            i <= of@.len(),
            k == spec.kerf,
            expandable(*spec),
            forall|j: int| 0 <= j < of@.len() ==> #[trigger] of@[j] < spec.piece_types@.len(),
            pieces@.len() == i,
            forall|j: int|
                0 <= j < i ==> pieces@[j] == grown(spec.piece_types@[of@[j] as int], k),
        decreases of@.len() - i,
    {
        let t = &spec.piece_types[of[i]];
        pieces.push(
            Piece {
                name: t.name.clone(),
                width: t.width + k,
                height: t.height + k,
                can_rotate: t.can_rotate,
            },
        );
        i += 1;
    }
    assert(pieces@ =~= grown_pieces(spec.piece_types@, k));
    Problem {
        sheet: Sheet {
            width: spec.sheet.width - 2 * m + k,
            height: spec.sheet.height - 2 * m + k,
        },
        pieces,
    }
}

/// How many of the first `k` placements are of type `t`.
pub open spec fn used_before(placements: Seq<PlacementSpec>, t: usize, k: nat) -> nat
    decreases k,
{
    if k == 0 {
        0
    } else {
        used_before(placements, t, (k - 1) as nat) + if placements[k - 1].ptype_idx == t {
            1nat
        } else {
            0nat
        }
    }
}

/// Placement number `k` with the copy that it stands for: copies of a type are used in order.
pub open spec fn expanded_placement(
    types: Seq<PieceType>,
    placements: Seq<PlacementSpec>,
    k: int,
) -> Placement {
    let pl = placements[k];
    Placement {
        sheet_idx: pl.sheet_idx,
        piece_idx: (copies(types, pl.ptype_idx as nat) + used_before(
            placements,
            pl.ptype_idx,
            k as nat,
        )) as usize,
        x: pl.x,
        y: pl.y,
        rotated: pl.rotated,
    }
}

proof fn lemma_used_bound(placements: Seq<PlacementSpec>, t: usize, k: nat)
    ensures
        used_before(placements, t, k) <= k,
    decreases k,
{
    if k > 0 {
        lemma_used_bound(placements, t, (k - 1) as nat);
    }
}

/// Turns a solution in terms of piece types into one in terms of single copies.
pub fn expand_solution(sol: &SolutionSpec, spec: &ProblemSpec) -> (r: Solution)
    requires
        forall|i: int|
            0 <= i < sol.placements@.len() ==> (#[trigger] sol.placements@[i]).ptype_idx
                < spec.piece_types@.len(),
        copies(spec.piece_types@, spec.piece_types@.len()) + sol.placements@.len() <= usize::MAX,
    ensures
        r.placements@ =~= Seq::new(
            sol.placements@.len(),
            |k: int| expanded_placement(spec.piece_types@, sol.placements@, k),
        ),
        r.leftovers@ == sol.leftovers@,
{
    let n: usize = spec.piece_types.len();
    let ghost types = spec.piece_types@;
    let mut starts: Vec<usize> = Vec::new();
    let mut acc: usize = 0;
    let mut t: usize = 0;
    while t < n
        invariant
            t <= n,
            n == types.len(),
            types == spec.piece_types@,
            copies(types, types.len()) <= usize::MAX,
            acc == copies(types, t as nat),
            starts@.len() == t,
            forall|j: int| 0 <= j < t ==> #[trigger] starts@[j] == copies(types, j as nat),
        decreases n - t,
    {
        starts.push(acc);
        proof {
            lemma_copies_grow(types, (t + 1) as nat, types.len());
        }
        acc = acc + spec.piece_types[t].count as usize;
        t += 1;
    }
    let mut used: Vec<usize> = vec![0; n];
    let mut placements: Vec<Placement> = Vec::new();
    let mut k: usize = 0;
    while k < sol.placements.len()
        invariant
            k <= sol.placements@.len(),
            n == types.len(),
            types == spec.piece_types@,
            copies(types, types.len()) + sol.placements@.len() <= usize::MAX,
            forall|i: int|
                0 <= i < sol.placements@.len() ==> (#[trigger] sol.placements@[i]).ptype_idx < n,
            starts@.len() == n,
            forall|j: int| 0 <= j < n ==> #[trigger] starts@[j] == copies(types, j as nat),
            used@.len() == n,
            forall|j: int|
                0 <= j < n ==> #[trigger] used@[j] == used_before(
                    sol.placements@,
                    j as usize,
                    k as nat,
                ),
            placements@.len() == k,
            forall|j: int|
                0 <= j < k ==> #[trigger] placements@[j] == expanded_placement(
                    types,
                    sol.placements@,
                    j,
                ),
        decreases sol.placements@.len() - k,
    {
        let pl = sol.placements[k];
        let ti: usize = pl.ptype_idx;
        proof {
            lemma_used_bound(sol.placements@, ti, k as nat);
            lemma_copies_grow(types, ti as nat, types.len());
        }
        let piece_idx: usize = starts[ti] + used[ti];
        let now: usize = used[ti] + 1;
        used.set(ti, now);
        placements.push(
            Placement { sheet_idx: pl.sheet_idx, piece_idx, x: pl.x, y: pl.y, rotated: pl.rotated },
        );
        k += 1;
    }
    let mut leftovers: Vec<FreeRect> = Vec::new();
    let mut i: usize = 0;
    while i < sol.leftovers.len()
        invariant
            i <= sol.leftovers@.len(),
            leftovers@ == sol.leftovers@.take(i as int),
        decreases sol.leftovers@.len() - i,
    {
        leftovers.push(sol.leftovers[i]);
        i += 1;
        assert(leftovers@ =~= sol.leftovers@.take(i as int));
    }
    assert(sol.leftovers@.take(i as int) =~= sol.leftovers@);
    Solution { placements, leftovers }
}

/// The first `k` pieces, with runs of equal pieces collapsed: name, sides, rotation and number.
pub open spec fn runs(pieces: Seq<Piece>, k: nat) -> Seq<(Piece, nat)>
    decreases k,
{
    if k == 0 {
        Seq::empty()
    } else {
        let rest = runs(pieces, (k - 1) as nat);
        let p = pieces[k - 1];
        if rest.len() > 0 && alike(rest.last().0, p) {
            rest.drop_last().push((rest.last().0, rest.last().1 + 1))
        } else {
            rest.push((p, 1))
        }
    }
}

/// Equal in name, sides and rotation.
pub open spec fn alike(a: Piece, b: Piece) -> bool {
    a.name@ == b.name@ && a.width == b.width && a.height == b.height && a.can_rotate
        == b.can_rotate
}

proof fn lemma_runs(pieces: Seq<Piece>, k: nat)
    requires
        k <= pieces.len(),
    ensures
        runs(pieces, k).len() <= k,
        k > 0 ==> runs(pieces, k).len() > 0,
        forall|i: int|
            0 <= i < runs(pieces, k).len() ==> 1 <= (#[trigger] runs(pieces, k)[i]).1 <= k,
    decreases k,
{
    if k > 0 {
        lemma_runs(pieces, (k - 1) as nat);
        let a = runs(pieces, (k - 1) as nat);
        let b = runs(pieces, k);
        assert forall|i: int| 0 <= i < b.len() implies 1 <= (#[trigger] b[i]).1 <= k by {
            if i < a.len() - 1 {
                assert(b[i] == a[i]);
            } else if i == a.len() - 1 {
                assert(1 <= a[i].1 <= k - 1);
            }
        }
    }
}

/// A run only grows as more pieces come.
proof fn lemma_runs_grow(pieces: Seq<Piece>, j: nat, k: nat)
    requires
        1 <= j <= k <= pieces.len(),
    ensures
        runs(pieces, j).len() <= runs(pieces, k).len(),
        runs(pieces, j).last().1 <= runs(pieces, k)[runs(pieces, j).len() - 1].1,
    decreases k,
{
    lemma_runs(pieces, j);
    if j < k {
        lemma_runs_grow(pieces, j, (k - 1) as nat);
        lemma_runs(pieces, (k - 1) as nat);
    }
}

/// No run of equal pieces has more of them than a count can say.
pub open spec fn short_runs(pieces: Seq<Piece>) -> bool {
    forall|i: int|
        0 <= i < runs(pieces, pieces.len()).len() ==> (#[trigger] runs(pieces, pieces.len())[i]).1
            <= u32::MAX
}

/// The type that a run of equal pieces stands for.
pub open spec fn run_type(r: (Piece, nat)) -> PieceType {
    PieceType {
        name: r.0.name,
        width: r.0.width,
        height: r.0.height,
        count: r.1 as u32,
        can_rotate: r.0.can_rotate,
    }
}

/// Collapses runs of consecutive pieces that agree in name, sides and rotation; equal pieces
/// that are not consecutive stay apart.
pub fn shrink_problem(problem: &Problem) -> (r: ProblemSpec)
    requires
        short_runs(problem.pieces@),
    ensures
        r.sheet == problem.sheet,
        r.kerf == 0,
        r.margin == 0,
        r.piece_types@ =~= runs(problem.pieces@, problem.pieces@.len()).map_values(
            |run: (Piece, nat)| run_type(run),
        ),
{
    let mut types: Vec<PieceType> = Vec::new();
    let mut k: usize = 0;
    let ghost pieces = problem.pieces@;
    while k < problem.pieces.len()
        invariant
            k <= pieces.len(),
            pieces == problem.pieces@,
            short_runs(pieces),
            types@ =~= runs(pieces, k as nat).map_values(|run: (Piece, nat)| run_type(run)),
        decreases pieces.len() - k,
    {
        let p = &problem.pieces[k];
        let ghost before = runs(pieces, k as nat);
        proof {
            lemma_runs(pieces, k as nat);
            lemma_runs(pieces, (k + 1) as nat);
            lemma_runs_grow(pieces, (k + 1) as nat, pieces.len());
            assert(runs(pieces, pieces.len())[runs(pieces, (k + 1) as nat).len() - 1].1
                <= u32::MAX);
        }
        let n: usize = types.len();
        let mut joins = false;
        if n > 0 {
            let last = &types[n - 1];
            joins = last.name == p.name && last.width == p.width && last.height == p.height
                && last.can_rotate == p.can_rotate;
            assert(types@[n - 1] == run_type(before[n - 1]));
            assert(before[n - 1].1 <= k);
        }
        if joins {
            let mut last = types[n - 1].clone();
            last.count = last.count + 1;
            types.set(n - 1, last);
        } else {
            types.push(
                PieceType {
                    name: p.name.clone(),
                    width: p.width,
                    height: p.height,
                    count: 1,
                    can_rotate: p.can_rotate,
                },
            );
        }
        k += 1;
    }
    ProblemSpec { sheet: problem.sheet, kerf: 0, margin: 0, piece_types: types }
}

/// Collapsing the pieces of a problem and expanding the result gives the pieces back.
pub proof fn law_shrink_then_expand(pieces: Seq<Piece>, types: Seq<PieceType>)
    requires
        short_runs(pieces),
        pieces.len() <= usize::MAX,
        types == runs(pieces, pieces.len()).map_values(|run: (Piece, nat)| run_type(run)),
    ensures
        grown_pieces(types, 0).len() == pieces.len(),
        forall|i: int|
            0 <= i < pieces.len() ==> alike(#[trigger] grown_pieces(types, 0)[i], pieces[i]),
{
    let rs = runs(pieces, pieces.len());
    lemma_runs(pieces, pieces.len());
    lemma_runs_cover(pieces, pieces.len());
    lemma_unrolled(rs, types, rs.len());
    lemma_type_indices(types, types.len());
    let of = type_indices(types, types.len());
    let u = unrolled(rs, rs.len());
    assert forall|i: int| 0 <= i < pieces.len() implies alike(
        #[trigger] grown_pieces(types, 0)[i],
        pieces[i],
    ) by {
        assert(u[i] == rs[of[i] as int].0);
        assert(of[i] < types.len());
        assert(types[of[i] as int] == run_type(rs[of[i] as int]));
        assert(alike(u[i], pieces[i]));
    }
}

/// The pieces of the first `n` runs, written out.
spec fn unrolled(rs: Seq<(Piece, nat)>, n: nat) -> Seq<Piece>
    decreases n,
{
    if n == 0 {
        Seq::empty()
    } else {
        unrolled(rs, (n - 1) as nat) + Seq::new(rs[n - 1].1, |i: int| rs[n - 1].0)
    }
}

proof fn lemma_unrolled(rs: Seq<(Piece, nat)>, types: Seq<PieceType>, n: nat)
    requires
        n <= rs.len(),
        types.len() == rs.len(),
        rs.len() <= usize::MAX,
        forall|i: int| 0 <= i < rs.len() ==> (#[trigger] rs[i]).1 <= u32::MAX,
        forall|i: int| 0 <= i < rs.len() ==> #[trigger] types[i] == run_type(rs[i]),
    ensures
        unrolled(rs, n).len() == type_indices(types, n).len(),
        forall|i: int|
            0 <= i < unrolled(rs, n).len() ==> #[trigger] unrolled(rs, n)[i] == rs[type_indices(
                types,
                n,
            )[i] as int].0,
    decreases n,
{
    if n > 0 {
        let m = (n - 1) as nat;
        lemma_unrolled(rs, types, m);
        let a = unrolled(rs, m);
        let b = unrolled(rs, n);
        assert(types[n - 1] == run_type(rs[n - 1]));
        assert forall|i: int| 0 <= i < b.len() implies #[trigger] b[i] == rs[type_indices(
            types,
            n,
        )[i] as int].0 by {
            if i < a.len() {
                assert(b[i] == a[i]);
                assert(type_indices(types, n)[i] == type_indices(types, m)[i]);
            }
        }
    }
}

proof fn lemma_unrolled_prefix(a: Seq<(Piece, nat)>, b: Seq<(Piece, nat)>, n: nat)
    requires
        n <= a.len(),
        n <= b.len(),
        forall|i: int| 0 <= i < n ==> a[i] == b[i],
    ensures
        unrolled(a, n) == unrolled(b, n),
    decreases n,
{
    if n > 0 {
        lemma_unrolled_prefix(a, b, (n - 1) as nat);
    }
}

proof fn lemma_runs_cover(pieces: Seq<Piece>, k: nat)
    requires
        k <= pieces.len(),
    ensures
        unrolled(runs(pieces, k), runs(pieces, k).len()).len() == k,
        forall|i: int|
            0 <= i < k ==> alike(
                #[trigger] unrolled(runs(pieces, k), runs(pieces, k).len())[i],
                pieces[i],
            ),
    decreases k,
{
    if k > 0 {
        let j = (k - 1) as nat;
        lemma_runs_cover(pieces, j);
        lemma_runs(pieces, j);
        let a = runs(pieces, j);
        let b = runs(pieces, k);
        let p = pieces[k - 1];
        let ua = unrolled(a, a.len());
        let ub = unrolled(b, b.len());
        if a.len() > 0 && alike(a.last().0, p) {
            let n = (a.len() - 1) as nat;
            lemma_unrolled_prefix(a, b, n);
            assert(ub =~= ua.push(a.last().0));
        } else {
            lemma_unrolled_prefix(a, b, a.len());
            assert(ub =~= ua.push(p));
        }
        assert forall|i: int| 0 <= i < k implies alike(#[trigger] ub[i], pieces[i]) by {
            if i < j {
                assert(ub[i] == ua[i]);
            }
        }
    }
}

/// By sheet, then from left to right, then from top to bottom.
pub struct SpotOrder {
    pub placements: Seq<PlacementSpec>,
}

impl Order for SpotOrder {
    open spec fn ranks(self, i: int) -> bool {
        0 <= i < self.placements.len()
    }

    open spec fn leq(self, a: int, b: int) -> bool {
        let p = self.placements[a];
        let q = self.placements[b];
        if p.sheet_idx != q.sheet_idx {
            p.sheet_idx < q.sheet_idx
        } else if p.x != q.x {
            p.x < q.x
        } else {
            p.y <= q.y
        }
    }

    proof fn leq_total(self, a: int, b: int) {
    }

    proof fn leq_trans(self, a: int, b: int, c: int) {
    }
}

struct SpotRanking<'a> {
    placements: &'a Vec<PlacementSpec>,
}

impl<'a> Ranking for SpotRanking<'a> {
    type Of = SpotOrder;

    closed spec fn order(&self) -> SpotOrder {
        SpotOrder { placements: self.placements@ }
    }

    fn at_most(&self, a: usize, b: usize) -> (r: bool) {
        let p = self.placements[a];
        let q = self.placements[b];
        if p.sheet_idx != q.sheet_idx {
            p.sheet_idx < q.sheet_idx
        } else if p.x != q.x {
            p.x < q.x
        } else {
            p.y <= q.y
        }
    }
}

/// A placement with its type in place of its copy, in the coordinates of the whole sheet.
pub open spec fn shrunk_placement(types: Seq<PieceType>, margin: u32, pl: Placement) -> PlacementSpec {
    PlacementSpec {
        sheet_idx: pl.sheet_idx,
        ptype_idx: type_indices(types, types.len())[pl.piece_idx as int],
        x: (pl.x + margin) as u32,
        y: (pl.y + margin) as u32,
        rotated: pl.rotated,
    }
}

/// The placements in terms of types, in placement order.
pub open spec fn shrunk_placements(
    types: Seq<PieceType>,
    margin: u32,
    placements: Seq<Placement>,
) -> Seq<PlacementSpec> {
    Seq::new(placements.len(), |i: int| shrunk_placement(types, margin, placements[i]))
}

/// The placements in order of sheet, left and top.
pub open spec fn by_spot(placements: Seq<PlacementSpec>) -> Seq<PlacementSpec> {
    arranged(placements, order_of(SpotOrder { placements }, placements.len()))
}

/// The placements in order of sheet, left and top.
pub fn sort_by_spot(list: &Vec<PlacementSpec>) -> (r: Vec<PlacementSpec>)
    ensures
        r@ == by_spot(list@),
{
    let rank = SpotRanking { placements: list };
    let order = ranked(&rank, list.len());
    let mut placements: Vec<PlacementSpec> = Vec::new();
    let mut k: usize = 0;
    while k < order.len()
        invariant
            k <= order@.len(),
            order@.len() == list@.len(),
            forall|j: int| 0 <= j < order@.len() ==> #[trigger] order@[j] < list@.len(),
            placements@.len() == k,
            forall|j: int| 0 <= j < k ==> placements@[j] == list@[order@[j] as int],
        decreases order@.len() - k,
    {
        placements.push(list[order[k]]);
        k += 1;
    }
    assert(placements@ =~= by_spot(list@));
    placements
}

/// A free rectangle in the coordinates of the whole sheet.
pub open spec fn shifted(fr: FreeRect, margin: u32) -> FreeRect {
    FreeRect { x: (fr.x + margin) as u32, y: (fr.y + margin) as u32, ..fr }
}

/// The solution in terms of copies names copies of the statement, and no coordinate goes out
/// of range when the margin is added.
pub open spec fn shrinkable(sol: Solution, spec: ProblemSpec) -> bool {
    &&& forall|i: int|
        0 <= i < sol.placements@.len() ==> {
            &&& (#[trigger] sol.placements@[i]).piece_idx < copies(
                spec.piece_types@,
                spec.piece_types@.len(),
            )
            &&& sol.placements@[i].x + spec.margin <= u32::MAX
            &&& sol.placements@[i].y + spec.margin <= u32::MAX
        }
    &&& forall|i: int|
        0 <= i < sol.leftovers@.len() ==> (#[trigger] sol.leftovers@[i]).x + spec.margin
            <= u32::MAX && sol.leftovers@[i].y + spec.margin <= u32::MAX
}

/// Turns a solution in terms of single copies into one in terms of piece types: every copy
/// becomes its type, coordinates are shifted by the margin, and placements are ordered by sheet,
/// left and top.
pub fn shrink_solution(sol: &Solution, spec: &ProblemSpec) -> (r: SolutionSpec)
    requires
        shrinkable(*sol, *spec),
    ensures
        r.placements@ == by_spot(
            shrunk_placements(spec.piece_types@, spec.margin, sol.placements@),
        ),
        r.leftovers@ =~= Seq::new(
            sol.leftovers@.len(),
            |i: int| shifted(sol.leftovers@[i], spec.margin),
        ),
{
    let m: u32 = spec.margin;
    let of = flat_to_type_map(spec);
    proof {
        lemma_type_indices(spec.piece_types@, spec.piece_types@.len());
    }
    let mut list: Vec<PlacementSpec> = Vec::new();
    let mut i: usize = 0;
    while i < sol.placements.len()
        invariant
            i <= sol.placements@.len(),
            m == spec.margin,
            shrinkable(*sol, *spec),
            of@ == type_indices(spec.piece_types@, spec.piece_types@.len()),
            of@.len() == copies(spec.piece_types@, spec.piece_types@.len()),
            list@.len() == i,
            forall|j: int|
                0 <= j < i ==> #[trigger] list@[j] == shrunk_placement(
                    spec.piece_types@,
                    m,
                    sol.placements@[j],
                ),
        decreases sol.placements@.len() - i,
    {
        let pl = sol.placements[i];
        list.push(
            PlacementSpec {
                sheet_idx: pl.sheet_idx,
                ptype_idx: of[pl.piece_idx],
                x: pl.x + m,
                y: pl.y + m,
                rotated: pl.rotated,
            },
        );
        i += 1;
    }
    assert(list@ =~= shrunk_placements(spec.piece_types@, m, sol.placements@));
    let placements = sort_by_spot(&list);
    let mut leftovers: Vec<FreeRect> = Vec::new();
    let mut q: usize = 0;
    while q < sol.leftovers.len()
        invariant
            q <= sol.leftovers@.len(),
            m == spec.margin,
            shrinkable(*sol, *spec),
            leftovers@.len() == q,
            forall|j: int| 0 <= j < q ==> leftovers@[j] == shifted(sol.leftovers@[j], m),
        decreases sol.leftovers@.len() - q,
    {
        let fr = sol.leftovers[q];
        leftovers.push(
            FreeRect { sheet_idx: fr.sheet_idx, x: fr.x + m, y: fr.y + m, w: fr.w, h: fr.h },
        );
        q += 1;
    }
    SolutionSpec { placements, leftovers }
}

/// A placement keeps its type when it is given a copy and the copy is turned back into its
/// type, as long as no type has more placements than copies.
pub proof fn law_expand_then_shrink(
    types: Seq<PieceType>,
    placements: Seq<PlacementSpec>,
    margin: u32,
    k: int,
)
    requires
        0 <= k < placements.len(),
        placements[k].ptype_idx < types.len(),
        types.len() <= usize::MAX,
        copies(types, types.len()) <= usize::MAX,
        used_before(placements, placements[k].ptype_idx, k as nat)
            < types[placements[k].ptype_idx as int].count,
    ensures
        shrunk_placement(types, margin, expanded_placement(types, placements, k)).ptype_idx
            == placements[k].ptype_idx,
{
    let t = placements[k].ptype_idx as int;
    let i = copies(types, t as nat) + used_before(placements, placements[k].ptype_idx, k as nat);
    lemma_copies_grow(types, (t + 1) as nat, types.len());
    lemma_type_at(types, types.len(), t, i as int);
}

proof fn lemma_used_grows(placements: Seq<PlacementSpec>, t: usize, j: nat, k: nat)
    requires
        j <= k,
    ensures
        used_before(placements, t, j) <= used_before(placements, t, k),
    decreases k,
{
    if j < k {
        lemma_used_grows(placements, t, j, (k - 1) as nat);
    }
}

/// The placements are in order of sheet, left and top.
pub open spec fn spot_sorted(placements: Seq<PlacementSpec>) -> bool {
    forall|i: int, j: int|
        0 <= i < j < placements.len() ==> #[trigger] (SpotOrder { placements }).leq(i, j)
}

/// No type has more placements than copies.
pub open spec fn within_counts(types: Seq<PieceType>, placements: Seq<PlacementSpec>) -> bool {
    forall|t: int|
        0 <= t < types.len() ==> used_before(placements, t as usize, placements.len())
            <= (#[trigger] types[t]).count
}

/// Without a margin, a solution in terms of types whose placements are in order comes back when
/// it is turned into one in terms of copies and back again.
pub proof fn law_solution_comes_back(spec: ProblemSpec, sol: SolutionSpec, flat: Solution)
    requires
        spec.margin == 0,
        spec.piece_types@.len() <= usize::MAX,
        sol.placements@.len() <= usize::MAX,
        copies(spec.piece_types@, spec.piece_types@.len()) <= usize::MAX,
        forall|i: int|
            0 <= i < sol.placements@.len() ==> (#[trigger] sol.placements@[i]).ptype_idx
                < spec.piece_types@.len(),
        within_counts(spec.piece_types@, sol.placements@),
        spot_sorted(sol.placements@),
        flat.placements@ == Seq::new(
            sol.placements@.len(),
            |k: int| expanded_placement(spec.piece_types@, sol.placements@, k),
        ),
        flat.leftovers@ == sol.leftovers@,
    ensures
        shrinkable(flat, spec),
        shrunk_as(spec, sol, flat.placements@, flat.leftovers@),
{
    let types = spec.piece_types@;
    let list = sol.placements@;
    let n = list.len();
    assert forall|k: int| 0 <= k < n implies {
        &&& (#[trigger] flat.placements@[k]).piece_idx < copies(types, types.len())
        &&& shrunk_placement(types, 0, flat.placements@[k]) == list[k]
    } by {
        let t = list[k].ptype_idx;
        lemma_used_grows(list, t, (k + 1) as nat, n);
        assert(types[t as int].count >= used_before(list, t, n));
        lemma_copies_grow(types, (t + 1) as nat, types.len());
        law_expand_then_shrink(types, list, 0, k);
    }
    assert(shrunk_placements(types, 0, flat.placements@) =~= list);
    let rank = SpotOrder { placements: list };
    let id = Seq::new(n, |i: int| i as usize);
    assert(in_order(rank, n, id)) by {
        assert forall|i: int, j: int| 0 <= i < j < id.len() implies precedes(
            rank,
            #[trigger] id[i] as int,
            #[trigger] id[j] as int,
        ) by {
            assert(rank.leq(i, j));
        }
    }
    lemma_order_exists(rank, n);
    lemma_order_unique(rank, n, order_of(rank, n), id);
    assert(by_spot(list) =~= list);
    assert(sol.leftovers@ =~= Seq::new(
        flat.leftovers@.len(),
        |i: int| shifted(flat.leftovers@[i], 0),
    ));
}

/// The pieces of an expansion: one for each copy, each as large as its type and the saw cut.
pub proof fn lemma_expansion(spec: ProblemSpec, problem: Problem)
    requires
        is_expansion(spec, problem),
        spec.piece_types@.len() <= usize::MAX,
    ensures
        problem.pieces@.len() == copies(spec.piece_types@, spec.piece_types@.len()),
        forall|i: int|
            0 <= i < problem.pieces@.len() ==> {
                let of = type_indices(spec.piece_types@, spec.piece_types@.len());
                &&& of[i] < spec.piece_types@.len()
                &&& #[trigger] problem.pieces@[i] == grown(
                    spec.piece_types@[of[i] as int],
                    spec.kerf,
                )
            },
{
    lemma_type_indices(spec.piece_types@, spec.piece_types@.len());
}

/// A layout of an expansion can be turned back into piece types.
pub proof fn lemma_layout_shrinkable(spec: ProblemSpec, problem: Problem, sol: Solution)
    requires
        is_expansion(spec, problem),
        expandable(spec),
        spec.piece_types@.len() <= usize::MAX,
        spec.sheet.width + spec.kerf <= u32::MAX,
        spec.sheet.height + spec.kerf <= u32::MAX,
        sliced(problem, sol.placements@, sol.leftovers@),
    ensures
        shrinkable(sol, spec),
{
    lemma_expansion(spec, problem);
    let n = choose|n: nat| #[trigger]
        sliced_sheets(problem, sol.placements@, sol.leftovers@, n);
    let used = all_cells(problem.pieces@, sol.placements@, sol.leftovers@);
    let c = cells(problem.pieces@, sol.placements@);
    c.to_multiset_ensures();
    sol.leftovers@.to_multiset_ensures();
    assert forall|i: int| 0 <= i < sol.placements@.len() implies {
        &&& (#[trigger] sol.placements@[i]).piece_idx < problem.pieces@.len()
        &&& sol.placements@[i].x + spec.margin <= u32::MAX
        &&& sol.placements@[i].y + spec.margin <= u32::MAX
    } by {
        assert(c[i] == sol.placements@[i].cell(problem.pieces@));
        assert(c.contains(c[i]));
        lemma_packed_within(problem.sheet, n, used, c[i]);
    }
    assert forall|i: int| 0 <= i < sol.leftovers@.len() implies (#[trigger] sol.leftovers@[i]).x
        + spec.margin <= u32::MAX && sol.leftovers@[i].y + spec.margin <= u32::MAX by {
        assert(sol.leftovers@.contains(sol.leftovers@[i]));
        lemma_packed_within(problem.sheet, n, used, sol.leftovers@[i]);
    }
}

/// The statement can be expanded, and coordinates stay in range when the margin is added back.
pub open spec fn workable(spec: ProblemSpec) -> bool {
    &&& expandable(spec)
    &&& spec.sheet.width + spec.kerf <= u32::MAX
    &&& spec.sheet.height + spec.kerf <= u32::MAX
}

/// `r` is the solution of the expansion with the given placements and leftovers, in terms of
/// piece types.
pub open spec fn shrunk_as(
    spec: ProblemSpec,
    r: SolutionSpec,
    placements: Seq<Placement>,
    leftovers: Seq<FreeRect>,
) -> bool {
    &&& r.placements@ == by_spot(shrunk_placements(spec.piece_types@, spec.margin, placements))
    &&& r.leftovers@ == Seq::new(leftovers.len(), |i: int| shifted(leftovers[i], spec.margin))
}

/// Two rectangles of a sheet have room for a saw cut between them.
pub open spec fn cut_apart(a: FreeRect, b: FreeRect, kerf: u32) -> bool {
    a.sheet_idx != b.sheet_idx || a.right() + kerf <= b.x || b.right() + kerf <= a.x || a.bottom()
        + kerf <= b.y || b.bottom() + kerf <= a.y
}

/// A cutting of the flat problem, turned back into piece types, keeps the margin free on all
/// four sides and leaves room for the saw between any two pieces; along the edge of the usable
/// part no saw cut is needed.
pub proof fn law_saw_cut_and_margin(
    spec: ProblemSpec,
    problem: Problem,
    placements: Seq<Placement>,
    leftovers: Seq<FreeRect>,
    i: int,
    j: int,
)
    requires
        workable(spec),
        spec.piece_types@.len() <= usize::MAX,
        is_expansion(spec, problem),
        sliced(problem, placements, leftovers),
        0 <= i < placements.len(),
        0 <= j < placements.len(),
    ensures
        ({
            let types = spec.piece_types@;
            let a = spec_cell(types, shrunk_placement(types, spec.margin, placements[i]));
            let b = spec_cell(types, shrunk_placement(types, spec.margin, placements[j]));
            &&& spec.margin <= a.x
            &&& spec.margin <= a.y
            &&& a.right() + spec.margin <= spec.sheet.width
            &&& a.bottom() + spec.margin <= spec.sheet.height
            &&& i != j ==> cut_apart(a, b, spec.kerf)
        }),
{
    let types = spec.piece_types@;
    let pieces = problem.pieces@;
    lemma_expansion(spec, problem);
    let n = choose|n: nat| #[trigger] sliced_sheets(problem, placements, leftovers, n);
    let used = all_cells(pieces, placements, leftovers);
    let c = cells(pieces, placements);
    c.to_multiset_ensures();
    assert(c[i] == placements[i].cell(pieces));
    assert(c[j] == placements[j].cell(pieces));
    assert(c.contains(c[i]));
    lemma_packed_within(problem.sheet, n, used, c[i]);
    assert(c.contains(c[j]));
    lemma_packed_within(problem.sheet, n, used, c[j]);
    let (p, q) = (placements[i].piece_idx as int, placements[j].piece_idx as int);
    assert(pieces[p] == grown(types[type_indices(types, types.len())[p] as int], spec.kerf));
    assert(pieces[q] == grown(types[type_indices(types, types.len())[q] as int], spec.kerf));
    if i != j {
        let m = c.to_multiset();
        assert(m.subset_of(used));
        lemma_packed_fewer(problem.sheet, n, used, m);
        let pair = Multiset::singleton(c[i]).add(Multiset::singleton(c[j]));
        let rest = c.remove(j);
        rest.to_multiset_ensures();
        assert(rest.to_multiset() =~= m.remove(c[j]));
        let at = if i < j {
            i
        } else {
            i - 1
        };
        assert(rest[at] == c[i]);
        assert(rest.contains(c[i]));
        assert(m.remove(c[j]).count(c[i]) > 0);
        assert forall|v: FreeRect| pair.count(v) <= m.count(v) by {}
        lemma_packed_apart(problem.sheet, n, m, c[i], c[j]);
    }
}

} // verus!
