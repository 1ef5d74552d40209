use vstd::multiset::Multiset;
use vstd::prelude::*;

use crate::exact::assembly::lemma_on_sheet_packed;
use crate::exact::chain::on_sheet;
use crate::expand::{
    by_spot, copies, expand_problem, expandable, flat_to_type_map, is_expansion,
    lemma_copies_grow, lemma_expansion, lemma_type_at, lemma_type_indices, sort_by_spot,
    type_indices,
};
use crate::gpf::groups::{
    build_glf_from_flat, estimate_table_size, flat_capacity, flat_groups, flat_sides, groups_ok,
    lemma_capacity_grows, lemma_flat_lists, lemma_flat_prefix, lemma_flat_reach,
    lemma_flat_total, lemma_total_update, lists_match, longer, Groups,
};
use crate::gpf::height_at;
use crate::gpf::recon::{
    assigned, layout_fn, lays_out, lemma_cell, lemma_rank_bound, recon, region, spot_cell,
    spot_cells, spot_rank, spots_of_type, TypeSpot,
};
use crate::gpf::table::{capacity, full_set, nats, part_of, total};
use crate::layout::{lemma_packed_none, lemma_slices_within, packed, slices, slicing_ok, Slicing};
use crate::model::{
    cells, Piece, PieceType, Placement, PlacementSpec, Problem, ProblemSpec, Sheet,
};
use crate::sheets::{all_moved, lemma_packed_concat};
use crate::sorting::{
    arranged, in_order, lemma_arranged, lemma_in_order_all, order_of, ranked, Order, Ranking,
};

verus! {

/// Upper bound on the size of the table that is built for one sheet.
pub const ITERATION_BUDGET: usize = 10_000;

/// The layout function of the first `k` listed pieces, at width `w`.
pub open spec fn prefix_height(pieces: Seq<Piece>, list: Seq<usize>, k: nat, w: int) -> Option<
    int,
> {
    let types = flat_groups(pieces, list, k).types;
    height_at(layout_fn(types, full_set(types)), w)
}

/// The table size for the first `k` listed pieces.
pub open spec fn prefix_size(pieces: Seq<Piece>, list: Seq<usize>, k: nat) -> nat {
    capacity(full_set(flat_groups(pieces, list, k).types))
}

/// The longest prefix of up to `k` pieces whose table size is within the budget, at least one
/// piece.
pub open spec fn bounded_prefix(pieces: Seq<Piece>, list: Seq<usize>, budget: usize, k: nat) -> nat
    decreases k,
{
    if k <= 1 || prefix_size(pieces, list, k) <= budget {
        k
    } else {
        bounded_prefix(pieces, list, budget, (k - 1) as nat)
    }
}

proof fn lemma_bounded_prefix(
    pieces: Seq<Piece>,
    list: Seq<usize>,
    budget: usize,
    r: nat,
    k: nat,
)
    requires
        1 <= r <= k <= list.len() <= u32::MAX,
        r == 1 || prefix_size(pieces, list, r) <= budget,
        r < k ==> prefix_size(pieces, list, r + 1) > budget,
    ensures
        bounded_prefix(pieces, list, budget, k) == r,
    decreases k,
{
    if r < k {
        lemma_capacity_grows(pieces, list, r + 1, k);
        lemma_bounded_prefix(pieces, list, budget, r, (k - 1) as nat);
    }
}

/// Finds the longest prefix whose table size does not exceed the budget; at least one piece
/// where there is any. The size grows with the prefix, so the search halves the range.
pub fn bounded_prefix_len(pieces: &Vec<Piece>, list: &[usize], budget: usize) -> (r: usize)
    requires
        forall|i: int| 0 <= i < list@.len() ==> #[trigger] list@[i] < pieces@.len(),
        list@.len() <= u32::MAX,
        budget < usize::MAX,
    ensures
        r == bounded_prefix(pieces@, list@, budget, list@.len()),
        r <= list@.len(),
        list@.len() > 0 ==> r >= 1,
{
    let n: usize = list.len();
    if n == 0 {
        return 0;
    }
    if estimate_table_size(pieces, list) <= budget {
        return n;
    }
    let mut lo: usize = 1;
    let mut hi: usize = n;
    while lo < hi
        invariant
            1 <= lo <= hi <= n,
            n == list@.len(),
            n <= u32::MAX,
            budget < usize::MAX,
            forall|i: int| 0 <= i < list@.len() ==> #[trigger] list@[i] < pieces@.len(),
            lo == 1 || prefix_size(pieces@, list@, lo as nat) <= budget,
            hi < n ==> prefix_size(pieces@, list@, (hi + 1) as nat) > budget,
        decreases hi - lo,
    {
        let mid: usize = lo + (hi - lo + 1) / 2;
        let part = vstd::slice::slice_subrange(list, 0, mid);
        proof {
            lemma_flat_prefix(pieces@, part@, list@, mid as nat);
        }
        if estimate_table_size(pieces, part) <= budget {
            lo = mid;
        } else {
            hi = mid - 1;
        }
    }
    proof {
        lemma_bounded_prefix(pieces@, list@, budget, lo as nat, n as nat);
    }
    lo
}

/// The longest prefix, from `k` pieces on, up to which every prefix fits in a strip of width
/// `w` and height `max_h`.
pub open spec fn fitting_prefix(
    pieces: Seq<Piece>,
    list: Seq<usize>,
    w: int,
    max_h: int,
    k: nat,
) -> nat
    decreases list.len() - k,
{
    if k >= list.len() {
        k
    } else {
        match prefix_height(pieces, list, k + 1, w) {
            Some(h) => if h <= max_h {
                fitting_prefix(pieces, list, w, max_h, k + 1)
            } else {
                k
            },
            None => k,
        }
    }
}

/// Finds the longest prefix that fits in one strip of width `query_w` and height `max_h`, and
/// its least height. Stops at the first prefix that does not fit.
pub fn find_max_fitting_prefix(
    pieces: &Vec<Piece>,
    list: &[usize],
    query_w: u32,
    max_h: u32,
) -> (r: (usize, u32))
    requires
        forall|i: int| 0 <= i < list@.len() ==> #[trigger] list@[i] < pieces@.len(),
        list@.len() <= u32::MAX,
        flat_capacity(pieces@, list@) <= usize::MAX,
        flat_sides(pieces@, list@, list@.len()) <= u32::MAX,
    ensures
        r.0 == fitting_prefix(pieces@, list@, query_w as int, max_h as int, 0),
        r.0 <= list@.len(),
        r.0 > 0 ==> prefix_height(pieces@, list@, r.0 as nat, query_w as int) == Some(r.1 as int),
        r.0 > 0 ==> r.1 <= max_h,
        r.0 == 0 ==> r.1 == 0,
{
    let n: usize = list.len();
    let mut best_k: usize = 0;
    let mut best_h: u32 = 0;
    while best_k < n
        invariant
            best_k <= n,
            n == list@.len(),
            n <= u32::MAX,
            forall|i: int| 0 <= i < list@.len() ==> #[trigger] list@[i] < pieces@.len(),
            flat_capacity(pieces@, list@) <= usize::MAX,
            flat_sides(pieces@, list@, list@.len()) <= u32::MAX,
            fitting_prefix(pieces@, list@, query_w as int, max_h as int, 0) == fitting_prefix(
                pieces@,
                list@,
                query_w as int,
                max_h as int,
                best_k as nat,
            ),
            best_k > 0 ==> prefix_height(pieces@, list@, best_k as nat, query_w as int) == Some(
                best_h as int,
            ),
            best_k > 0 ==> best_h <= max_h,
            best_k == 0 ==> best_h == 0,
        decreases n - best_k,
    {
        let part = vstd::slice::slice_subrange(list, 0, best_k + 1);
        proof {
            let k = (best_k + 1) as nat;
            lemma_flat_prefix(pieces@, part@, list@, k);
            lemma_capacity_grows(pieces@, list@, k, n as nat);
            lemma_flat_reach(pieces@, part@, k);
            lemma_sides_grow(pieces@, list@, k, n as nat);
        }
        let table = build_glf_from_flat(pieces, part);
        match table.eval_full_set(query_w) {
            Some(h) => {
                if h <= max_h {
                    best_k = best_k + 1;
                    best_h = h;
                } else {
                    return (best_k, best_h);
                }
            },
            None => {
                return (best_k, best_h);
            },
        }
    }
    (best_k, best_h)
}

proof fn lemma_sides_grow(pieces: Seq<Piece>, list: Seq<usize>, j: nat, k: nat)
    requires
        j <= k,
    ensures
        0 <= flat_sides(pieces, list, j) <= flat_sides(pieces, list, k),
    decreases k,
{
    if j < k {
        lemma_sides_grow(pieces, list, j, (k - 1) as nat);
    } else if k > 0 {
        lemma_sides_grow(pieces, list, (k - 1) as nat, (k - 1) as nat);
    }
}

/// Types by decreasing longer side.
pub struct LongOrder {
    pub types: Seq<PieceType>,
}

pub open spec fn longer_type(t: PieceType) -> u32 {
    if t.width >= t.height {
        t.width
    } else {
        t.height
    }
}

impl Order for LongOrder {
    open spec fn ranks(self, i: int) -> bool {
        0 <= i < self.types.len()
    }

    open spec fn leq(self, a: int, b: int) -> bool {
        longer_type(self.types[a]) >= longer_type(self.types[b])
    }

    proof fn leq_total(self, a: int, b: int) {
    }

    proof fn leq_trans(self, a: int, b: int, c: int) {
    }
}

struct LongRanking<'a> {
    types: &'a Vec<PieceType>,
}

impl<'a> Ranking for LongRanking<'a> {
    type Of = LongOrder;

    closed spec fn order(&self) -> LongOrder {
        LongOrder { types: self.types@ }
    }

    fn at_most(&self, a: usize, b: usize) -> (r: bool) {
        let (p, q) = (&self.types[a], &self.types[b]);
        let x: u32 = if p.width >= p.height {
            p.width
        } else {
            p.height
        };
        let y: u32 = if q.width >= q.height {
            q.width
        } else {
            q.height
        };
        x >= y
    }
}

/// The copies of type `t` that are not placed.
pub open spec fn left_of_type(types: Seq<PieceType>, placed: Seq<nat>, t: int) -> Seq<usize> {
    Seq::new(
        (types[t].count - placed[t]) as nat,
        |i: int| (copies(types, t as nat) + placed[t] + i) as usize,
    )
}

/// The copies of the first `n` types of the order that are not placed.
pub open spec fn unplaced(
    types: Seq<PieceType>,
    order: Seq<usize>,
    placed: Seq<nat>,
    n: nat,
) -> Seq<usize>
    decreases n,
{
    if n == 0 {
        Seq::empty()
    } else {
        unplaced(types, order, placed, (n - 1) as nat) + left_of_type(
            types,
            placed,
            order[n - 1] as int,
        )
    }
}

/// State of the pre-placement: placed copies of each type, placements, and the used height and
/// width of every sheet.
pub struct Glf {
    pub placed: Seq<nat>,
    pub placements: Seq<Placement>,
    pub heights: Seq<u32>,
    pub widths: Seq<u32>,
}

/// How many of the first `k` listed copies are of type `t`.
pub open spec fn listed_of_type(of: Seq<usize>, list: Seq<usize>, t: int, k: nat) -> nat
    decreases k,
{
    if k == 0 {
        0
    } else {
        listed_of_type(of, list, t, (k - 1) as nat) + if of[list[k - 1] as int] == t {
            1nat
        } else {
            0nat
        }
    }
}

/// The layout of the first `k` listed copies on a strip of width `w`, on sheet `sheet`.
pub open spec fn sheet_placements(
    pieces: Seq<Piece>,
    list: Seq<usize>,
    k: nat,
    w: int,
    sheet: int,
) -> Seq<Placement> {
    let g = flat_groups(pieces, list, k);
    let h = prefix_height(pieces, list, k, w)->0;
    let spots = by_spot(assigned(g.lists, recon(g.types, full_set(g.types), 0, 0, w, h, 0)->0));
    Seq::new(
        spots.len(),
        |i: int|
            Placement {
                sheet_idx: sheet as usize,
                piece_idx: spots[i].ptype_idx,
                x: spots[i].x,
                y: spots[i].y,
                rotated: spots[i].rotated,
            },
    )
}

/// Rightmost coordinate of the placed pieces, 0 without any.
pub open spec fn right_most(pieces: Seq<Piece>, pls: Seq<Placement>) -> int
    decreases pls.len(),
{
    if pls.len() == 0 {
        0
    } else {
        let rest = right_most(pieces, pls.drop_last());
        let r = pls.last().cell(pieces).right();
        if r > rest {
            r
        } else {
            rest
        }
    }
}

/// One more sheet: the longest prefix of the copies that are not placed, in order of decreasing
/// longer side, that is within the budget and fits on the sheet, is laid out on it. Nothing
/// changes where no copy remains or the first does not fit.
pub open spec fn glf_step(
    problem: Problem,
    types: Seq<PieceType>,
    order: Seq<usize>,
    of: Seq<usize>,
    st: Glf,
) -> Glf {
    let pieces = problem.pieces@;
    let list = unplaced(types, order, st.placed, order.len());
    let bound = bounded_prefix(pieces, list, ITERATION_BUDGET, list.len());
    let w = problem.sheet.width as int;
    let k = fitting_prefix(
        pieces,
        list.take(bound as int),
        w,
        problem.sheet.height as int,
        0,
    );
    if k == 0 {
        st
    } else {
        let more = sheet_placements(pieces, list, k, w, st.heights.len() as int);
        Glf {
            placed: Seq::new(
                types.len(),
                |t: int| st.placed[t] + listed_of_type(of, list, t, k),
            ),
            placements: st.placements + more,
            heights: st.heights.push(prefix_height(pieces, list, k, w)->0 as u32),
            widths: st.widths.push(right_most(pieces, more) as u32),
        }
    }
}

/// `steps` sheets are tried.
pub open spec fn glf_run(
    problem: Problem,
    types: Seq<PieceType>,
    order: Seq<usize>,
    of: Seq<usize>,
    st: Glf,
    steps: nat,
) -> Glf
    decreases steps,
{
    if steps == 0 {
        st
    } else {
        glf_run(
            problem,
            types,
            order,
            of,
            glf_step(problem, types, order, of, st),
            (steps - 1) as nat,
        )
    }
}

/// The types of which copies remain, with the number of those, among the first `n`.
pub open spec fn remaining_types(types: Seq<PieceType>, placed: Seq<nat>, n: nat) -> Seq<PieceType>
    decreases n,
{
    if n == 0 {
        Seq::empty()
    } else {
        let rest = remaining_types(types, placed, (n - 1) as nat);
        let t = types[n - 1];
        if t.count > placed[n - 1] {
            rest.push(PieceType { count: (t.count - placed[n - 1]) as u32, ..t })
        } else {
            rest
        }
    }
}

/// The copies that remain, among those of the first `n` types.
pub open spec fn remaining_copies(types: Seq<PieceType>, placed: Seq<nat>, n: nat) -> Seq<usize>
    decreases n,
{
    if n == 0 {
        Seq::empty()
    } else {
        remaining_copies(types, placed, (n - 1) as nat) + left_of_type(types, placed, n - 1)
    }
}

/// Result of the pre-placement phase.
pub struct GlfPreplaceResult {
    /// All placements, on sheets `0..n_sheets`.
    pub placements: Vec<Placement>,
    /// Number of sheets used.
    pub n_sheets: usize,
    /// Strip height used on each sheet.
    pub used_heights: Vec<u32>,
    /// Strip width used on each sheet.
    pub used_widths: Vec<u32>,
    /// Statement of the pieces that were not placed.
    pub remaining_spec: ProblemSpec,
    /// The original copy of every copy of `remaining_spec`.
    pub remaining_to_original: Vec<usize>,
}

/// What holds of the state: no more copies are placed than there are.
spec fn glf_ok(types: Seq<PieceType>, st: Glf) -> bool {
    &&& st.placed.len() == types.len()
    &&& forall|t: int| 0 <= t < types.len() ==> #[trigger] st.placed[t] <= types[t].count
    &&& st.widths.len() == st.heights.len()
    &&& st.placements.len() == total(st.placed)
}

proof fn lemma_listed_concat(of: Seq<usize>, a: Seq<usize>, b: Seq<usize>, t: int, k: nat)
    requires
        k <= b.len(),
    ensures
        listed_of_type(of, a + b, t, a.len() + k) == listed_of_type(of, a, t, a.len())
            + listed_of_type(of, b, t, k),
    decreases k,
{
    if k == 0 {
        lemma_listed_prefix(of, a + b, a, t, a.len());
    } else {
        lemma_listed_concat(of, a, b, t, (k - 1) as nat);
    }
}

proof fn lemma_listed_prefix(of: Seq<usize>, a: Seq<usize>, b: Seq<usize>, t: int, k: nat)
    requires
        k <= a.len(),
        k <= b.len(),
        forall|i: int| 0 <= i < k ==> a[i] == b[i],
    ensures
        listed_of_type(of, a, t, k) == listed_of_type(of, b, t, k),
    decreases k,
{
    if k > 0 {
        lemma_listed_prefix(of, a, b, t, (k - 1) as nat);
    }
}

proof fn lemma_listed_grows(of: Seq<usize>, list: Seq<usize>, t: int, j: nat, k: nat)
    requires
        j <= k,
    ensures
        listed_of_type(of, list, t, j) <= listed_of_type(of, list, t, k),
    decreases k,
{
    if j < k {
        lemma_listed_grows(of, list, t, j, (k - 1) as nat);
    }
}

/// All copies of a block of one type are of that type.
proof fn lemma_block_types(
    types: Seq<PieceType>,
    of: Seq<usize>,
    placed: Seq<nat>,
    q: int,
    t: int,
    k: nat,
)
    requires
        of == type_indices(types, types.len()),
        types.len() <= usize::MAX,
        copies(types, types.len()) <= usize::MAX,
        0 <= q < types.len(),
        placed.len() == types.len(),
        placed[q] <= types[q].count,
        k <= left_of_type(types, placed, q).len(),
    ensures
        listed_of_type(of, left_of_type(types, placed, q), t, k) == if q == t {
            k
        } else {
            0
        },
    decreases k,
{
    if k > 0 {
        lemma_block_types(types, of, placed, q, t, (k - 1) as nat);
        let i = copies(types, q as nat) + placed[q] + (k - 1);
        lemma_copies_grow(types, (q + 1) as nat, types.len());
        lemma_type_at(types, types.len(), q, i);
        assert(left_of_type(types, placed, q)[k - 1] == i);
    }
}

/// What the list of unplaced copies holds.
proof fn lemma_unplaced(
    types: Seq<PieceType>,
    order: Seq<usize>,
    of: Seq<usize>,
    placed: Seq<nat>,
    n: nat,
    t: int,
)
    requires
        of == type_indices(types, types.len()),
        types.len() <= usize::MAX,
        copies(types, types.len()) <= usize::MAX,
        n <= order.len(),
        order.no_duplicates(),
        forall|i: int| 0 <= i < order.len() ==> #[trigger] order[i] < types.len(),
        placed.len() == types.len(),
        forall|q: int| 0 <= q < types.len() ==> #[trigger] placed[q] <= types[q].count,
        0 <= t < types.len(),
    ensures
        ({
            let u = unplaced(types, order, placed, n);
            &&& listed_of_type(of, u, t, u.len()) <= types[t].count - placed[t]
            &&& order.take(n as int).contains(t as usize) || listed_of_type(of, u, t, u.len()) == 0
            &&& forall|i: int| 0 <= i < u.len() ==> #[trigger] u[i] < copies(types, types.len())
        }),
    decreases n,
{
    if n > 0 {
        let m = (n - 1) as nat;
        lemma_unplaced(types, order, of, placed, m, t);
        let u = unplaced(types, order, placed, m);
        let q = order[n - 1] as int;
        let b = left_of_type(types, placed, q);
        assert(placed[q] <= types[q].count);
        lemma_listed_concat(of, u, b, t, b.len());
        lemma_block_types(types, of, placed, q, t, b.len());
        let (o1, o2) = (order.take(m as int), order.take(n as int));
        assert(o2[n - 1] == order[n - 1]);
        if o1.contains(t as usize) {
            let i = choose|i: int| 0 <= i < o1.len() && o1[i] == t as usize;
            assert(o2[i] == t as usize);
            assert(order[i] != order[n - 1]);
        }
        let w = unplaced(types, order, placed, n);
        lemma_copies_grow(types, (q + 1) as nat, types.len());
        assert forall|i: int| 0 <= i < w.len() implies #[trigger] w[i] < copies(
            types,
            types.len(),
        ) by {
            if i < u.len() {
                assert(w[i] == u[i]);
            } else {
                assert(w[i] == b[i - u.len()]);
            }
        }
    }
}

/// The listed copies of all types together are all listed copies.
proof fn lemma_listed_sum(of: Seq<usize>, list: Seq<usize>, n: nat, k: nat)
    requires
        k <= list.len(),
        forall|i: int| 0 <= i < list.len() ==> #[trigger] list[i] < of.len(),
        forall|i: int| 0 <= i < of.len() ==> #[trigger] of[i] < n,
    ensures
        total(Seq::new(n, |t: int| listed_of_type(of, list, t, k))) == k,
    decreases k,
{
    let a = Seq::new(n, |t: int| listed_of_type(of, list, t, k));
    if k == 0 {
        lemma_total_zero(a);
    } else {
        lemma_listed_sum(of, list, n, (k - 1) as nat);
        let b = Seq::new(n, |t: int| listed_of_type(of, list, t, (k - 1) as nat));
        assert(list[k - 1] < of.len());
        let q = of[list[k - 1] as int] as int;
        assert(q < n);
        assert(a =~= b.update(q, b[q] + 1));
        lemma_total_update(b, q, b[q] + 1);
    }
}

proof fn lemma_total_zero(c: Seq<nat>)
    requires
        forall|i: int| 0 <= i < c.len() ==> #[trigger] c[i] == 0,
    ensures
        total(c) == 0,
    decreases c.len(),
{
    if c.len() > 0 {
        assert forall|i: int| 0 <= i < c.drop_last().len() implies #[trigger] c.drop_last()[i]
            == 0 by {
            assert(c[i] == 0);
        }
        lemma_total_zero(c.drop_last());
        assert(c[c.len() - 1] == 0);
    }
}

proof fn lemma_total_sum(a: Seq<nat>, b: Seq<nat>, c: Seq<nat>)
    requires
        a.len() == c.len(),
        b.len() == c.len(),
        forall|i: int| 0 <= i < c.len() ==> #[trigger] c[i] == a[i] + b[i],
    ensures
        total(c) == total(a) + total(b),
    decreases c.len(),
{
    if c.len() > 0 {
        assert forall|i: int| 0 <= i < c.drop_last().len() implies #[trigger] c.drop_last()[i]
            == a.drop_last()[i] + b.drop_last()[i] by {
            assert(c[i] == a[i] + b[i]);
        }
        lemma_total_sum(a.drop_last(), b.drop_last(), c.drop_last());
        assert(c[c.len() - 1] == a[c.len() - 1] + b[c.len() - 1]);
    }
}

/// The spots of all types together are all spots.
proof fn lemma_spot_sum(s: Seq<TypeSpot>, n: nat)
    requires
        forall|i: int| 0 <= i < s.len() ==> (#[trigger] s[i]).type_idx < n,
    ensures
        total(Seq::new(n, |t: int| spots_of_type(s, t))) == s.len(),
    decreases s.len(),
{
    let a = Seq::new(n, |t: int| spots_of_type(s, t));
    if s.len() == 0 {
        lemma_total_zero(a);
    } else {
        let d = s.drop_last();
        assert forall|i: int| 0 <= i < d.len() implies (#[trigger] d[i]).type_idx < n by {
            assert(d[i] == s[i]);
        }
        lemma_spot_sum(d, n);
        let b = Seq::new(n, |t: int| spots_of_type(d, t));
        assert(s[s.len() - 1].type_idx < n);
        let q = s.last().type_idx as int;
        assert(a =~= b.update(q, b[q] + 1));
        lemma_total_update(b, q, b[q] + 1);
    }
}

/// Lays out the first `k` listed copies on a sheet; also gives the rightmost coordinate.
fn lay_sheet(
    pieces: &Vec<Piece>,
    list: &[usize],
    w: u32,
    sheet: usize,
    Ghost(h): Ghost<int>,
    Ghost(whole): Ghost<Sheet>,
) -> (r: (Vec<Placement>, u32))
    requires
        whole.width == w,
        h <= whole.height,
        forall|i: int| 0 <= i < list@.len() ==> #[trigger] list@[i] < pieces@.len(),
        0 < list@.len() <= u32::MAX,
        flat_capacity(pieces@, list@) <= usize::MAX,
        flat_sides(pieces@, list@, list@.len()) <= u32::MAX,
        prefix_height(pieces@, list@, list@.len(), w as int) == Some(h),
    ensures
        r.0@ == sheet_placements(pieces@, list@, list@.len(), w as int, sheet as int),
        packed(
            whole,
            1,
            cells(
                pieces@,
                sheet_placements(pieces@, list@, list@.len(), w as int, 0),
            ).to_multiset(),
        ),
        r.0@.len() == list@.len(),
        r.1 == right_most(pieces@, r.0@),
{
    let ghost n = list@.len();
    let ghost g = flat_groups(pieces@, list@, n);
    let ghost full = full_set(g.types);
    proof {
        lemma_flat_reach(pieces@, list@, n);
        lemma_flat_total(pieces@, list@, n);
        lemma_flat_lists(pieces@, list@, n);
        assert(list@.take(n as int) =~= list@);
    }
    let table = build_glf_from_flat(pieces, list);
    let mut out: Vec<Placement> = Vec::new();
    let mut right: u32 = 0;
    if let Some(spots) = table.reconstruct_spots(w) {
        proof {
            assert forall|t: int| 0 <= t < table.types@.len() implies #[trigger] spots_of_type(
                spots@,
                t,
            ) == table.types@[t].count by {
                assert(full[t] == table.types@[t].count);
            }
            lemma_spot_sum(spots@, g.types.len());
            assert(Seq::new(g.types.len(), |t: int| spots_of_type(spots@, t)) =~= full);
        }
        let copies_at = table.assign_copies(&spots);
        let ghost named = assigned(g.lists, spots@);
        proof {
            assert(part_of(full, full));
            lemma_cell(table, full);
            crate::gpf::lemma_height_at(layout_fn(g.types, full), w as int);
            lemma_named(pieces@, list@, g, spots@, w as int, h);
            lemma_laid_cells(pieces@, list@, g, spots@, whole, h);
            assert(sheet_placements(pieces@, list@, n, w as int, 0) =~= at_sheet(by_spot(named)));
        }
        let sorted = sort_by_spot(&copies_at);
        proof {
            lemma_by_spot(named);
        }
        let ghost goal = sheet_placements(pieces@, list@, n, w as int, sheet as int);
        let mut k: usize = 0;
        assert(out@ =~= goal.take(0));
        while k < sorted.len()
            invariant
                k <= sorted@.len(),
                sorted@ == by_spot(named),
                sorted@.len() == named.len(),
                forall|i: int| 0 <= i < sorted@.len() ==> named.contains(#[trigger] sorted@[i]),
                forall|i: int|
                    0 <= i < named.len() ==> named_ok(pieces@, #[trigger] named[i], w as int),
                goal.len() == sorted@.len(),
                forall|i: int|
                    0 <= i < goal.len() ==> #[trigger] goal[i] == (Placement {
                        sheet_idx: sheet,
                        piece_idx: sorted@[i].ptype_idx,
                        x: sorted@[i].x,
                        y: sorted@[i].y,
                        rotated: sorted@[i].rotated,
                    }),
                out@ == goal.take(k as int),
                right == right_most(pieces@, out@),
            decreases sorted@.len() - k,
        {
            let s = sorted[k];
            proof {
                assert(named.contains(sorted@[k as int]));
                let i = choose|i: int| 0 <= i < named.len() && named[i] == s;
                assert(named_ok(pieces@, named[i], w as int));
            }
            let p = &pieces[s.ptype_idx];
            let pw: u32 = if s.rotated {
                p.height
            } else {
                p.width
            };
            let ghost before = out@;
            out.push(
                Placement {
                    sheet_idx: sheet,
                    piece_idx: s.ptype_idx,
                    x: s.x,
                    y: s.y,
                    rotated: s.rotated,
                },
            );
            assert(out@.drop_last() =~= before);
            assert(out@ =~= goal.take(k + 1));
            if s.x + pw > right {
                right = s.x + pw;
            }
            k += 1;
        }
        assert(goal.take(k as int) =~= goal);
    }
    (out, right)
}

/// A named spot holds a piece, and the piece ends inside the strip.
spec fn named_ok(pieces: Seq<Piece>, s: PlacementSpec, w: int) -> bool {
    s.ptype_idx < pieces.len() && s.x + pieces[s.ptype_idx as int].placed_w(s.rotated) <= w
}

proof fn lemma_named(
    pieces: Seq<Piece>,
    list: Seq<usize>,
    g: Groups,
    spots: Seq<TypeSpot>,
    w: int,
    h: int,
)
    requires
        lists_match(pieces, list, g),
        groups_ok(g),
        forall|i: int| 0 <= i < list.len() ==> #[trigger] list[i] < pieces.len(),
        lays_out(g.types, full_set(g.types), spots, region(0, 0, w, h)),
        0 <= w <= u32::MAX,
        0 <= h <= u32::MAX,
    ensures
        forall|i: int|
            0 <= i < spots.len() ==> named_ok(pieces, #[trigger] assigned(g.lists, spots)[i], w),
{
    let r = region(0, 0, w, h);
    let u = choose|u: Slicing| #[trigger]
        slicing_ok(u, r) && spot_cells(g.types, spots).to_multiset().subset_of(slices(u, r));
    let cs = spot_cells(g.types, spots);
    cs.to_multiset_ensures();
    assert forall|i: int| 0 <= i < spots.len() implies named_ok(
        pieces,
        #[trigger] assigned(g.lists, spots)[i],
        w,
    ) by {
        let t = spots[i].type_idx as int;
        lemma_rank_bound(spots, i, t);
        assert(spots_of_type(spots, t) == full_set(g.types)[t]);
        assert(g.lists[t].len() == g.types[t].count);
        let id = g.lists[t][spot_rank(spots, i) as int];
        assert(list.contains(id));
        assert(cs[i] == spot_cell(g.types, spots[i]));
        assert(cs.contains(cs[i]));
        assert(cs.to_multiset().count(cs[i]) <= slices(u, r).count(cs[i]));
        lemma_slices_within(u, r, cs[i]);
    }
}

/// Copies at their spots, on the first sheet.
spec fn at_sheet(named: Seq<PlacementSpec>) -> Seq<Placement> {
    Seq::new(
        named.len(),
        |i: int|
            Placement {
                sheet_idx: 0,
                piece_idx: named[i].ptype_idx,
                x: named[i].x,
                y: named[i].y,
                rotated: named[i].rotated,
            },
    )
}

/// The copies lie on the sheet as they can be cut.
proof fn lemma_laid_cells(
    pieces: Seq<Piece>,
    list: Seq<usize>,
    g: Groups,
    spots: Seq<TypeSpot>,
    whole: Sheet,
    h: int,
)
    requires
        lists_match(pieces, list, g),
        groups_ok(g),
        lays_out(g.types, full_set(g.types), spots, region(0, 0, whole.width as int, h)),
        0 <= h <= whole.height,
        spots.len() <= usize::MAX,
    ensures
        packed(
            whole,
            1,
            cells(pieces, at_sheet(by_spot(assigned(g.lists, spots)))).to_multiset(),
        ),
{
    let named = assigned(g.lists, spots);
    let plain = cells(pieces, at_sheet(named));
    let laid = spot_cells(g.types, spots);
    assert(plain =~= laid) by {
        assert forall|i: int| 0 <= i < spots.len() implies plain[i] == laid[i] by {
            let t = spots[i].type_idx as int;
            lemma_rank_bound(spots, i, t);
            assert(spots_of_type(spots, t) == full_set(g.types)[t]);
            assert(g.lists[t].len() == g.types[t].count);
            let id = g.lists[t][spot_rank(spots, i) as int];
            assert(list.contains(id));
        }
    }
    assert(on_sheet(
        g.types,
        full_set(g.types),
        spots,
        whole.width as int,
        whole.height as int,
    ));
    lemma_on_sheet_packed(g.types, full_set(g.types), spots, whole);
    let o = crate::expand::SpotOrder { placements: named };
    crate::sorting::lemma_order_exists(o, named.len());
    let order = order_of(o, named.len());
    if named.len() > 0 {
        lemma_in_order_all(o, named.len(), order, 0);
    }
    lemma_arranged(plain, order);
    assert(cells(pieces, at_sheet(by_spot(named))) =~= arranged(plain, order));
}

/// Ordering placements keeps them.
proof fn lemma_by_spot(list: Seq<PlacementSpec>)
    requires
        list.len() <= usize::MAX,
    ensures
        by_spot(list).len() == list.len(),
        forall|i: int| 0 <= i < list.len() ==> list.contains(#[trigger] by_spot(list)[i]),
{
    let o = crate::expand::SpotOrder { placements: list };
    crate::sorting::lemma_order_exists(o, list.len());
    let order = order_of(o, list.len());
    assert forall|i: int| 0 <= i < list.len() implies list.contains(
        #[trigger] by_spot(list)[i],
    ) by {
        assert(list[order[i] as int] == by_spot(list)[i]);
    }
}

/// The copies that are not placed, in order.
fn list_unplaced(
    types: &Vec<PieceType>,
    order: &Vec<usize>,
    starts: &Vec<usize>,
    placed: &Vec<u32>,
) -> (r: Vec<usize>)
    requires
        copies(types@, types@.len()) <= usize::MAX,
        starts@.len() == types@.len(),
        forall|t: int| 0 <= t < types@.len() ==> #[trigger] starts@[t] == copies(types@, t as nat),
        placed@.len() == types@.len(),
        forall|t: int| 0 <= t < types@.len() ==> #[trigger] placed@[t] <= types@[t].count,
        forall|i: int| 0 <= i < order@.len() ==> #[trigger] order@[i] < types@.len(),
    ensures
        r@ == unplaced(types@, order@, nats(placed@), order@.len()),
{
    let mut out: Vec<usize> = Vec::new();
    let mut k: usize = 0;
    while k < order.len()
        invariant
            k <= order@.len(),
            copies(types@, types@.len()) <= usize::MAX,
            starts@.len() == types@.len(),
            forall|t: int|
                0 <= t < types@.len() ==> #[trigger] starts@[t] == copies(types@, t as nat),
            placed@.len() == types@.len(),
            forall|t: int| 0 <= t < types@.len() ==> #[trigger] placed@[t] <= types@[t].count,
            forall|i: int| 0 <= i < order@.len() ==> #[trigger] order@[i] < types@.len(),
            out@ == unplaced(types@, order@, nats(placed@), k as nat),
        decreases order@.len() - k,
    {
        let t: usize = order[k];
        let count: u32 = types[t].count;
        let ghost before = out@;
        let ghost block = left_of_type(types@, nats(placed@), t as int);
        assert(placed@[t as int] <= types@[t as int].count);
        let mut c: u32 = placed[t];
        assert(out@ =~= before + block.take(0));
        while c < count
            invariant
                placed@[t as int] <= c <= count,
                t < types@.len(),
                count == types@[t as int].count,
                placed@.len() == types@.len(),
                copies(types@, types@.len()) <= usize::MAX,
                starts@.len() == types@.len(),
                starts@[t as int] == copies(types@, t as nat),
                block == left_of_type(types@, nats(placed@), t as int),
                out@ == before + block.take(c - placed@[t as int]),
            decreases count - c,
        {
            proof {
                lemma_copies_grow(types@, (t + 1) as nat, types@.len());
            }
            out.push(starts[t] + c as usize);
            c += 1;
            assert(out@ =~= before + block.take(c - placed@[t as int]));
        }
        assert(block.take(c - placed@[t as int]) =~= block);
        k += 1;
    }
    out
}

/// The order of the types: by decreasing longer side.
pub open spec fn by_long_side(types: Seq<PieceType>) -> Seq<usize> {
    order_of(LongOrder { types }, types.len())
}

/// The pre-placement before the first sheet.
pub open spec fn glf_start(n: nat) -> Glf {
    Glf {
        placed: Seq::new(n, |t: int| 0nat),
        placements: Seq::empty(),
        heights: Seq::empty(),
        widths: Seq::empty(),
    }
}

/// Different pieces of a problem.
pub open spec fn some_pieces(pieces: Seq<Piece>, list: Seq<usize>) -> bool {
    list.no_duplicates() && forall|i: int| 0 <= i < list.len() ==> #[trigger] list[i] < pieces.len()
}

/// The longer sides of any pieces whose table is within the budget can be added up.
pub open spec fn sides_fit(problem: Problem) -> bool {
    forall|list: Seq<usize>| #[trigger]
        some_pieces(problem.pieces@, list) && prefix_size(problem.pieces@, list, list.len())
            <= ITERATION_BUDGET ==> flat_sides(problem.pieces@, list, list.len()) <= u32::MAX
}

/// The longer sides of the first `n` pieces.
pub open spec fn all_sides(pieces: Seq<Piece>, n: nat) -> int
    decreases n,
{
    if n == 0 {
        0
    } else {
        all_sides(pieces, (n - 1) as nat) + longer(pieces[n - 1])
    }
}

proof fn lemma_flat_sides_remove(pieces: Seq<Piece>, list: Seq<usize>, j: int, n: nat)
    requires
        0 <= j < n <= list.len(),
    ensures
        flat_sides(pieces, list, n) == flat_sides(pieces, list.remove(j), (n - 1) as nat) + longer(
            pieces[list[j] as int],
        ),
    decreases n,
{
    let rest = list.remove(j);
    if j == n - 1 {
        lemma_same_sides(pieces, list, rest, (n - 1) as nat);
    } else {
        lemma_flat_sides_remove(pieces, list, j, (n - 1) as nat);
        assert(rest[n - 2] == list[n - 1]);
    }
}

proof fn lemma_same_sides(pieces: Seq<Piece>, a: Seq<usize>, b: Seq<usize>, n: nat)
    requires
        n <= a.len(),
        n <= b.len(),
        forall|i: int| 0 <= i < n ==> a[i] == b[i],
    ensures
        flat_sides(pieces, a, n) == flat_sides(pieces, b, n),
    decreases n,
{
    if n > 0 {
        lemma_same_sides(pieces, a, b, (n - 1) as nat);
    }
}

/// Different pieces among the first `n` have no longer sides than all of them.
proof fn lemma_some_sides(pieces: Seq<Piece>, list: Seq<usize>, n: nat)
    requires
        list.no_duplicates(),
        n <= pieces.len(),
        n <= usize::MAX,
        forall|i: int| 0 <= i < list.len() ==> #[trigger] list[i] < n,
    ensures
        flat_sides(pieces, list, list.len()) <= all_sides(pieces, n),
    decreases n,
{
    if n == 0 {
        if list.len() > 0 {
            assert(list[0] < n);
        }
    } else if list.contains((n - 1) as usize) {
        let j = choose|j: int| 0 <= j < list.len() && list[j] == (n - 1) as usize;
        let rest = list.remove(j);
        lemma_flat_sides_remove(pieces, list, j, list.len());
        assert forall|a: int, b: int|
            0 <= a < rest.len() && 0 <= b < rest.len() && a != b implies rest[a] != rest[b] by {
            let (x, y) = (
                if a < j {
                    a
                } else {
                    a + 1
                },
                if b < j {
                    b
                } else {
                    b + 1
                },
            );
            assert(rest[a] == list[x] && rest[b] == list[y]);
        }
        assert forall|i: int| 0 <= i < rest.len() implies #[trigger] rest[i] < n - 1 by {
            let x = if i < j {
                i
            } else {
                i + 1
            };
            assert(rest[i] == list[x]);
            assert(list[x] != list[j]);
        }
        lemma_some_sides(pieces, rest, (n - 1) as nat);
    } else {
        assert forall|i: int| 0 <= i < list.len() implies #[trigger] list[i] < n - 1 by {
            if list[i] == n - 1 {
                assert(list.contains((n - 1) as usize));
            }
        }
        lemma_some_sides(pieces, list, (n - 1) as nat);
    }
}

/// Where the longer sides of all pieces can be added up, those of any of them can.
pub proof fn law_short_sides_fit(problem: Problem)
    requires
        problem.pieces@.len() <= usize::MAX,
        all_sides(problem.pieces@, problem.pieces@.len()) <= u32::MAX,
    ensures
        sides_fit(problem),
{
    assert forall|list: Seq<usize>| #[trigger]
        some_pieces(problem.pieces@, list) && prefix_size(problem.pieces@, list, list.len())
            <= ITERATION_BUDGET implies flat_sides(problem.pieces@, list, list.len())
        <= u32::MAX by {
        lemma_some_sides(problem.pieces@, list, problem.pieces@.len());
    }
}

/// The list of unplaced copies has no copy twice.
proof fn lemma_unplaced_distinct(
    types: Seq<PieceType>,
    order: Seq<usize>,
    of: Seq<usize>,
    placed: Seq<nat>,
    n: nat,
)
    requires
        of == type_indices(types, types.len()),
        types.len() <= usize::MAX,
        copies(types, types.len()) <= usize::MAX,
        n <= order.len(),
        order.no_duplicates(),
        forall|i: int| 0 <= i < order.len() ==> #[trigger] order[i] < types.len(),
        placed.len() == types.len(),
        forall|q: int| 0 <= q < types.len() ==> #[trigger] placed[q] <= types[q].count,
    ensures
        ({
            let u = unplaced(types, order, placed, n);
            &&& u.no_duplicates()
            &&& forall|i: int|
                0 <= i < u.len() ==> order.take(n as int).contains(of[#[trigger] u[i] as int])
        }),
    decreases n,
{
    if n > 0 {
        let m = (n - 1) as nat;
        lemma_unplaced_distinct(types, order, of, placed, m);
        let u = unplaced(types, order, placed, m);
        let q = order[n - 1] as int;
        let b = left_of_type(types, placed, q);
        let w = unplaced(types, order, placed, n);
        assert(placed[q] <= types[q].count);
        lemma_copies_grow(types, (q + 1) as nat, types.len());
        assert forall|i: int| 0 <= i < b.len() implies of[#[trigger] b[i] as int] == q && b[i]
            == copies(types, q as nat) + placed[q] + i by {
            lemma_type_at(types, types.len(), q, copies(types, q as nat) + placed[q] + i);
        }
        let (o1, o2) = (order.take(m as int), order.take(n as int));
        assert(o2[n - 1] == order[n - 1]);
        assert(o2.contains(q as usize));
        assert forall|i: int| 0 <= i < u.len() implies of[#[trigger] u[i] as int] != q by {
            let v = of[u[i] as int];
            assert(o1.contains(v));
            let k = choose|k: int| 0 <= k < o1.len() && o1[k] == v;
            assert(order[k] != order[n - 1]);
        }
        assert forall|i: int, j: int|
            0 <= i < w.len() && 0 <= j < w.len() && i != j implies w[i] != w[j] by {
            let l = u.len();
            if i < l && j < l {
                assert(u[i] != u[j]);
            } else if i >= l && j >= l {
                assert(b[i - l] != b[j - l]);
            } else if i < l {
                assert(of[u[i] as int] != of[b[j - l] as int]);
            } else {
                assert(of[u[j] as int] != of[b[i - l] as int]);
            }
        }
        assert forall|i: int| 0 <= i < w.len() implies o2.contains(of[#[trigger] w[i] as int]) by {
            if i < u.len() {
                let v = of[u[i] as int];
                assert(o1.contains(v));
                let k = choose|k: int| 0 <= k < o1.len() && o1[k] == v;
                assert(o2[k] == v);
            } else {
                assert(w[i] == b[i - u.len()]);
            }
        }
    }
}

/// The bounded prefix is short, and its table is of moderate size.
proof fn lemma_bound(problem: Problem, list: Seq<usize>)
    requires
        sides_fit(problem),
        list.len() <= u32::MAX,
        some_pieces(problem.pieces@, list),
    ensures
        ({
            let b = bounded_prefix(problem.pieces@, list, ITERATION_BUDGET, list.len());
            &&& b <= list.len()
            &&& flat_sides(problem.pieces@, list, b) <= u32::MAX
            &&& prefix_size(problem.pieces@, list, b) <= ITERATION_BUDGET
        }),
{
    let pieces = problem.pieces@;
    lemma_bound_step(pieces, list, list.len());
    let b = bounded_prefix(pieces, list, ITERATION_BUDGET, list.len());
    let part = list.take(b as int);
    assert(some_pieces(pieces, part)) by {
        assert forall|i: int| 0 <= i < part.len() implies #[trigger] part[i] < pieces.len() by {
            assert(part[i] == list[i]);
        }
    }
    lemma_flat_prefix(pieces, part, list, b);
    lemma_same_sides(pieces, part, list, b);
}

proof fn lemma_bound_step(pieces: Seq<Piece>, list: Seq<usize>, k: nat)
    requires
        k <= list.len() <= u32::MAX,
    ensures
        bounded_prefix(pieces, list, ITERATION_BUDGET, k) <= k,
        prefix_size(pieces, list, bounded_prefix(pieces, list, ITERATION_BUDGET, k))
            <= ITERATION_BUDGET,
    decreases k,
{
    if k <= 1 {
        let types = flat_groups(pieces, list, k).types;
        if k == 1 {
            reveal_with_fuel(flat_groups, 2);
            reveal_with_fuel(capacity, 2);
            let c = full_set(types);
            assert(c.len() == 1 && c[0] == 1);
            assert(c.drop_first() =~= Seq::empty());
            let one = capacity(c.drop_first());
            assert(one == 1);
            assert((c[0] + 1) * one == 2) by (nonlinear_arith)
                requires
                    one == 1,
                    c[0] == 1,
            ;
        } else {
            assert(full_set(types) =~= Seq::empty());
        }
    } else if prefix_size(pieces, list, k) > ITERATION_BUDGET {
        lemma_bound_step(pieces, list, (k - 1) as nat);
    }
}

proof fn lemma_fitting_prefix(
    pieces: Seq<Piece>,
    a: Seq<usize>,
    b: Seq<usize>,
    w: int,
    max_h: int,
    k: nat,
)
    requires
        k <= a.len() <= b.len(),
        forall|i: int| 0 <= i < a.len() ==> a[i] == b[i],
    ensures
        fitting_prefix(pieces, a, w, max_h, k) <= a.len(),
        fitting_prefix(pieces, a, w, max_h, k) > k ==> prefix_height(
            pieces,
            b,
            fitting_prefix(pieces, a, w, max_h, k),
            w,
        ) == prefix_height(pieces, a, fitting_prefix(pieces, a, w, max_h, k), w),
    decreases a.len() - k,
{
    if k < a.len() {
        lemma_fitting_prefix(pieces, a, b, w, max_h, k + 1);
        let r = fitting_prefix(pieces, a, w, max_h, k);
        if r > k {
            lemma_flat_prefix(pieces, a, b, r);
        }
    }
}

/// Lays out one more sheet.
fn next_sheet(
    problem: &Problem,
    types: &Vec<PieceType>,
    order: &Vec<usize>,
    of: &Vec<usize>,
    starts: &Vec<usize>,
    placed: &mut Vec<u32>,
    placements: &mut Vec<Placement>,
    heights: &mut Vec<u32>,
    widths: &mut Vec<u32>,
) -> (done: bool)
    requires
        sides_fit(*problem),
        problem.pieces@.len() == copies(types@, types@.len()),
        copies(types@, types@.len()) <= u32::MAX,
        of@ == type_indices(types@, types@.len()),
        order@ == by_long_side(types@),
        in_order((LongOrder { types: types@ }), types@.len(), order@),
        starts@.len() == types@.len(),
        forall|t: int| 0 <= t < types@.len() ==> #[trigger] starts@[t] == copies(types@, t as nat),
        glf_ok(
            types@,
            (Glf {
                placed: nats(old(placed)@),
                placements: old(placements)@,
                heights: old(heights)@,
                widths: old(widths)@,
            }),
        ),
        packed(
            problem.sheet,
            old(heights)@.len(),
            cells(problem.pieces@, old(placements)@).to_multiset(),
        ),
    ensures
        packed(
            problem.sheet,
            final(heights)@.len(),
            cells(problem.pieces@, final(placements)@).to_multiset(),
        ),
        ({
            let st = Glf {
                placed: nats(old(placed)@),
                placements: old(placements)@,
                heights: old(heights)@,
                widths: old(widths)@,
            };
            let st2 = Glf {
                placed: nats(final(placed)@),
                placements: final(placements)@,
                heights: final(heights)@,
                widths: final(widths)@,
            };
            &&& st2 == glf_step(*problem, types@, order@, of@, st)
            &&& glf_ok(types@, st2)
            &&& done ==> st2 == st
        }),
{
    let ghost st = Glf {
        placed: nats(placed@),
        placements: placements@,
        heights: heights@,
        widths: widths@,
    };
    let ghost pieces = problem.pieces@;
    proof {
        assert(types@.len() == types.len());
        assert forall|t: int| 0 <= t < types@.len() implies #[trigger] placed@[t]
            <= types@[t].count by {
            assert(st.placed[t] <= types@[t].count);
        }
    }
    let list = list_unplaced(types, order, starts, placed);
    let ghost n = list@.len();
    proof {
        if types@.len() > 0 {
            lemma_in_order_all(LongOrder { types: types@ }, types@.len(), order@, 0);
            lemma_unplaced(types@, order@, of@, st.placed, order@.len(), 0);
        }
        assert(order@.no_duplicates());
        lemma_type_indices(types@, types@.len());
        assert forall|i: int| 0 <= i < n implies #[trigger] list@[i] < pieces.len() by {
            if types@.len() == 0 {
                assert(order@.len() == 0);
            }
        }
        if n > 0 {
            lemma_unplaced_len(types@, order@, of@, st.placed);
        }
        lemma_unplaced_distinct(types@, order@, of@, st.placed, order@.len());
        lemma_bound(*problem, list@);
    }
    let bound: usize = bounded_prefix_len(&problem.pieces, list.as_slice(), ITERATION_BUDGET);
    let cand = vstd::slice::slice_subrange(list.as_slice(), 0, bound);
    proof {
        lemma_flat_prefix(pieces, cand@, list@, bound as nat);
        lemma_fitting_prefix(
            pieces,
            cand@,
            list@,
            problem.sheet.width as int,
            problem.sheet.height as int,
            0,
        );
        assert(cand@ =~= list@.take(bound as int));
    }
    let (k, used_h) = find_max_fitting_prefix(
        &problem.pieces,
        cand,
        problem.sheet.width,
        problem.sheet.height,
    );
    if k == 0 {
        return list.len() == 0;
    }
    let part = vstd::slice::slice_subrange(list.as_slice(), 0, k);
    proof {
        lemma_flat_prefix(pieces, part@, list@, k as nat);
        lemma_flat_prefix(pieces, cand@, list@, k as nat);
        lemma_capacity_grows(pieces, list@, k as nat, bound as nat);
        lemma_sides_grow(pieces, list@, k as nat, bound as nat);
        assert(sheet_placements(
            pieces,
            part@,
            k as nat,
            problem.sheet.width as int,
            heights@.len() as int,
        ) == sheet_placements(
            pieces,
            list@,
            k as nat,
            problem.sheet.width as int,
            heights@.len() as int,
        ));
    }
    let (more, right) = lay_sheet(
        &problem.pieces,
        part,
        problem.sheet.width,
        heights.len(),
        Ghost(used_h as int),
        Ghost(problem.sheet),
    );
    let ghost added = more@;
    let mut more = more;
    placements.append(&mut more);
    proof {
        assert forall|t: int| 0 <= t < types@.len() implies #[trigger] placed@[t] + listed_of_type(
            of@,
            list@,
            t,
            list@.len(),
        ) <= types@[t].count by {
            lemma_unplaced(types@, order@, of@, st.placed, order@.len(), t);
            assert(st.placed[t] <= types@[t].count);
        }
    }
    count_placed(of, part, placed, Ghost(types@), Ghost(list@), Ghost(k as nat));
    heights.push(used_h);
    widths.push(right);
    proof {
        let w = problem.sheet.width as int;
        let m = st.heights.len();
        let first = sheet_placements(pieces, part@, k as nat, w, 0);
        assert(heights@.len() == heights.len());
        lemma_packed_concat(problem.sheet, m, cells(pieces, st.placements), 1, cells(pieces, first));
        assert(cells(pieces, placements@) =~= cells(pieces, st.placements) + all_moved(
            cells(pieces, first),
            m as int,
        )) by {
            assert(placements@ == st.placements + added);
            assert(added.len() == first.len());
        }
    }
    proof {
        let now = nats(placed@);
        let gain = Seq::new(
            types@.len(),
            |t: int| listed_of_type(of@, list@, t, k as nat),
        );
        assert(now =~= Seq::new(
            types@.len(),
            |t: int| st.placed[t] + listed_of_type(of@, list@, t, k as nat),
        ));
        assert forall|t: int| 0 <= t < types@.len() implies #[trigger] now[t]
            <= types@[t].count by {
            lemma_unplaced(types@, order@, of@, st.placed, order@.len(), t);
            lemma_listed_grows(of@, list@, t, k as nat, n);
        }
        lemma_listed_sum(of@, list@, types@.len(), k as nat);
        assert forall|t: int| 0 <= t < now.len() implies #[trigger] now[t] == st.placed[t]
            + gain[t] by {}
        lemma_total_sum(st.placed, gain, now);
    }
    false
}

/// Counts the listed copies of every type as placed.
fn count_placed(
    of: &Vec<usize>,
    part: &[usize],
    placed: &mut Vec<u32>,
    Ghost(types): Ghost<Seq<PieceType>>,
    Ghost(list): Ghost<Seq<usize>>,
    Ghost(k): Ghost<nat>,
)
    requires
        part@ == list.take(k as int),
        k <= list.len(),
        forall|i: int| 0 <= i < list.len() ==> #[trigger] list[i] < of@.len(),
        forall|i: int| 0 <= i < of@.len() ==> #[trigger] of@[i] < types.len(),
        old(placed)@.len() == types.len(),
        forall|t: int|
            0 <= t < types.len() ==> #[trigger] old(placed)@[t] + listed_of_type(
                of@,
                list,
                t,
                list.len(),
            ) <= types[t].count,
    ensures
        final(placed)@.len() == types.len(),
        forall|t: int|
            0 <= t < types.len() ==> #[trigger] final(placed)@[t] == old(placed)@[t]
                + listed_of_type(of@, list, t, k),
{
    let mut i: usize = 0;
    while i < part.len()
        invariant
            i <= part@.len(),
            part@ == list.take(k as int),
            k <= list.len(),
            forall|j: int| 0 <= j < list.len() ==> #[trigger] list[j] < of@.len(),
            forall|j: int| 0 <= j < of@.len() ==> #[trigger] of@[j] < types.len(),
            old(placed)@.len() == types.len(),
            placed@.len() == types.len(),
            forall|t: int|
                0 <= t < types.len() ==> #[trigger] old(placed)@[t] + listed_of_type(
                    of@,
                    list,
                    t,
                    list.len(),
                ) <= types[t].count,
            forall|t: int|
                0 <= t < types.len() ==> #[trigger] placed@[t] == old(placed)@[t]
                    + listed_of_type(of@, list, t, i as nat),
        decreases part@.len() - i,
    {
        assert(part@[i as int] == list[i as int]);
        let t: usize = of[part[i]];
        proof {
            lemma_listed_grows(of@, list, t as int, (i + 1) as nat, list.len());
            assert(old(placed)@[t as int] + listed_of_type(of@, list, t as int, list.len())
                <= types[t as int].count);
        }
        let now: u32 = placed[t] + 1;
        placed.set(t, now);
        i += 1;
    }
}

/// No more copies remain than there are.
proof fn lemma_unplaced_len(
    types: Seq<PieceType>,
    order: Seq<usize>,
    of: Seq<usize>,
    placed: Seq<nat>,
)
    requires
        of == type_indices(types, types.len()),
        types.len() <= usize::MAX,
        copies(types, types.len()) <= u32::MAX,
        order.len() == types.len(),
        order.no_duplicates(),
        forall|i: int| 0 <= i < order.len() ==> #[trigger] order[i] < types.len(),
        placed.len() == types.len(),
        forall|q: int| 0 <= q < types.len() ==> #[trigger] placed[q] <= types[q].count,
    ensures
        unplaced(types, order, placed, order.len()).len() <= copies(types, types.len()),
{
    let list = unplaced(types, order, placed, order.len());
    let n = types.len();
    lemma_type_indices(types, n);
    if n > 0 {
        lemma_unplaced(types, order, of, placed, order.len(), 0);
        lemma_listed_sum(of, list, n, list.len());
        let a = Seq::new(n, |t: int| listed_of_type(of, list, t, list.len()));
        let b = Seq::new(n, |t: int| types[t].count as nat);
        assert forall|t: int| 0 <= t < n implies #[trigger] a[t] <= b[t] by {
            lemma_unplaced(types, order, of, placed, order.len(), t);
        }
        crate::gpf::table::lemma_total_part(a, b);
        lemma_total_copies(types, b, n);
    }
}

proof fn lemma_total_copies(types: Seq<PieceType>, b: Seq<nat>, n: nat)
    requires
        n <= types.len(),
        b.len() == n,
        forall|t: int| 0 <= t < n ==> #[trigger] b[t] == types[t].count,
    ensures
        total(b) == copies(types, n),
    decreases n,
{
    if n > 0 {
        let d = b.drop_last();
        assert forall|t: int| 0 <= t < n - 1 implies #[trigger] d[t] == types[t].count by {
            assert(b[t] == types[t].count);
        }
        lemma_total_copies(types, d, (n - 1) as nat);
        assert(b[n - 1] == types[n - 1].count);
    }
}

/// The types and copies that remain.
fn collect_remaining(types: &Vec<PieceType>, starts: &Vec<usize>, placed: &Vec<u32>) -> (r: (
    Vec<PieceType>,
    Vec<usize>,
))
    requires
        copies(types@, types@.len()) <= usize::MAX,
        starts@.len() == types@.len(),
        forall|t: int| 0 <= t < types@.len() ==> #[trigger] starts@[t] == copies(types@, t as nat),
        placed@.len() == types@.len(),
        forall|t: int| 0 <= t < types@.len() ==> #[trigger] placed@[t] <= types@[t].count,
    ensures
        r.0@ == remaining_types(types@, nats(placed@), types@.len()),
        r.1@ == remaining_copies(types@, nats(placed@), types@.len()),
{
    let mut rest: Vec<PieceType> = Vec::new();
    let mut out: Vec<usize> = Vec::new();
    let mut t: usize = 0;
    while t < types.len()
        invariant
            t <= types@.len(),
            copies(types@, types@.len()) <= usize::MAX,
            starts@.len() == types@.len(),
            forall|q: int|
                0 <= q < types@.len() ==> #[trigger] starts@[q] == copies(types@, q as nat),
            placed@.len() == types@.len(),
            forall|q: int| 0 <= q < types@.len() ==> #[trigger] placed@[q] <= types@[q].count,
            rest@ == remaining_types(types@, nats(placed@), t as nat),
            out@ == remaining_copies(types@, nats(placed@), t as nat),
        decreases types@.len() - t,
    {
        let count: u32 = types[t].count;
        assert(placed@[t as int] <= types@[t as int].count);
        if count > placed[t] {
            let mut left = types[t].clone();
            left.count = count - placed[t];
            rest.push(left);
        }
        let ghost before = out@;
        let ghost block = left_of_type(types@, nats(placed@), t as int);
        let mut c: u32 = placed[t];
        assert(out@ =~= before + block.take(0));
        while c < count
            invariant
                placed@[t as int] <= c <= count,
                t < types@.len(),
                count == types@[t as int].count,
                placed@.len() == types@.len(),
                copies(types@, types@.len()) <= usize::MAX,
                starts@.len() == types@.len(),
                starts@[t as int] == copies(types@, t as nat),
                block == left_of_type(types@, nats(placed@), t as int),
                out@ == before + block.take(c - placed@[t as int]),
            decreases count - c,
        {
            proof {
                lemma_copies_grow(types@, (t + 1) as nat, types@.len());
            }
            out.push(starts[t] + c as usize);
            c += 1;
            assert(out@ =~= before + block.take(c - placed@[t as int]));
        }
        assert(block.take(c - placed@[t as int]) =~= block);
        t += 1;
    }
    (rest, out)
}

/// Placed and remaining copies are all copies.
proof fn lemma_nothing_lost(types: Seq<PieceType>, placed: Seq<nat>, n: nat)
    requires
        n <= types.len(),
        placed.len() == types.len(),
        forall|t: int| 0 <= t < types.len() ==> #[trigger] placed[t] <= types[t].count,
    ensures
        total(placed.take(n as int)) + remaining_copies(types, placed, n).len() == copies(types, n),
    decreases n,
{
    if n > 0 {
        lemma_nothing_lost(types, placed, (n - 1) as nat);
        assert(placed.take(n as int).drop_last() =~= placed.take(n - 1));
        assert(placed[n - 1] <= types[n - 1].count);
    }
}

/// Pre-places large pieces sheet by sheet before the rest is handed on. For each of up to
/// `glf_steps` sheets the remaining copies are taken by decreasing longer side, the longest
/// prefix that fits on one sheet is found, and its layout is recorded. Without steps the whole
/// statement remains.
pub fn glf_preplace(spec: &ProblemSpec, glf_steps: usize) -> (r: GlfPreplaceResult)
    requires
        copies(spec.piece_types@, spec.piece_types@.len()) <= usize::MAX,
        glf_steps > 0 ==> {
            &&& expandable(*spec)
            &&& copies(spec.piece_types@, spec.piece_types@.len()) <= u32::MAX
            &&& forall|p: Problem| #[trigger] is_expansion(*spec, p) ==> sides_fit(p)
        },
    ensures
        glf_steps == 0 ==> {
            &&& r.placements@.len() == 0
            &&& r.n_sheets == 0
            &&& r.used_heights@.len() == 0
            &&& r.used_widths@.len() == 0
            &&& r.remaining_spec.piece_types@ == spec.piece_types@
            &&& r.remaining_to_original@ =~= Seq::new(
                copies(spec.piece_types@, spec.piece_types@.len()),
                |i: int| i as usize,
            )
        },
        glf_steps > 0 ==> exists|p: Problem| #[trigger]
            is_expansion(*spec, p) && preplaced(*spec, p, glf_steps as nat, r) && packed(
                p.sheet,
                r.n_sheets as nat,
                cells(p.pieces@, r.placements@).to_multiset(),
            ),
        r.remaining_spec.sheet == spec.sheet,
        r.remaining_spec.kerf == spec.kerf,
        r.remaining_spec.margin == spec.margin,
        r.placements@.len() + r.remaining_to_original@.len() == copies(
            spec.piece_types@,
            spec.piece_types@.len(),
        ),
{
    let n: usize = spec.piece_types.len();
    let ghost types = spec.piece_types@;
    let mut starts: Vec<usize> = Vec::new();
    let mut acc: usize = 0;
    let mut t: usize = 0;
    while t < n
        invariant
            t <= n,
            n == types.len(),
            types == spec.piece_types@,
            copies(types, types.len()) <= usize::MAX,
            acc == copies(types, t as nat),
            starts@.len() == t,
            forall|j: int| 0 <= j < t ==> #[trigger] starts@[j] == copies(types, j as nat),
        decreases n - t,
    {
        starts.push(acc);
        proof {
            lemma_copies_grow(types, (t + 1) as nat, types.len());
        }
        acc = acc + spec.piece_types[t].count as usize;
        t += 1;
    }
    if glf_steps == 0 {
        let mut all: Vec<usize> = Vec::new();
        let mut i: usize = 0;
        while i < acc
            invariant
                i <= acc,
                all@ =~= Seq::new(i as nat, |j: int| j as usize),
            decreases acc - i,
        {
            all.push(i);
            i += 1;
        }
        return GlfPreplaceResult {
            placements: Vec::new(),
            n_sheets: 0,
            used_heights: Vec::new(),
            used_widths: Vec::new(),
            remaining_spec: spec.clone(),
            remaining_to_original: all,
        };
    }
    let problem = expand_problem(spec);
    let of = flat_to_type_map(spec);
    let rank = LongRanking { types: &spec.piece_types };
    let order = ranked(&rank, n);
    let mut placed: Vec<u32> = vec![0; n];
    let mut placements: Vec<Placement> = Vec::new();
    let mut heights: Vec<u32> = Vec::new();
    let mut widths: Vec<u32> = Vec::new();
    let ghost start = glf_start(n as nat);
    let ghost mut st = start;
    proof {
        lemma_expansion(*spec, problem);
        assert(nats(placed@) =~= start.placed);
        assert(placements@ =~= start.placements);
        assert(heights@ =~= start.heights);
        assert(widths@ =~= start.widths);
        lemma_total_zero(start.placed);
        lemma_packed_none(problem.sheet);
        let none = cells(problem.pieces@, placements@);
        none.to_multiset_ensures();
        assert(none =~= Seq::empty());
        assert(none.to_multiset() =~= Multiset::empty());
    }
    let mut step: usize = 0;
    let ghost goal = glf_run(problem, types, order@, of@, start, glf_steps as nat);
    while step < glf_steps
        invariant
            step <= glf_steps,
            types == spec.piece_types@,
            n == types.len(),
            sides_fit(problem),
            problem.pieces@.len() == copies(types, types.len()),
            copies(types, types.len()) <= u32::MAX,
            of@ == type_indices(types, types.len()),
            order@ == by_long_side(types),
            in_order((LongOrder { types }), types.len(), order@),
            starts@.len() == types.len(),
            forall|q: int| 0 <= q < types.len() ==> #[trigger] starts@[q] == copies(types, q as nat),
            st.placed == nats(placed@),
            st.placements == placements@,
            st.heights == heights@,
            st.widths == widths@,
            glf_ok(types, st),
            packed(
                problem.sheet,
                heights@.len(),
                cells(problem.pieces@, placements@).to_multiset(),
            ),
            goal == glf_run(problem, types, order@, of@, st, (glf_steps - step) as nat),
        decreases glf_steps - step,
    {
        let ghost before = st;
        let done = next_sheet(
            &problem,
            &spec.piece_types,
            &order,
            &of,
            &starts,
            &mut placed,
            &mut placements,
            &mut heights,
            &mut widths,
        );
        proof {
            st = Glf {
                placed: nats(placed@),
                placements: placements@,
                heights: heights@,
                widths: widths@,
            };
            assert(st == glf_step(problem, types, order@, of@, before));
            if done {
                lemma_idle(problem, types, order@, of@, st, (glf_steps - step) as nat);
                lemma_idle(problem, types, order@, of@, st, 0);
            }
        }
        if done {
            step = glf_steps;
        } else {
            step += 1;
        }
    }
    proof {
        assert forall|q: int| 0 <= q < types.len() implies #[trigger] placed@[q]
            <= types[q].count by {
            assert(st.placed[q] <= types[q].count);
        }
        lemma_nothing_lost(types, st.placed, types.len());
        assert(st.placed.take(types.len() as int) =~= st.placed);
    }
    let (rest, remaining_to_original) = collect_remaining(&spec.piece_types, &starts, &placed);
    let n_sheets: usize = heights.len();
    let r = GlfPreplaceResult {
        placements,
        n_sheets,
        used_heights: heights,
        used_widths: widths,
        remaining_spec: ProblemSpec {
            sheet: spec.sheet,
            kerf: spec.kerf,
            margin: spec.margin,
            piece_types: rest,
        },
        remaining_to_original,
    };
    assert(is_expansion(*spec, problem) && preplaced(*spec, problem, glf_steps as nat, r));
    r
}

/// The result of the pre-placement of an expansion.
pub open spec fn preplaced(
    spec: ProblemSpec,
    problem: Problem,
    steps: nat,
    r: GlfPreplaceResult,
) -> bool {
    let types = spec.piece_types@;
    let st = glf_run(
        problem,
        types,
        by_long_side(types),
        type_indices(types, types.len()),
        glf_start(types.len()),
        steps,
    );
    &&& r.placements@ == st.placements
    &&& r.n_sheets == st.heights.len()
    &&& r.used_heights@ == st.heights
    &&& r.used_widths@ == st.widths
    &&& r.remaining_spec.piece_types@ == remaining_types(types, st.placed, types.len())
    &&& r.remaining_to_original@ == remaining_copies(types, st.placed, types.len())
}

/// A step that changes nothing never does.
proof fn lemma_idle(
    problem: Problem,
    types: Seq<PieceType>,
    order: Seq<usize>,
    of: Seq<usize>,
    st: Glf,
    steps: nat,
)
    requires
        glf_step(problem, types, order, of, st) == st,
    ensures
        glf_run(problem, types, order, of, st, steps) == st,
    decreases steps,
{
    if steps > 0 {
        lemma_idle(problem, types, order, of, st, (steps - 1) as nat);
    }
}

/// The first `k` of a list fit into a strip of width `w` and height `h`.
pub open spec fn prefix_fits(pieces: Seq<Piece>, list: Seq<usize>, k: nat, w: int, h: int) -> bool {
    prefix_height(pieces, list, k, w) is Some && prefix_height(pieces, list, k, w)->0 <= h
}

/// A table for the first `k` of a list is not too large; one for a single piece never is.
pub open spec fn affordable(pieces: Seq<Piece>, list: Seq<usize>, k: nat) -> bool {
    k <= 1 || prefix_size(pieces, list, k) <= ITERATION_BUDGET
}

/// The longest prefix that is affordable.
proof fn lemma_bounded(pieces: Seq<Piece>, list: Seq<usize>, k: nat)
    requires
        k <= list.len(),
    ensures
        ({
            let b = bounded_prefix(pieces, list, ITERATION_BUDGET, k);
            &&& b <= k
            &&& affordable(pieces, list, b)
            &&& forall|j: nat| b < j <= k ==> !#[trigger] affordable(pieces, list, j)
        }),
    decreases k,
{
    if !affordable(pieces, list, k) {
        lemma_bounded(pieces, list, (k - 1) as nat);
    }
}

/// The longest prefix up to which every prefix fits.
proof fn lemma_fitting(pieces: Seq<Piece>, list: Seq<usize>, w: int, h: int, k: nat)
    requires
        k <= list.len(),
        forall|j: nat| 1 <= j <= k ==> #[trigger] prefix_fits(pieces, list, j, w, h),
    ensures
        ({
            let f = fitting_prefix(pieces, list, w, h, k);
            &&& k <= f <= list.len()
            &&& forall|j: nat| 1 <= j <= f ==> #[trigger] prefix_fits(pieces, list, j, w, h)
            &&& f < list.len() ==> !prefix_fits(pieces, list, f + 1, w, h)
        }),
    decreases list.len() - k,
{
    if k < list.len() && prefix_fits(pieces, list, k + 1, w, h) {
        lemma_fitting(pieces, list, w, h, k + 1);
    }
}

/// What a prefix of a list comes to does not depend on what is behind it.
proof fn lemma_groups_prefix(pieces: Seq<Piece>, list: Seq<usize>, b: int, k: nat)
    requires
        k <= b <= list.len(),
    ensures
        flat_groups(pieces, list.take(b), k) == flat_groups(pieces, list, k),
    decreases k,
{
    if k > 0 {
        lemma_groups_prefix(pieces, list, b, (k - 1) as nat);
    }
}

/// A sheet of the pre-placement takes the longest prefix it can of the copies that are not placed:
/// every prefix up to it fits on the sheet, it is affordable, and of the next one of these is not
/// true. It takes them all at once, on a sheet of its own, at the least height; where not even
/// the first fits nothing changes.
pub proof fn law_sheet_takes_longest_prefix(
    problem: Problem,
    types: Seq<PieceType>,
    order: Seq<usize>,
    of: Seq<usize>,
    st: Glf,
)
    requires
        unplaced(types, order, st.placed, order.len()).len() <= u32::MAX,
    ensures
        ({
            let pieces = problem.pieces@;
            let list = unplaced(types, order, st.placed, order.len());
            let (w, h) = (problem.sheet.width as int, problem.sheet.height as int);
            let now = glf_run(problem, types, order, of, st, 1);
            exists|k: nat|
                {
                    &&& k <= list.len()
                    &&& #[trigger] affordable(pieces, list, k)
                    &&& forall|j: nat| 1 <= j <= k ==> #[trigger] prefix_fits(pieces, list, j, w, h)
                    &&& k < list.len() ==> !prefix_fits(pieces, list, k + 1, w, h) || !affordable(
                        pieces,
                        list,
                        k + 1,
                    )
                    &&& k == 0 ==> now == st
                    &&& k > 0 ==> {
                        &&& now.heights == st.heights.push(
                            prefix_height(pieces, list, k, w)->0 as u32,
                        )
                        &&& now.widths.len() == st.widths.len() + 1
                        &&& now.placements == st.placements + sheet_placements(
                            pieces,
                            list,
                            k,
                            w,
                            st.heights.len() as int,
                        )
                        &&& now.placed.len() == types.len()
                        &&& forall|t: int|
                            0 <= t < types.len() ==> #[trigger] now.placed[t] == st.placed[t]
                                + listed_of_type(of, list, t, k)
                    }
                }
        }),
{
    let pieces = problem.pieces@;
    let list = unplaced(types, order, st.placed, order.len());
    let (w, h) = (problem.sheet.width as int, problem.sheet.height as int);
    let b = bounded_prefix(pieces, list, ITERATION_BUDGET, list.len());
    lemma_bounded(pieces, list, list.len());
    let front = list.take(b as int);
    let k = fitting_prefix(pieces, front, w, h, 0);
    lemma_fitting(pieces, front, w, h, 0);
    reveal_with_fuel(glf_run, 2);
    assert forall|j: nat| 1 <= j <= k implies #[trigger] prefix_fits(pieces, list, j, w, h) by {
        lemma_groups_prefix(pieces, list, b as int, j);
        assert(prefix_fits(pieces, front, j, w, h));
    }
    assert(affordable(pieces, list, k)) by {
        if k > 1 {
            if k < b {
                lemma_affordable_less(pieces, list, k, b);
            }
        }
    }
    if k < list.len() {
        if k < b {
            lemma_groups_prefix(pieces, list, b as int, k + 1);
            assert(!prefix_fits(pieces, front, k + 1, w, h));
        } else {
            assert(!affordable(pieces, list, k + 1));
        }
    }
}

/// What is affordable stays so with fewer pieces.
proof fn lemma_affordable_less(pieces: Seq<Piece>, list: Seq<usize>, j: nat, k: nat)
    requires
        j <= k <= list.len() <= u32::MAX,
        affordable(pieces, list, k),
    ensures
        affordable(pieces, list, j),
{
    if j > 1 {
        lemma_capacity_grows(pieces, list, j, k);
    }
}

/// Sheets are taken one after the other: some and then some more is so many at once.
pub proof fn law_sheets_follow_each_other(
    problem: Problem,
    types: Seq<PieceType>,
    order: Seq<usize>,
    of: Seq<usize>,
    st: Glf,
    a: nat,
    b: nat,
)
    ensures
        glf_run(problem, types, order, of, st, 0) == st,
        glf_run(problem, types, order, of, st, a + b) == glf_run(
            problem,
            types,
            order,
            of,
            glf_run(problem, types, order, of, st, a),
            b,
        ),
    decreases a,
{
    if a > 0 {
        let next = glf_step(problem, types, order, of, st);
        law_sheets_follow_each_other(problem, types, order, of, next, (a - 1) as nat, b);
        assert((a + b - 1) as nat == (a - 1) as nat + b);
    }
}

/// The types are taken by decreasing longer side, equally long ones in the order of the problem.
pub proof fn law_longest_types_first(types: Seq<PieceType>)
    requires
        types.len() <= usize::MAX,
    ensures
        by_long_side(types).len() == types.len(),
        forall|i: int|
            0 <= i < types.len() ==> #[trigger] by_long_side(types)[i] < types.len(),
        forall|i: int, j: int|
            0 <= i < j < types.len() ==> {
                let a = #[trigger] by_long_side(types)[i];
                let b = #[trigger] by_long_side(types)[j];
                let (s, t) = (types[a as int], types[b as int]);
                &&& t.width <= s.width || t.width <= s.height
                &&& t.height <= s.width || t.height <= s.height
                &&& (s.width <= t.width || s.width <= t.height) && (s.height <= t.width || s.height
                    <= t.height) ==> a < b
            },
{
    let o = LongOrder { types };
    let n = types.len();
    crate::sorting::lemma_order_exists(o, n);
    let s = by_long_side(types);
    assert(in_order(o, n, s));
    assert forall|i: int, j: int| 0 <= i < j < n implies ({
        let a = #[trigger] s[i];
        let b = #[trigger] s[j];
        let (p, q) = (types[a as int], types[b as int]);
        &&& q.width <= p.width || q.width <= p.height
        &&& q.height <= p.width || q.height <= p.height
        &&& (p.width <= q.width || p.width <= q.height) && (p.height <= q.width || p.height
            <= q.height) ==> a < b
    }) by {
        assert(crate::sorting::precedes(o, s[i] as int, s[j] as int));
    }
}

/// Copy `v` is one of type `t` that is not placed: the first copies of a type are placed first.
pub open spec fn waits(types: Seq<PieceType>, placed: Seq<nat>, t: int, v: int) -> bool {
    copies(types, t as nat) + placed[t] <= v < copies(types, t as nat) + types[t].count
}

proof fn lemma_left_of_type(types: Seq<PieceType>, placed: Seq<nat>, t: int, v: usize)
    requires
        0 <= t < types.len(),
        copies(types, types.len()) <= usize::MAX,
        placed[t] <= types[t].count,
    ensures
        left_of_type(types, placed, t).contains(v) <==> waits(types, placed, t, v as int),
{
    let list = left_of_type(types, placed, t);
    let first = copies(types, t as nat) + placed[t];
    lemma_copies_grow(types, (t + 1) as nat, types.len());
    if waits(types, placed, t, v as int) {
        assert(list[v - first] == v);
    }
    if list.contains(v) {
        let i = choose|i: int| 0 <= i < list.len() && list[i] == v;
        assert(list[i] == (first + i) as usize);
    }
}

/// The copies that are tried on the next sheet are those that are not placed, of all types of the
/// order.
pub proof fn law_unplaced_are_tried(
    types: Seq<PieceType>,
    order: Seq<usize>,
    placed: Seq<nat>,
    n: nat,
    v: usize,
)
    requires
        n <= order.len(),
        copies(types, types.len()) <= usize::MAX,
        forall|p: int| 0 <= p < order.len() ==> #[trigger] order[p] < types.len(),
        forall|t: int| 0 <= t < types.len() ==> #[trigger] placed[t] <= types[t].count,
    ensures
        unplaced(types, order, placed, n).contains(v) <==> exists|p: int|
            0 <= p < n && waits(types, placed, #[trigger] order[p] as int, v as int),
    decreases n,
{
    if n > 0 {
        let m = (n - 1) as nat;
        law_unplaced_are_tried(types, order, placed, m, v);
        let t = order[n - 1] as int;
        assert(placed[t] <= types[t].count);
        lemma_left_of_type(types, placed, t, v);
        lemma_in_either(unplaced(types, order, placed, m), left_of_type(types, placed, t), v);
        if waits(types, placed, t, v as int) {
            assert(waits(types, placed, order[n - 1] as int, v as int));
        }
    }
}

/// The copies that remain in the end are those that are not placed.
pub proof fn law_unplaced_remain(types: Seq<PieceType>, placed: Seq<nat>, n: nat, v: usize)
    requires
        n <= types.len(),
        copies(types, types.len()) <= usize::MAX,
        forall|t: int| 0 <= t < types.len() ==> #[trigger] placed[t] <= types[t].count,
    ensures
        remaining_copies(types, placed, n).contains(v) <==> exists|t: int|
            0 <= t < n && #[trigger] waits(types, placed, t, v as int),
    decreases n,
{
    if n > 0 {
        let m = (n - 1) as nat;
        law_unplaced_remain(types, placed, m, v);
        assert(placed[n - 1] <= types[n - 1].count);
        lemma_left_of_type(types, placed, n - 1, v);
        lemma_in_either(
            remaining_copies(types, placed, m),
            left_of_type(types, placed, n - 1),
            v,
        );
    }
}

proof fn lemma_in_either(a: Seq<usize>, b: Seq<usize>, v: usize)
    ensures
        (a + b).contains(v) <==> a.contains(v) || b.contains(v),
{
    let c = a + b;
    if a.contains(v) {
        let i = choose|i: int| 0 <= i < a.len() && a[i] == v;
        assert(c[i] == v);
    }
    if b.contains(v) {
        let i = choose|i: int| 0 <= i < b.len() && b[i] == v;
        assert(c[a.len() + i] == v);
    }
    if c.contains(v) {
        let i = choose|i: int| 0 <= i < c.len() && c[i] == v;
        if i < a.len() {
            assert(a[i] == v);
        } else {
            assert(b[i - a.len()] == v);
        }
    }
}

/// The statement of what remains has, for each type of which copies remain, one type of the same
/// size with as many copies as remain, in the same order.
pub proof fn law_remaining_types_keep_the_rest(types: Seq<PieceType>, placed: Seq<nat>, n: nat)
    requires
        n <= types.len(),
        forall|t: int| 0 <= t < types.len() ==> #[trigger] placed[t] <= types[t].count,
    ensures
        ({
            let list = remaining_types(types, placed, n);
            &&& forall|i: int|
                0 <= i < list.len() ==> #[trigger] rest_of_some(types, placed, n as int, list[i])
            &&& forall|t: int|
                0 <= t < n && #[trigger] placed[t] < types[t].count ==> exists|i: int|
                    0 <= i < list.len() && rest_of_type(types, placed, t, #[trigger] list[i])
        }),
    decreases n,
{
    if n > 0 {
        let m = (n - 1) as nat;
        law_remaining_types_keep_the_rest(types, placed, m);
        let a = remaining_types(types, placed, m);
        let list = remaining_types(types, placed, n);
        assert(placed[n - 1] <= types[n - 1].count);
        assert forall|i: int| 0 <= i < list.len() implies #[trigger] rest_of_some(
            types,
            placed,
            n as int,
            list[i],
        ) by {
            if i < a.len() {
                assert(list[i] == a[i]);
                assert(rest_of_some(types, placed, m as int, a[i]));
                let t = choose|t: int|
                    0 <= t < m && #[trigger] rest_of_type(types, placed, t, a[i]);
                assert(rest_of_type(types, placed, t, list[i]));
            } else {
                assert(rest_of_type(types, placed, n - 1, list[i]));
            }
        }
        assert forall|t: int| 0 <= t < n && #[trigger] placed[t] < types[t].count implies exists|
            i: int,
        | 0 <= i < list.len() && rest_of_type(types, placed, t, #[trigger] list[i]) by {
            if t < m {
                let i = choose|i: int|
                    0 <= i < a.len() && rest_of_type(types, placed, t, #[trigger] a[i]);
                assert(list[i] == a[i]);
            } else {
                assert(rest_of_type(types, placed, t, list[list.len() - 1]));
            }
        }
    }
}

/// `r` is what remains of one of the first `n` types.
pub open spec fn rest_of_some(
    types: Seq<PieceType>,
    placed: Seq<nat>,
    n: int,
    r: PieceType,
) -> bool {
    exists|t: int| 0 <= t < n && #[trigger] rest_of_type(types, placed, t, r)
}

/// `r` is type `t` with the number of its copies that are not placed.
pub open spec fn rest_of_type(
    types: Seq<PieceType>,
    placed: Seq<nat>,
    t: int,
    r: PieceType,
) -> bool {
    &&& r.width == types[t].width
    &&& r.height == types[t].height
    &&& r.can_rotate == types[t].can_rotate
    &&& r.count == types[t].count - placed[t]
    &&& r.count > 0
}

} // verus!
