//! From the spots of types to a pattern of pieces.

use vstd::prelude::*;

use super::bpc::Pattern;
use super::candidates::{candidates_of, has_flat, is_candidate, lemma_one_type, selects};
use super::chain::{on_sheet, tally};
use super::oracle::kinds;
use super::pricing::Pricer;
use super::selection::{counts, lemma_counts_more, Candidate};
use crate::gpf::recon::{
    lays_out, lemma_rank_bound, region, spot_cell, spot_cells, spot_copy, spot_rank,
    spots_of_type, TypeSpot,
};
use crate::gpf::table::GpfType;
use crate::layout::{
    bottom_part, forest_ok, forest_slices, packed, slices, slicing_ok, top_part, Slicing,
};
use crate::model::{cells, sheet_cell, well_placed, FreeRect, Placement, Problem, Sheet};

verus! {

/// The types of the candidates at some positions.
pub open spec fn types_at(cands: Seq<Candidate>, list: Seq<usize>) -> Seq<usize> {
    Seq::new(list.len(), |i: int| cands[list[i] as int].type_idx)
}

/// The selection of the candidates at some positions.
pub open spec fn selected(list: Seq<usize>, m: nat) -> Seq<bool> {
    Seq::new(m, |p: int| list.contains(p as usize))
}

/// Different positions of candidates.
pub open spec fn places(list: Seq<usize>, m: nat) -> bool {
    list.no_duplicates() && forall|i: int| 0 <= i < list.len() ==> (#[trigger] list[i]) < m
}

/// A selection given by a list counts the types of the list.
pub proof fn lemma_selected_counts(cands: Seq<Candidate>, types: Seq<GpfType>, list: Seq<usize>)
    requires
        super::selection::ranked_by_density(cands, types),
        places(list, cands.len()),
        cands.len() <= usize::MAX,
    ensures
        counts(cands, types.len(), selected(list, cands.len())) == tally(
            types_at(cands, list),
            types.len(),
        ),
    decreases list.len(),
{
    let m = cands.len();
    let n = types.len();
    let sel = selected(list, m);
    if list.len() == 0 {
        assert forall|t: int| 0 <= t < n implies counts(cands, n, sel)[t] == 0 by {
            lemma_nothing_counted(cands, sel, t, m);
        }
        assert(counts(cands, n, sel) =~= tally(types_at(cands, list), n));
    } else {
        let rest = list.drop_last();
        let p = list.last() as int;
        assert(places(rest, m)) by {
            assert forall|i: int| 0 <= i < rest.len() implies (#[trigger] rest[i]) < m by {
                assert(list[i] < m);
            }
        }
        lemma_selected_counts(cands, types, rest);
        let old_sel = selected(rest, m);
        assert(!old_sel[p]) by {
            if rest.contains(p as usize) {
                let i = choose|i: int| 0 <= i < rest.len() && rest[i] == p as usize;
                assert(list[i] != list[list.len() - 1]);
            }
        }
        assert(sel =~= old_sel.update(p, true)) by {
            assert forall|q: int| 0 <= q < m implies sel[q] == old_sel.update(p, true)[q] by {
                if q == p {
                    assert(list[list.len() - 1] == q as usize);
                } else if list.contains(q as usize) {
                    let i = choose|i: int| 0 <= i < list.len() && list[i] == q as usize;
                    assert(rest[i] == q as usize);
                }
                if rest.contains(q as usize) {
                    let i = choose|i: int| 0 <= i < rest.len() && rest[i] == q as usize;
                    assert(list[i] == q as usize);
                }
            }
        }
        lemma_counts_more(cands, types, old_sel, p);
        let ts = types_at(cands, list);
        assert(ts.drop_last() =~= types_at(cands, rest));
    }
}

proof fn lemma_nothing_counted(cands: Seq<Candidate>, sel: Seq<bool>, t: int, k: nat)
    requires
        k <= sel.len(),
        forall|i: int| 0 <= i < sel.len() ==> !#[trigger] sel[i],
    ensures
        super::selection::count_of(cands, sel, t, k) == 0,
    decreases k,
{
    if k > 0 {
        lemma_nothing_counted(cands, sel, t, (k - 1) as nat);
    }
}

/// The pieces that candidates of type `t` at some positions stand for.
pub open spec fn flats_of(cands: Seq<Candidate>, list: Seq<usize>, t: int) -> Seq<usize>
    decreases list.len(),
{
    if list.len() == 0 {
        Seq::empty()
    } else {
        let rest = flats_of(cands, list.drop_last(), t);
        let c = cands[list.last() as int];
        if c.type_idx == t {
            rest.push(c.flat_idx)
        } else {
            rest
        }
    }
}

/// The copies of a type: as many as the list counts, each of a position of the list, each
/// position's among them.
proof fn lemma_flats_of(cands: Seq<Candidate>, list: Seq<usize>, n: nat, t: int)
    requires
        places(list, cands.len()),
        0 <= t < n,
        forall|p: int| 0 <= p < cands.len() ==> (#[trigger] cands[p]).type_idx < n,
        forall|p: int, q: int|
            0 <= p < q < cands.len() ==> (#[trigger] cands[p]).flat_idx != (
            #[trigger] cands[q]).flat_idx,
    ensures
        tally(types_at(cands, list), n).len() == n,
        flats_of(cands, list, t).len() == tally(types_at(cands, list), n)[t],
        flats_of(cands, list, t).no_duplicates(),
        forall|i: int|
            0 <= i < flats_of(cands, list, t).len() ==> exists|k: int|
                0 <= k < list.len() && cands[(#[trigger] list[k]) as int].type_idx == t
                    && cands[list[k] as int].flat_idx == #[trigger] flats_of(cands, list, t)[i],
        forall|k: int|
            0 <= k < list.len() && cands[(#[trigger] list[k]) as int].type_idx == t ==> flats_of(
                cands,
                list,
                t,
            ).contains(cands[list[k] as int].flat_idx),
    decreases list.len(),
{
    if list.len() > 0 {
        let rest = list.drop_last();
        let p = list.last() as int;
        assert(list[list.len() - 1] < cands.len());
        assert(places(rest, cands.len())) by {
            assert forall|i: int| 0 <= i < rest.len() implies (#[trigger] rest[i])
                < cands.len() by {
                assert(list[i] < cands.len());
            }
        }
        lemma_flats_of(cands, rest, n, t);
        assert(types_at(cands, list).drop_last() =~= types_at(cands, rest));
        let a = flats_of(cands, rest, t);
        let b = flats_of(cands, list, t);
        let c = cands[p];
        if c.type_idx == t {
            assert forall|i: int| 0 <= i < a.len() implies #[trigger] a[i] != c.flat_idx by {
                let k = choose|k: int|
                    0 <= k < rest.len() && cands[(#[trigger] rest[k]) as int].type_idx == t
                        && cands[rest[k] as int].flat_idx == a[i];
                assert(list[k] != list[list.len() - 1]);
                let q = rest[k] as int;
                assert(rest[k] < cands.len());
                if q < p {
                    assert(cands[q].flat_idx != cands[p].flat_idx);
                } else {
                    assert(cands[p].flat_idx != cands[q].flat_idx);
                }
            }
        }
        assert forall|i: int| 0 <= i < b.len() implies exists|k: int|
            0 <= k < list.len() && cands[(#[trigger] list[k]) as int].type_idx == t
                && cands[list[k] as int].flat_idx == #[trigger] b[i] by {
            if i < a.len() {
                assert(a[i] == b[i]);
                let k = choose|k: int|
                    0 <= k < rest.len() && cands[(#[trigger] rest[k]) as int].type_idx == t
                        && cands[rest[k] as int].flat_idx == a[i];
                assert(list[k] == rest[k]);
                assert(cands[list[k] as int].flat_idx == b[i]);
            } else {
                let k = list.len() - 1;
                assert(cands[list[k] as int].flat_idx == b[i]);
            }
        }
        assert forall|k: int|
            0 <= k < list.len() && cands[(#[trigger] list[k]) as int].type_idx
                == t implies b.contains(cands[list[k] as int].flat_idx) by {
            if k < rest.len() {
                assert(rest[k] == list[k]);
                let i = choose|i: int| 0 <= i < a.len() && a[i] == cands[rest[k] as int].flat_idx;
                assert(b[i] == a[i]);
            } else {
                assert(b[b.len() - 1] == c.flat_idx);
            }
        }
    }
}

/// The pieces at each type that the positions stand for.
pub open spec fn flat_lists(cands: Seq<Candidate>, list: Seq<usize>, n: nat) -> Seq<Seq<usize>> {
    Seq::new(n, |t: int| flats_of(cands, list, t))
}

/// For each rank there is a spot of the type with it.
proof fn lemma_rank_exists(s: Seq<TypeSpot>, t: int, r: nat) -> (i: int)
    requires
        r < spots_of_type(s, t),
    ensures
        0 <= i < s.len(),
        s[i].type_idx == t,
        spot_rank(s, i) == r,
    decreases s.len(),
{
    let d = s.drop_last();
    let k = s.len() - 1;
    if s.last().type_idx == t && spots_of_type(d, t) == r {
        assert(s.take(k) =~= d);
        k
    } else {
        let i = lemma_rank_exists(d, t, r);
        assert(d.take(i) =~= s.take(i));
        i
    }
}

/// Two spots of a type have different ranks.
proof fn lemma_ranks_differ(s: Seq<TypeSpot>, i: int, j: int)
    requires
        0 <= i < j < s.len(),
        s[i].type_idx == s[j].type_idx,
    ensures
        spot_rank(s, i) < spot_rank(s, j),
{
    let t = s[i].type_idx as int;
    let p = s.take(j);
    lemma_rank_bound(p, i, t);
    assert(p.take(i) =~= s.take(i));
    assert(p[i] == s[i]);
}

/// The pieces of a pattern.
pub open spec fn chosen_of(items: Seq<usize>, n: nat) -> Seq<bool> {
    Seq::new(n, |i: int| items.contains(i as usize))
}

/// A layout on the sheet is cut from it.
pub(crate) proof fn lemma_on_sheet_packed(
    types: Seq<GpfType>,
    c: Seq<nat>,
    spots: Seq<TypeSpot>,
    sheet: Sheet,
)
    requires
        on_sheet(types, c, spots, sheet.width as int, sheet.height as int),
    ensures
        packed(sheet, 1, spot_cells(types, spots).to_multiset()),
{
    let h = choose|h: int|
        0 <= h <= sheet.height && #[trigger] lays_out(
            types,
            c,
            spots,
            region(0, 0, sheet.width as int, h),
        );
    let r = region(0, 0, sheet.width as int, h);
    let u = choose|u: Slicing| #[trigger]
        slicing_ok(u, r) && spot_cells(types, spots).to_multiset().subset_of(slices(u, r));
    let whole = sheet_cell(sheet, 0);
    let cut = Slicing::Stacked {
        at: h as u32,
        top: Box::new(u),
        bottom: Box::new(Slicing::Whole),
    };
    assert(top_part(whole, h as u32) == r);
    let f = seq![cut];
    assert(slicing_ok(Slicing::Whole, bottom_part(whole, h as u32)));
    assert(slicing_ok(cut, whole));
    assert(forest_ok(f, sheet));
    assert(f.drop_last() =~= Seq::empty());
    assert(forest_slices(f.drop_last(), sheet) =~= vstd::multiset::Multiset::empty());
    assert forall|v: FreeRect| spot_cells(types, spots).to_multiset().count(v) <= forest_slices(
        f,
        sheet,
    ).count(v) by {
        assert(spot_cells(types, spots).to_multiset().count(v) <= slices(u, r).count(v));
        assert(slices(cut, whole).count(v) >= slices(u, r).count(v));
    }
}

/// The problem of one pricing, as a flat problem.
pub open spec fn as_problem(pr: Pricer) -> Problem {
    Problem { sheet: Sheet { width: pr.sheet_w, height: pr.sheet_h }, pieces: pr.pieces }
}

/// The pattern has a copy on every spot, those of a type in the order of the list.
pub open spec fn assembled(
    cands: Seq<Candidate>,
    list: Seq<usize>,
    n: nat,
    spots: Seq<TypeSpot>,
    p: Pattern,
) -> bool {
    &&& p.items@.len() == spots.len()
    &&& p.placements@.len() == spots.len()
    &&& forall|k: int|
        0 <= k < spots.len() ==> {
            &&& #[trigger] p.items@[k] == spot_copy(flat_lists(cands, list, n), spots, k)
            &&& p.placements@[k] == (Placement {
                sheet_idx: 0,
                piece_idx: p.items@[k],
                x: spots[k].x,
                y: spots[k].y,
                rotated: spots[k].rotated,
            })
        }
}

/// A pattern of pieces that lie on one sheet as they can be cut.
pub open spec fn valid_pattern(pr: Pricer, p: Pattern) -> bool {
    &&& p.items@.no_duplicates()
    &&& p.items@.len() == p.placements@.len()
    &&& forall|i: int|
        0 <= i < p.items@.len() ==> {
            &&& (#[trigger] p.items@[i]) < pr.pieces@.len()
            &&& p.placements@[i].piece_idx == p.items@[i]
            &&& p.placements@[i].sheet_idx == 0
            &&& p.placements@[i].rotated ==> pr.pieces@[p.items@[i] as int].can_rotate
        }
    &&& packed(as_problem(pr).sheet, 1, cells(pr.pieces@, p.placements@).to_multiset())
    &&& well_placed(as_problem(pr), p.placements@)
}

/// The list of flats, one list for each type.
fn type_queues(cands: &Vec<Candidate>, list: &Vec<usize>, n: usize) -> (r: Vec<Vec<usize>>)
    requires
        places(list@, cands@.len()),
        forall|p: int| 0 <= p < cands@.len() ==> (#[trigger] cands@[p]).type_idx < n,
    ensures
        r@.len() == n,
        forall|t: int| 0 <= t < n ==> (#[trigger] r@[t])@ == flats_of(cands@, list@, t),
{
    let mut out: Vec<Vec<usize>> = Vec::new();
    while out.len() < n
        invariant
            out@.len() <= n,
            forall|t: int| 0 <= t < out@.len() ==> (#[trigger] out@[t])@ == Seq::<usize>::empty(),
        decreases n - out@.len(),
    {
        out.push(Vec::new());
        assert(out@[out@.len() - 1]@ =~= Seq::empty());
    }
    let mut k: usize = 0;
    assert(list@.take(0) =~= Seq::empty());
    while k < list.len()
        invariant
            k <= list@.len(),
            places(list@, cands@.len()),
            forall|p: int| 0 <= p < cands@.len() ==> (#[trigger] cands@[p]).type_idx < n,
            out@.len() == n,
            forall|t: int|
                0 <= t < n ==> (#[trigger] out@[t])@ == flats_of(
                    cands@,
                    list@.take(k as int),
                    t,
                ),
        decreases list@.len() - k,
    {
        let ghost before = out@;
        assert(list@[k as int] < cands@.len());
        let c = cands[list[k]];
        assert(list@.take(k + 1).drop_last() =~= list@.take(k as int));
        assert(cands@[list@[k as int] as int].type_idx < n);
        out[c.type_idx].push(c.flat_idx);
        assert forall|t: int| 0 <= t < n implies (#[trigger] out@[t])@ == flats_of(
            cands@,
            list@.take(k + 1),
            t,
        ) by {
            assert(before[t]@ == flats_of(cands@, list@.take(k as int), t));
        }
        k += 1;
    }
    assert(list@.take(k as int) =~= list@);
    out
}

impl Pricer {
    /// Gives each spot a copy, those of a type in the order of the list.
    pub(crate) fn assemble(
        &self,
        spots: &Vec<TypeSpot>,
        list: &Vec<usize>,
        cands: &Vec<Candidate>,
        Ghost(mu): Ghost<Seq<u64>>,
    ) -> (r: Pattern)
        requires
            self.wf(),
            mu.len() == self.pieces@.len(),
            candidates_of(self.ptypes@, mu, cands@),
            places(list@, cands@.len()),
            on_sheet(
                kinds(self.ptypes@),
                tally(types_at(cands@, list@), self.ptypes@.len()),
                spots@,
                self.sheet_w as int,
                self.sheet_h as int,
            ),
        ensures
            valid_pattern(*self, r),
            assembled(cands@, list@, self.ptypes@.len(), spots@, r),
            selects(
                cands@,
                selected(list@, cands@.len()),
                chosen_of(r.items@, self.pieces@.len()),
            ),
    {
        let n: usize = self.ptypes.len();
        let ghost ts = kinds(self.ptypes@);
        let ghost c = tally(types_at(cands@, list@), n as nat);
        let ghost (sw, sh) = (self.sheet_w as int, self.sheet_h as int);
        let ghost h = choose|h: int|
            0 <= h <= sh && #[trigger] lays_out(ts, c, spots@, region(0, 0, sw, h));
        let ghost lists = flat_lists(cands@, list@, n as nat);
        proof {
            assert forall|p: int| 0 <= p < cands@.len() implies (#[trigger] cands@[p]).type_idx
                < n by {
                assert(is_candidate(self.ptypes@, mu, cands@[p]));
            }
            assert forall|t: int| 0 <= t < n implies {
                &&& (#[trigger] lists[t]).len() == spots_of_type(spots@, t)
                &&& lists[t].no_duplicates()
                &&& lists[t] == flats_of(cands@, list@, t)
            } by {
                lemma_flats_of(cands@, list@, n as nat, t);
                assert(spots_of_type(spots@, t) == c[t]);
            }
        }
        let queues = type_queues(cands, list, n);
        let mut next: Vec<usize> = vec![0usize; n];
        let mut items: Vec<usize> = Vec::new();
        let mut placements: Vec<Placement> = Vec::new();
        let mut i: usize = 0;
        proof {
            assert(spots@.take(0) =~= Seq::empty());
        }
        while i < spots.len()
            invariant
                i <= spots@.len(),
                n == self.ptypes@.len(),
                ts == kinds(self.ptypes@),
                lists == flat_lists(cands@, list@, n as nat),
                queues@.len() == n,
                forall|t: int|
                    0 <= t < n ==> (#[trigger] queues@[t])@ == flats_of(cands@, list@, t),
                forall|t: int|
                    0 <= t < n ==> (#[trigger] lists[t]).len() == spots_of_type(spots@, t),
                forall|k: int| 0 <= k < spots@.len() ==> (#[trigger] spots@[k]).type_idx < n,
                next@.len() == n,
                forall|t: int|
                    0 <= t < n ==> #[trigger] next@[t] == spots_of_type(spots@.take(i as int), t),
                items@.len() == i,
                placements@.len() == i,
                forall|k: int|
                    0 <= k < i ==> {
                        &&& #[trigger] items@[k] == spot_copy(lists, spots@, k)
                        &&& placements@[k] == (Placement {
                            sheet_idx: 0,
                            piece_idx: items@[k],
                            x: spots@[k].x,
                            y: spots@[k].y,
                            rotated: spots@[k].rotated,
                        })
                    },
            decreases spots@.len() - i,
        {
            let s = spots[i];
            let t: usize = s.type_idx;
            assert(spots@[i as int].type_idx < n);
            proof {
                lemma_rank_bound(spots@, i as int, t as int);
                assert(lists[t as int].len() == spots_of_type(spots@, t as int));
                assert(lists[t as int] == flats_of(cands@, list@, t as int));
                assert(queues@[t as int]@ == flats_of(cands@, list@, t as int));
            }
            let k: usize = next[t];
            assert(queues@[t as int].len() == queues@[t as int]@.len());
            let flat: usize = queues[t][k];
            items.push(flat);
            placements.push(
                Placement { sheet_idx: 0, piece_idx: flat, x: s.x, y: s.y, rotated: s.rotated },
            );
            next.set(t, k + 1);
            proof {
                assert(spots@.take(i + 1).drop_last() =~= spots@.take(i as int));
                assert(flat == spot_copy(lists, spots@, i as int));
            }
            i += 1;
        }
        let r = Pattern { items, placements };
        proof {
            assert(self.pieces.len() == self.pieces@.len());
            assert(cands.len() == cands@.len());
            self.lemma_assembled(mu, cands@, list@, spots@, h, r);
        }
        r
    }

    /// What the spots with their copies are.
    proof fn lemma_assembled(
        &self,
        mu: Seq<u64>,
        cands: Seq<Candidate>,
        list: Seq<usize>,
        spots: Seq<TypeSpot>,
        h: int,
        r: Pattern,
    )
        requires
            self.wf(),
            self.pieces@.len() <= usize::MAX,
            cands.len() <= usize::MAX,
            mu.len() == self.pieces@.len(),
            candidates_of(self.ptypes@, mu, cands),
            places(list, cands.len()),
            0 <= h <= self.sheet_h,
            lays_out(
                kinds(self.ptypes@),
                tally(types_at(cands, list), self.ptypes@.len()),
                spots,
                region(0, 0, self.sheet_w as int, h),
            ),
            assembled(cands, list, self.ptypes@.len(), spots, r),
        ensures
            valid_pattern(*self, r),
            selects(
                cands,
                selected(list, cands.len()),
                chosen_of(r.items@, self.pieces@.len()),
            ),
    {
        let n = self.ptypes@.len();
        let ts = kinds(self.ptypes@);
        let c = tally(types_at(cands, list), n);
        let lists = flat_lists(cands, list, n);
        let items = r.items@;
        assert forall|p: int| 0 <= p < cands.len() implies (#[trigger] cands[p]).type_idx < n by {
            assert(is_candidate(self.ptypes@, mu, cands[p]));
        }
        // Every item is the piece of a position of the list, of the type of its spot.
        assert forall|k: int| 0 <= k < items.len() implies {
            let t = spots[k].type_idx as int;
            &&& 0 <= t < n
            &&& spot_rank(spots, k) < lists[t].len()
            &&& self.ptypes@[t].copies@.contains(#[trigger] items[k])
            &&& exists|j: int|
                0 <= j < list.len() && cands[(#[trigger] list[j]) as int].type_idx == t
                    && cands[list[j] as int].flat_idx == items[k]
        } by {
            let t = spots[k].type_idx as int;
            lemma_flats_of(cands, list, n, t);
            assert(spots_of_type(spots, t) == c[t]);
            lemma_rank_bound(spots, k, t);
            let q = spot_rank(spots, k) as int;
            assert(items[k] == flats_of(cands, list, t)[q]);
            let j = choose|j: int|
                0 <= j < list.len() && cands[(#[trigger] list[j]) as int].type_idx == t
                    && cands[list[j] as int].flat_idx == flats_of(cands, list, t)[q];
            assert(list[j] < cands.len());
            assert(is_candidate(self.ptypes@, mu, cands[list[j] as int]));
        }
        assert(items.no_duplicates()) by {
            assert forall|i: int, j: int| 0 <= i < items.len() && 0 <= j < items.len() && i
                != j implies items[i] != items[j] by {
                let (a, b) = (spots[i].type_idx as int, spots[j].type_idx as int);
                assert(self.ptypes@[a].copies@.contains(items[i]));
                assert(self.ptypes@[b].copies@.contains(items[j]));
                if items[i] == items[j] {
                    lemma_one_type(*self, a, b, items[i]);
                    lemma_flats_of(cands, list, n, a);
                    if i < j {
                        lemma_ranks_differ(spots, i, j);
                    } else {
                        lemma_ranks_differ(spots, j, i);
                    }
                    let (x, y) = (spot_rank(spots, i) as int, spot_rank(spots, j) as int);
                    assert(flats_of(cands, list, a)[x] != flats_of(cands, list, a)[y]);
                }
            }
        }
        assert forall|i: int| 0 <= i < items.len() implies {
            &&& (#[trigger] items[i]) < self.pieces@.len()
            &&& r.placements@[i].rotated ==> self.pieces@[items[i] as int].can_rotate
            &&& r.placements@[i].cell(self.pieces@) == spot_cell(ts, spots[i])
        } by {
            let t = spots[i].type_idx as int;
            assert(self.ptypes@[t].copies@.contains(items[i]));
            lemma_one_type(*self, t, t, items[i]);
            assert(spots[i].rotated ==> ts[spots[i].type_idx as int].can_rotate);
        }
        let problem = as_problem(*self);
        assert(cells(problem.pieces@, r.placements@) =~= spot_cells(ts, spots)) by {
            assert forall|i: int| 0 <= i < spots.len() implies cells(
                problem.pieces@,
                r.placements@,
            )[i] == spot_cells(ts, spots)[i] by {
                assert(items[i] < self.pieces@.len());
            }
        }
        lemma_on_sheet_packed(ts, c, spots, problem.sheet);
        assert forall|i: int| 0 <= i < r.placements@.len() implies (
        #[trigger] r.placements@[i]).piece_idx < problem.pieces.len() by {
            assert(items[i] < self.pieces@.len());
        }
        crate::guillotine::lemma_packed_well_placed(
            problem,
            1,
            spot_cells(ts, spots).to_multiset(),
            r.placements@,
        );
        // The positions of the list are those of the items.
        let sel = selected(list, cands.len());
        let chosen = chosen_of(items, self.pieces@.len());
        assert forall|p: int| 0 <= p < cands.len() implies sel[p] == chosen[(
        #[trigger] cands[p]).flat_idx as int] by {
            let t = cands[p].type_idx as int;
            assert(is_candidate(self.ptypes@, mu, cands[p]));
            lemma_one_type(*self, t, t, cands[p].flat_idx);
            lemma_flats_of(cands, list, n, t);
            if sel[p] {
                let k = choose|k: int| 0 <= k < list.len() && list[k] == p as usize;
                assert(cands[list[k] as int].type_idx == t);
                let f = flats_of(cands, list, t);
                assert(f.contains(cands[list[k] as int].flat_idx));
                let q = choose|q: int| 0 <= q < f.len() && f[q] == cands[p].flat_idx;
                assert(spots_of_type(spots, t) == c[t]);
                let i = lemma_rank_exists(spots, t, q as nat);
                assert(items[i] == cands[p].flat_idx);
            }
            if items.contains(cands[p].flat_idx) {
                let i = choose|i: int| 0 <= i < items.len() && items[i] == cands[p].flat_idx;
                let u = spots[i].type_idx as int;
                assert(self.ptypes@[u].copies@.contains(items[i]));
                let j = choose|j: int|
                    0 <= j < list.len() && cands[(#[trigger] list[j]) as int].type_idx == u
                        && cands[list[j] as int].flat_idx == items[i];
                assert(list[j] < cands.len());
                let x = list[j] as int;
                if x < p {
                    assert(cands[x].flat_idx != cands[p].flat_idx);
                } else if p < x {
                    assert(cands[p].flat_idx != cands[x].flat_idx);
                }
                assert(list[j] == p as usize);
            }
        }
        assert forall|i: int| 0 <= i < chosen.len() && #[trigger] chosen[i] implies has_flat(
            cands,
            i as usize,
        ) by {
            let k = choose|k: int| 0 <= k < items.len() && items[k] == i as usize;
            let t = spots[k].type_idx as int;
            assert(self.ptypes@[t].copies@.contains(items[k]));
            let j = choose|j: int|
                0 <= j < list.len() && cands[(#[trigger] list[j]) as int].type_idx == t
                    && cands[list[j] as int].flat_idx == items[k];
            assert(list[j] < cands.len());
            assert(cands[list[j] as int].flat_idx == i as usize);
        }
    }
}

} // verus!
