//! What a reconstructed layout holds of the statement that its table was built from.

use vstd::multiset::Multiset;
use vstd::prelude::*;

use super::groups::{
    counts_fit, groups_ok, kind_index, lemma_kind_index, same_kind, spec_groups,
};
use super::recon::{
    assigned, lays_out, spot_cells, spot_copy, spot_rank, spots_of_type, TypeSpot,
};
use super::table::full_set;
use crate::expand::{by_spot, spot_sorted, used_before, SpotOrder};
use crate::layout::{
    apart, bounded, lemma_slices_apart, lemma_slices_within, slices, slicing_ok, within, Slicing,
};
use crate::model::{FreeRect, PieceType, PlacementSpec};
use crate::sorting::{
    arranged, lemma_arranged, lemma_in_order_all, lemma_order_exists, order_of, precedes, Order,
};

verus! {

/// How often `v` is among the first `k` of a list.
pub open spec fn seen(list: Seq<usize>, v: usize, k: nat) -> nat
    decreases k,
{
    if k == 0 {
        0
    } else {
        seen(list, v, (k - 1) as nat) + if list[k - 1] == v {
            1nat
        } else {
            0nat
        }
    }
}

/// How often `v` is in the first `n` lists.
spec fn all_seen(lists: Seq<Seq<usize>>, v: usize, n: nat) -> nat
    decreases n,
{
    if n == 0 {
        0
    } else {
        all_seen(lists, v, (n - 1) as nat) + seen(lists[n - 1], v, lists[n - 1].len())
    }
}

proof fn lemma_seen_same(a: Seq<usize>, b: Seq<usize>, v: usize, k: nat)
    requires
        forall|i: int| 0 <= i < k ==> a[i] == b[i],
    ensures
        seen(a, v, k) == seen(b, v, k),
    decreases k,
{
    if k > 0 {
        lemma_seen_same(a, b, v, (k - 1) as nat);
    }
}

proof fn lemma_seen_more(list: Seq<usize>, id: usize, v: usize, count: nat)
    ensures
        ({
            let more = list + Seq::new(count, |i: int| id);
            seen(more, v, more.len()) == seen(list, v, list.len()) + if id == v {
                count
            } else {
                0
            }
        }),
    decreases count,
{
    let more = list + Seq::new(count, |i: int| id);
    if count == 0 {
        assert(more =~= list);
    } else {
        let less = list + Seq::new((count - 1) as nat, |i: int| id);
        lemma_seen_more(list, id, v, (count - 1) as nat);
        lemma_seen_same(more, less, v, less.len());
    }
}

proof fn lemma_all_seen_same(a: Seq<Seq<usize>>, b: Seq<Seq<usize>>, v: usize, n: nat)
    requires
        forall|t: int| 0 <= t < n ==> a[t] == b[t],
    ensures
        all_seen(a, v, n) == all_seen(b, v, n),
    decreases n,
{
    if n > 0 {
        lemma_all_seen_same(a, b, v, (n - 1) as nat);
    }
}

proof fn lemma_all_seen_update(
    lists: Seq<Seq<usize>>,
    k: int,
    id: usize,
    count: nat,
    v: usize,
    n: nat,
)
    requires
        0 <= k < lists.len(),
        n <= lists.len(),
    ensures
        all_seen(lists.update(k, lists[k] + Seq::new(count, |i: int| id)), v, n) == all_seen(
            lists,
            v,
            n,
        ) + if k < n && id == v {
            count
        } else {
            0
        },
    decreases n,
{
    if n > 0 {
        lemma_all_seen_update(lists, k, id, count, v, (n - 1) as nat);
        if k == n - 1 {
            lemma_seen_more(lists[k], id, v, count);
        }
    }
}

/// Every piece of a statement is in the lists of its groups as often as it is counted, among
/// pieces of the same kind.
proof fn lemma_listed(types: Seq<PieceType>, kerf: u32, n: nat, v: usize)
    requires
        n <= types.len() <= usize::MAX,
        counts_fit(types, kerf),
        forall|t: int|
            0 <= t < types.len() ==> (#[trigger] types[t]).width + kerf <= u32::MAX
                && types[t].height + kerf <= u32::MAX,
    ensures
        groups_ok(spec_groups(types, kerf, n)),
        all_seen(
            spec_groups(types, kerf, n).lists,
            v,
            spec_groups(types, kerf, n).lists.len(),
        ) == if v < n {
            types[v as int].count as nat
        } else {
            0
        },
        forall|t: int, j: int|
            0 <= t < spec_groups(types, kerf, n).types.len() && 0 <= j < spec_groups(
                types,
                kerf,
                n,
            ).lists[t].len() ==> {
                let id = #[trigger] spec_groups(types, kerf, n).lists[t][j];
                &&& id < n
                &&& same_kind(
                    spec_groups(types, kerf, n).types[t],
                    (types[id as int].width + kerf) as u32,
                    (types[id as int].height + kerf) as u32,
                    types[id as int].can_rotate,
                )
            },
    decreases n,
{
    if n > 0 {
        let m = (n - 1) as nat;
        lemma_listed(types, kerf, m, v);
        let p = types[n - 1];
        let (w, h) = ((p.width + kerf) as u32, (p.height + kerf) as u32);
        let g = spec_groups(types, kerf, m);
        let now = spec_groups(types, kerf, n);
        let k = kind_index(g.types, w, h, p.can_rotate, 0);
        let id = m as usize;
        lemma_kind_index(g.types, w, h, p.can_rotate, 0);
        let more = Seq::new(p.count as nat, |i: int| id);
        if k < g.types.len() {
            lemma_all_seen_update(g.lists, k, id, p.count as nat, v, g.lists.len());
        } else {
            lemma_all_seen_same(now.lists, g.lists, v, g.lists.len());
            lemma_seen_more(Seq::empty(), id, v, p.count as nat);
            assert(Seq::empty() + more =~= more);
        }
        assert(spec_groups(types, kerf, m as int as nat) == g);
        assert forall|t: int| 0 <= t < now.types.len() implies (#[trigger] now.lists[t]).len()
            == now.types[t].count by {
            if t < g.types.len() {
                assert(g.lists[t].len() == g.types[t].count);
            }
        }
        assert forall|t: int, j: int|
            0 <= t < now.types.len() && 0 <= j < now.lists[t].len() implies {
            let id = #[trigger] now.lists[t][j];
            &&& id < n
            &&& same_kind(
                now.types[t],
                (types[id as int].width + kerf) as u32,
                (types[id as int].height + kerf) as u32,
                types[id as int].can_rotate,
            )
        } by {
            if t < g.types.len() && j < g.lists[t].len() {
                assert(now.lists[t][j] == g.lists[t][j]);
            } else {
                assert(now.lists[t][j] == id);
                assert(t == k);
            }
        }
    }
}

/// How often `v` is held by the spots, list by list.
spec fn held(lists: Seq<Seq<usize>>, s: Seq<TypeSpot>, v: usize, n: nat) -> nat
    decreases n,
{
    if n == 0 {
        0
    } else {
        held(lists, s, v, (n - 1) as nat) + seen(lists[n - 1], v, spots_of_type(s, n - 1))
    }
}

proof fn lemma_held_push(
    lists: Seq<Seq<usize>>,
    s: Seq<TypeSpot>,
    p: TypeSpot,
    v: usize,
    n: nat,
)
    ensures
        held(lists, s.push(p), v, n) == held(lists, s, v, n) + if p.type_idx < n && lists[
            p.type_idx as int][spots_of_type(s, p.type_idx as int) as int] == v {
            1nat
        } else {
            0nat
        },
    decreases n,
{
    if n > 0 {
        lemma_held_push(lists, s, p, v, (n - 1) as nat);
        assert(s.push(p).drop_last() =~= s);
    }
}

proof fn lemma_assigned_count(lists: Seq<Seq<usize>>, s: Seq<TypeSpot>, v: usize, k: nat)
    requires
        k <= s.len(),
        forall|i: int| 0 <= i < s.len() ==> (#[trigger] s[i]).type_idx < lists.len(),
    ensures
        used_before(assigned(lists, s), v, k) == held(lists, s.take(k as int), v, lists.len()),
    decreases k,
{
    if k == 0 {
        lemma_held_none(lists, s.take(0), v, lists.len());
    } else {
        lemma_assigned_count(lists, s, v, (k - 1) as nat);
        let p = s[k - 1];
        assert(p.type_idx < lists.len());
        assert(s.take(k as int) =~= s.take(k - 1).push(p));
        lemma_held_push(lists, s.take(k - 1), p, v, lists.len());
        assert(spot_rank(s, k - 1) == spots_of_type(s.take(k - 1), p.type_idx as int));
        assert(assigned(lists, s)[k - 1].ptype_idx == spot_copy(lists, s, k - 1));
    }
}

proof fn lemma_held_none(lists: Seq<Seq<usize>>, s: Seq<TypeSpot>, v: usize, n: nat)
    requires
        s.len() == 0,
    ensures
        held(lists, s, v, n) == 0,
    decreases n,
{
    if n > 0 {
        lemma_held_none(lists, s, v, (n - 1) as nat);
    }
}

proof fn lemma_held_all(lists: Seq<Seq<usize>>, s: Seq<TypeSpot>, v: usize, n: nat)
    requires
        n <= lists.len(),
        forall|t: int|
            0 <= t < lists.len() ==> spots_of_type(s, t) == (#[trigger] lists[t]).len(),
    ensures
        held(lists, s, v, n) == all_seen(lists, v, n),
    decreases n,
{
    if n > 0 {
        lemma_held_all(lists, s, v, (n - 1) as nat);
        assert(spots_of_type(s, n - 1) == lists[n - 1].len());
    }
}

/// The types of placements.
spec fn ids_of(list: Seq<PlacementSpec>) -> Seq<usize> {
    Seq::new(list.len(), |i: int| list[i].ptype_idx)
}

proof fn lemma_used_is_count(list: Seq<PlacementSpec>, v: usize, k: nat)
    requires
        k <= list.len(),
    ensures
        used_before(list, v, k) == ids_of(list).take(k as int).to_multiset().count(v),
    decreases k,
{
    broadcast use vstd::seq_lib::group_to_multiset_ensures;

    let ids = ids_of(list);
    if k == 0 {
        assert(ids.take(0) =~= Seq::empty());
    } else {
        lemma_used_is_count(list, v, (k - 1) as nat);
        assert(ids.take(k as int) =~= ids.take(k - 1).push(ids[k - 1]));
    }
}

/// Two items of a list are both in it.
proof fn lemma_two_of(list: Seq<FreeRect>, i: int, j: int)
    requires
        0 <= i < list.len(),
        0 <= j < list.len(),
        i != j,
    ensures
        Multiset::singleton(list[i]).add(Multiset::singleton(list[j])).subset_of(
            list.to_multiset(),
        ),
{
    let (a, b) = (list[i], list[j]);
    let rest = list.remove(j);
    list.to_multiset_ensures();
    rest.to_multiset_ensures();
    let k = if i < j {
        i
    } else {
        i - 1
    };
    assert(rest[k] == a);
    assert(rest.contains(a));
    assert(list.contains(b));
    assert(rest.to_multiset() =~= list.to_multiset().remove(b));
    let pair = Multiset::singleton(a).add(Multiset::singleton(b));
    assert(list.to_multiset().remove(b).count(a) > 0);
    assert(list.to_multiset().count(b) > 0);
    assert forall|v: FreeRect| pair.count(v) <= list.to_multiset().count(v) by {}
}

/// The rectangle of a placed piece with the saw cut.
pub open spec fn grown_cell(types: Seq<PieceType>, kerf: u32, pl: PlacementSpec) -> FreeRect {
    let t = types[pl.ptype_idx as int];
    let (w, h) = ((t.width + kerf) as u32, (t.height + kerf) as u32);
    FreeRect {
        sheet_idx: 0,
        x: pl.x,
        y: pl.y,
        w: if pl.rotated {
            h
        } else {
            w
        },
        h: if pl.rotated {
            w
        } else {
            h
        },
    }
}

/// A reconstructed layout holds every piece of the statement as often as it is counted, on one
/// sheet, turned only where it may be; the pieces with their saw cuts lie inside the strip and
/// are apart from each other; placements go from left to right and from top to bottom.
pub proof fn law_layout_holds_the_statement(
    types: Seq<PieceType>,
    kerf: u32,
    s: Seq<TypeSpot>,
    strip: FreeRect,
)
    requires
        types.len() <= usize::MAX,
        s.len() <= usize::MAX,
        counts_fit(types, kerf),
        forall|t: int|
            0 <= t < types.len() ==> (#[trigger] types[t]).width + kerf <= u32::MAX
                && types[t].height + kerf <= u32::MAX,
        bounded(strip),
        strip.sheet_idx == 0,
        lays_out(
            spec_groups(types, kerf, types.len()).types,
            full_set(spec_groups(types, kerf, types.len()).types),
            s,
            strip,
        ),
    ensures
        ({
            let placed = by_spot(assigned(spec_groups(types, kerf, types.len()).lists, s));
            &&& placed.len() == s.len()
            &&& spot_sorted(placed)
            &&& forall|v: int|
                0 <= v < types.len() ==> used_before(placed, v as usize, placed.len())
                    == (#[trigger] types[v]).count
            &&& forall|i: int|
                0 <= i < placed.len() ==> {
                    let pl = #[trigger] placed[i];
                    &&& pl.sheet_idx == 0
                    &&& pl.ptype_idx < types.len()
                    &&& pl.rotated ==> types[pl.ptype_idx as int].can_rotate
                    &&& within(grown_cell(types, kerf, pl), strip)
                }
            &&& forall|i: int, j: int|
                0 <= i < j < placed.len() ==> apart(
                    grown_cell(types, kerf, #[trigger] placed[i]),
                    grown_cell(types, kerf, #[trigger] placed[j]),
                )
        }),
{
    let g = spec_groups(types, kerf, types.len());
    let list = assigned(g.lists, s);
    let n = list.len();
    let rank = SpotOrder { placements: list };
    let order = order_of(rank, n);
    let placed = by_spot(list);
    lemma_listed(types, kerf, types.len(), 0);
    lemma_order_exists(rank, n);
    if n > 0 {
        lemma_in_order_all(rank, n, order, 0);
    }
    assert(order.no_duplicates());
    assert forall|t: int| 0 <= t < g.lists.len() implies spots_of_type(s, t) == (
    #[trigger] g.lists[t]).len() by {
        assert(full_set(g.types)[t] == g.types[t].count);
    }
    assert forall|v: int| 0 <= v < types.len() implies used_before(placed, v as usize, placed.len())
        == (#[trigger] types[v]).count by {
        let id = v as usize;
        lemma_listed(types, kerf, types.len(), id);
        lemma_assigned_count(g.lists, s, id, n);
        assert(s.take(n as int) =~= s);
        lemma_held_all(g.lists, s, id, g.lists.len());
        lemma_used_is_count(list, id, n);
        lemma_used_is_count(placed, id, n);
        let ids = ids_of(list);
        assert(ids.take(n as int) =~= ids);
        assert(ids_of(placed).take(n as int) =~= arranged(ids, order));
        lemma_arranged(ids, order);
    }
    let c = spot_cells(g.types, s);
    assert forall|i: int| 0 <= i < n implies {
        let pl = #[trigger] list[i];
        &&& pl.ptype_idx < types.len()
        &&& pl.rotated ==> types[pl.ptype_idx as int].can_rotate
        &&& grown_cell(types, kerf, pl) == c[i]
    } by {
        let t = s[i].type_idx as int;
        super::recon::lemma_rank_bound(s, i, t);
        assert(spots_of_type(s, t) == g.lists[t].len());
        let id = g.lists[t][spot_rank(s, i) as int];
        assert(list[i].ptype_idx == id);
    }
    let u = choose|u: Slicing| #[trigger]
        slicing_ok(u, strip) && c.to_multiset().subset_of(slices(u, strip));
    c.to_multiset_ensures();
    assert forall|i: int| 0 <= i < placed.len() implies {
        let pl = #[trigger] placed[i];
        &&& pl.sheet_idx == 0
        &&& pl.ptype_idx < types.len()
        &&& pl.rotated ==> types[pl.ptype_idx as int].can_rotate
        &&& within(grown_cell(types, kerf, pl), strip)
    } by {
        let k = order[i] as int;
        assert(placed[i] == list[k]);
        assert(c.contains(c[k]));
        assert(c.to_multiset().count(c[k]) <= slices(u, strip).count(c[k]));
        lemma_slices_within(u, strip, c[k]);
    }
    assert forall|i: int, j: int| 0 <= i < j < placed.len() implies apart(
        grown_cell(types, kerf, #[trigger] placed[i]),
        grown_cell(types, kerf, #[trigger] placed[j]),
    ) by {
        let (k, l) = (order[i] as int, order[j] as int);
        assert(placed[i] == list[k] && placed[j] == list[l]);
        lemma_two_of(c, k, l);
        let pair = Multiset::singleton(c[k]).add(Multiset::singleton(c[l]));
        assert forall|v: FreeRect| pair.count(v) <= slices(u, strip).count(v) by {
            assert(pair.count(v) <= c.to_multiset().count(v));
            assert(c.to_multiset().count(v) <= slices(u, strip).count(v));
        }
        lemma_slices_apart(u, strip, c[k], c[l]);
    }
    assert forall|i: int, j: int| 0 <= i < j < placed.len() implies #[trigger] (SpotOrder {
        placements: placed,
    }).leq(i, j) by {
        assert(precedes(rank, order[i] as int, order[j] as int));
        assert(placed[i] == list[order[i] as int] && placed[j] == list[order[j] as int]);
    }
}

} // verus!
