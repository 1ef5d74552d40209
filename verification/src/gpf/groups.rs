use vstd::prelude::*;

use super::table::{
    capacity, fill_table, full_set, lemma_capacity_part, lemma_total_at, long_side, reach, total,
    GpfTable, GpfType,
};
use crate::model::{Piece, PieceType, ProblemSpec};

verus! {

/// Piece types in order of first appearance, with the copies of each.
pub struct Groups {
    pub types: Seq<GpfType>,
    pub lists: Seq<Seq<usize>>,
}

/// The type has these sides and this rotation.
pub open spec fn same_kind(t: GpfType, w: u32, h: u32, can_rotate: bool) -> bool {
    t.width == w && t.height == h && t.can_rotate == can_rotate
}

/// The first type from `i` on with these sides and this rotation, or the number of types.
pub open spec fn kind_index(types: Seq<GpfType>, w: u32, h: u32, can_rotate: bool, i: int) -> int
    decreases types.len() - i,
{
    if i >= types.len() || same_kind(types[i], w, h, can_rotate) {
        i
    } else {
        kind_index(types, w, h, can_rotate, i + 1)
    }
}

/// `count` copies known as `id` are added, to their type if it is there already.
pub open spec fn with_copies(
    g: Groups,
    w: u32,
    h: u32,
    can_rotate: bool,
    count: u32,
    id: usize,
) -> Groups {
    let k = kind_index(g.types, w, h, can_rotate, 0);
    let more = Seq::new(count as nat, |i: int| id);
    if k < g.types.len() {
        Groups {
            types: g.types.update(
                k,
                GpfType { count: (g.types[k].count + count) as u32, ..g.types[k] },
            ),
            lists: g.lists.update(k, g.lists[k] + more),
        }
    } else {
        Groups {
            types: g.types.push(GpfType { width: w, height: h, count, can_rotate }),
            lists: g.lists.push(more),
        }
    }
}

/// The first `n` piece types of a statement, enlarged by the width of the saw cut.
pub open spec fn spec_groups(types: Seq<PieceType>, kerf: u32, n: nat) -> Groups
    decreases n,
{
    if n == 0 {
        Groups { types: Seq::empty(), lists: Seq::empty() }
    } else {
        let t = types[n - 1];
        with_copies(
            spec_groups(types, kerf, (n - 1) as nat),
            (t.width + kerf) as u32,
            (t.height + kerf) as u32,
            t.can_rotate,
            t.count,
            (n - 1) as usize,
        )
    }
}

/// The first `n` of the listed pieces.
pub open spec fn flat_groups(pieces: Seq<Piece>, list: Seq<usize>, n: nat) -> Groups
    decreases n,
{
    if n == 0 {
        Groups { types: Seq::empty(), lists: Seq::empty() }
    } else {
        let p = pieces[list[n - 1] as int];
        with_copies(
            flat_groups(pieces, list, (n - 1) as nat),
            p.width,
            p.height,
            p.can_rotate,
            1,
            list[n - 1],
        )
    }
}

pub open spec fn list_views(lists: Seq<Vec<usize>>) -> Seq<Seq<usize>> {
    Seq::new(lists.len(), |i: int| lists[i]@)
}

/// Every type has as many listed copies as it counts.
pub open spec fn groups_ok(g: Groups) -> bool {
    g.lists.len() == g.types.len() && forall|t: int|
        0 <= t < g.types.len() ==> (#[trigger] g.lists[t]).len() == g.types[t].count
}

pub(crate) proof fn lemma_kind_index(types: Seq<GpfType>, w: u32, h: u32, can_rotate: bool, i: int)
    requires
        0 <= i <= types.len(),
    ensures
        i <= kind_index(types, w, h, can_rotate, i) <= types.len(),
        kind_index(types, w, h, can_rotate, i) < types.len() ==> same_kind(
            types[kind_index(types, w, h, can_rotate, i)],
            w,
            h,
            can_rotate,
        ),
    decreases types.len() - i,
{
    if i < types.len() && !same_kind(types[i], w, h, can_rotate) {
        lemma_kind_index(types, w, h, can_rotate, i + 1);
    }
}

/// Adds copies to their type.
fn add_copies(
    types: &mut Vec<GpfType>,
    lists: &mut Vec<Vec<usize>>,
    w: u32,
    h: u32,
    can_rotate: bool,
    count: u32,
    id: usize,
)
    requires
        groups_ok((Groups { types: old(types)@, lists: list_views(old(lists)@) })),
        ({
            let k = kind_index(old(types)@, w, h, can_rotate, 0);
            k < old(types)@.len() ==> old(types)@[k].count + count <= u32::MAX
        }),
    ensures
        ({
            let g = with_copies(
                Groups { types: old(types)@, lists: list_views(old(lists)@) },
                w,
                h,
                can_rotate,
                count,
                id,
            );
            &&& final(types)@ == g.types
            &&& list_views(final(lists)@) == g.lists
            &&& groups_ok(g)
        }),
{
    let ghost g0 = Groups { types: types@, lists: list_views(lists@) };
    let mut k: usize = 0;
    while k < types.len() && !(types[k].width == w && types[k].height == h && types[k].can_rotate
        == can_rotate)
        invariant
            k <= types@.len(),
            types@ == g0.types,
            kind_index(types@, w, h, can_rotate, 0) == kind_index(
                types@,
                w,
                h,
                can_rotate,
                k as int,
            ),
        decreases types@.len() - k,
    {
        k += 1;
    }
    if k == types.len() {
        types.push(GpfType { width: w, height: h, count: 0, can_rotate });
        lists.push(Vec::new());
    }
    let ghost mid = list_views(lists@);
    let mut t = types[k];
    assert(lists@[k as int]@ == mid[k as int]);
    t.count = t.count + count;
    types.set(k, t);
    let mut c: u32 = 0;
    let ghost own = mid[k as int];
    let list = &mut lists[k];
    while c < count
        invariant
            c <= count,
            list@ =~= own + Seq::new(c as nat, |i: int| id),
        decreases count - c,
    {
        list.push(id);
        c += 1;
    }
    proof {
        let g = with_copies(g0, w, h, can_rotate, count, id);
        let more = Seq::new(count as nat, |i: int| id);
        assert(types@ =~= g.types);
        assert(list_views(lists@) =~= g.lists);
    }
}

/// Adding the next type of a statement keeps every count in range.
pub open spec fn counts_fit(types: Seq<PieceType>, kerf: u32) -> bool {
    forall|n: int|
        0 <= n < types.len() ==> {
            let g = #[trigger] spec_groups(types, kerf, n as nat);
            let t = types[n];
            let k = kind_index(
                g.types,
                (t.width + kerf) as u32,
                (t.height + kerf) as u32,
                t.can_rotate,
                0,
            );
            k < g.types.len() ==> g.types[k].count + t.count <= u32::MAX
        }
}

/// Builds the table of a statement. Sides are enlarged by the width of the saw cut; types of
/// the same size and rotation are merged in order of first appearance.
pub fn build_gpf(spec: &ProblemSpec) -> (r: GpfTable)
    requires
        forall|t: int|
            0 <= t < spec.piece_types@.len() ==> (#[trigger] spec.piece_types@[t]).width + spec.kerf
                <= u32::MAX && spec.piece_types@[t].height + spec.kerf <= u32::MAX,
        counts_fit(spec.piece_types@, spec.kerf),
        ({
            let g = spec_groups(spec.piece_types@, spec.kerf, spec.piece_types@.len());
            &&& capacity(full_set(g.types)) <= usize::MAX
            &&& reach(g.types, full_set(g.types)) <= u32::MAX
        }),
    ensures
        r.wf(),
        r.types@ == spec_groups(spec.piece_types@, spec.kerf, spec.piece_types@.len()).types,
        list_views(r.type_to_spec@) == spec_groups(
            spec.piece_types@,
            spec.kerf,
            spec.piece_types@.len(),
        ).lists,
{
    let k: u32 = spec.kerf;
    let mut types: Vec<GpfType> = Vec::new();
    let mut lists: Vec<Vec<usize>> = Vec::new();
    let mut i: usize = 0;
    assert(types@ =~= spec_groups(spec.piece_types@, k, 0).types);
    assert(list_views(lists@) =~= spec_groups(spec.piece_types@, k, 0).lists);
    while i < spec.piece_types.len()
        invariant
            i <= spec.piece_types@.len(),
            k == spec.kerf,
            forall|t: int|
                0 <= t < spec.piece_types@.len() ==> (#[trigger] spec.piece_types@[t]).width
                    + spec.kerf <= u32::MAX && spec.piece_types@[t].height + spec.kerf <= u32::MAX,
            counts_fit(spec.piece_types@, k),
            types@ == spec_groups(spec.piece_types@, k, i as nat).types,
            list_views(lists@) == spec_groups(spec.piece_types@, k, i as nat).lists,
            groups_ok(spec_groups(spec.piece_types@, k, i as nat)),
        decreases spec.piece_types@.len() - i,
    {
        let t = &spec.piece_types[i];
        let ghost g = spec_groups(spec.piece_types@, k, i as nat);
        assert(g == (Groups { types: types@, lists: list_views(lists@) }));
        let ghost n = i as int;
        assert(spec_groups(spec.piece_types@, k, n as nat) == g);
        add_copies(&mut types, &mut lists, t.width + k, t.height + k, t.can_rotate, t.count, i);
        i += 1;
    }
    proof {
        let g = spec_groups(spec.piece_types@, k, i as nat);
        assert forall|t: int| 0 <= t < types@.len() implies (#[trigger] lists@[t])@.len()
            == types@[t].count by {
            assert(g.lists[t] == lists@[t]@);
        }
    }
    fill_table(types, lists)
}

proof fn lemma_flat_counts(pieces: Seq<Piece>, list: Seq<usize>, n: nat)
    requires
        n <= list.len() <= u32::MAX,
    ensures
        groups_ok(flat_groups(pieces, list, n)),
        forall|t: int|
            0 <= t < flat_groups(pieces, list, n).types.len() ==> (#[trigger] flat_groups(
                pieces,
                list,
                n,
            ).types[t]).count <= n,
    decreases n,
{
    if n > 0 {
        let m = (n - 1) as nat;
        lemma_flat_counts(pieces, list, m);
        let p = pieces[list[n - 1] as int];
        let g = flat_groups(pieces, list, m);
        let h = flat_groups(pieces, list, n);
        lemma_kind_index(g.types, p.width, p.height, p.can_rotate, 0);
        assert forall|t: int| 0 <= t < h.types.len() implies (#[trigger] h.types[t]).count <= n
            && h.lists[t].len() == h.types[t].count by {
            if t < g.types.len() {
                assert(g.types[t].count <= m);
                assert(g.lists[t].len() == g.types[t].count);
            }
        }
    }
}

/// The types of the listed pieces with the pieces of each, in order of first appearance.
fn group_flat(pieces: &Vec<Piece>, list: &[usize]) -> (r: (Vec<GpfType>, Vec<Vec<usize>>))
    requires
        forall|i: int| 0 <= i < list@.len() ==> #[trigger] list@[i] < pieces@.len(),
        list@.len() <= u32::MAX,
    ensures
        r.0@ == flat_groups(pieces@, list@, list@.len()).types,
        list_views(r.1@) == flat_groups(pieces@, list@, list@.len()).lists,
        groups_ok(flat_groups(pieces@, list@, list@.len())),
{
    let mut types: Vec<GpfType> = Vec::new();
    let mut lists: Vec<Vec<usize>> = Vec::new();
    let mut i: usize = 0;
    assert(types@ =~= flat_groups(pieces@, list@, 0).types);
    assert(list_views(lists@) =~= flat_groups(pieces@, list@, 0).lists);
    while i < list.len()
        invariant
            i <= list@.len(),
            list@.len() <= u32::MAX,
            forall|j: int| 0 <= j < list@.len() ==> #[trigger] list@[j] < pieces@.len(),
            types@ == flat_groups(pieces@, list@, i as nat).types,
            list_views(lists@) == flat_groups(pieces@, list@, i as nat).lists,
            groups_ok(flat_groups(pieces@, list@, i as nat)),
        decreases list@.len() - i,
    {
        let p = &pieces[list[i]];
        let ghost g = flat_groups(pieces@, list@, i as nat);
        proof {
            lemma_flat_counts(pieces@, list@, i as nat);
            assert(g == (Groups { types: types@, lists: list_views(lists@) }));
            let k = kind_index(g.types, p.width, p.height, p.can_rotate, 0);
            lemma_kind_index(g.types, p.width, p.height, p.can_rotate, 0);
            if k < g.types.len() {
                assert(g.types[k].count <= i);
            }
        }
        add_copies(&mut types, &mut lists, p.width, p.height, p.can_rotate, 1, list[i]);
        i += 1;
    }
    (types, lists)
}

/// The types of the listed pieces.
pub open spec fn flat_types(pieces: Seq<Piece>, list: Seq<usize>) -> Seq<GpfType> {
    flat_groups(pieces, list, list.len()).types
}

/// The number of subsets of the listed pieces, copies of one type alike.
pub open spec fn flat_capacity(pieces: Seq<Piece>, list: Seq<usize>) -> nat {
    capacity(full_set(flat_types(pieces, list)))
}

/// Builds the table of the listed pieces.
pub fn build_glf_from_flat(pieces: &Vec<Piece>, list: &[usize]) -> (r: GpfTable)
    requires
        forall|i: int| 0 <= i < list@.len() ==> #[trigger] list@[i] < pieces@.len(),
        list@.len() <= u32::MAX,
        flat_capacity(pieces@, list@) <= usize::MAX,
        reach(flat_types(pieces@, list@), full_set(flat_types(pieces@, list@))) <= u32::MAX,
    ensures
        r.wf(),
        r.types@ == flat_types(pieces@, list@),
        list_views(r.type_to_spec@) == flat_groups(pieces@, list@, list@.len()).lists,
{
    let (types, lists) = group_flat(pieces, list);
    proof {
        let g = flat_groups(pieces@, list@, list@.len());
        assert forall|t: int| 0 <= t < types@.len() implies (#[trigger] lists@[t])@.len()
            == types@[t].count by {
            assert(g.lists[t] == lists@[t]@);
        }
    }
    fill_table(types, lists)
}

/// The size of the table of the listed pieces, or the greatest machine integer where it is
/// larger.
pub fn estimate_table_size(pieces: &Vec<Piece>, list: &[usize]) -> (r: usize)
    requires
        forall|i: int| 0 <= i < list@.len() ==> #[trigger] list@[i] < pieces@.len(),
        list@.len() <= u32::MAX,
    ensures
        flat_capacity(pieces@, list@) <= usize::MAX ==> r == flat_capacity(pieces@, list@),
        flat_capacity(pieces@, list@) > usize::MAX ==> r == usize::MAX,
{
    let (types, _) = group_flat(pieces, list);
    let ghost full = full_set(types@);
    let mut acc: usize = 1;
    let mut big = false;
    let mut k: usize = types.len();
    assert(full.skip(k as int) =~= Seq::empty());
    while k > 0
        invariant
            k <= types@.len(),
            full == full_set(types@),
            acc >= 1,
            !big ==> acc == capacity(full.skip(k as int)),
            big ==> capacity(full.skip(k as int)) > usize::MAX && acc == usize::MAX,
        decreases k,
    {
        let i: usize = k - 1;
        let count: u32 = types[i].count;
        proof {
            let a = full.skip(i as int);
            assert(a.drop_first() =~= full.skip(k as int));
            assert(a[0] == count);
            let (x, y) = (count + 1, capacity(full.skip(k as int)) as int);
            assert(x * y >= y) by (nonlinear_arith)
                requires
                    x >= 1,
                    y >= 0,
            ;
        }
        assert(0 <= acc * (count + 1) <= 0xffff_ffff_ffff_ffff * 0x1_0000_0000) by (nonlinear_arith)
            requires
                0 <= acc <= 0xffff_ffff_ffff_ffff,
                0 <= count <= 0xffff_ffff,
        ;
        let times: u128 = acc as u128 * (count as u128 + 1);
        assert(acc * (count + 1) == (count + 1) * acc) by (nonlinear_arith);
        if big || times > usize::MAX as u128 {
            big = true;
            acc = usize::MAX;
        } else {
            acc = times as usize;
            assert((count + 1) * acc >= 0) by (nonlinear_arith)
                requires
                    count >= 0,
                    acc >= 0,
            ;
            proof {
                super::table::lemma_capacity_pos(full.skip(i as int));
            }
        }
        k = i;
    }
    assert(full.skip(0) =~= full);
    acc
}

/// The longer sides of the first `n` listed pieces, added up.
pub open spec fn flat_sides(pieces: Seq<Piece>, list: Seq<usize>, n: nat) -> int
    decreases n,
{
    if n == 0 {
        0
    } else {
        flat_sides(pieces, list, (n - 1) as nat) + longer(pieces[list[n - 1] as int])
    }
}

/// The longer side of a piece.
pub open spec fn longer(p: Piece) -> int {
    if p.width >= p.height {
        p.width as int
    } else {
        p.height as int
    }
}

proof fn lemma_reach_update(types: Seq<GpfType>, k: int, t: GpfType)
    requires
        0 <= k < types.len(),
        t.width == types[k].width,
        t.height == types[k].height,
        t.count == types[k].count + 1,
    ensures
        reach(types.update(k, t), full_set(types.update(k, t))) == reach(types, full_set(types))
            + long_side(t),
    decreases types.len(),
{
    let u = types.update(k, t);
    let (a, b) = (full_set(types), full_set(u));
    let d = types.drop_last();
    assert(a.drop_last() =~= full_set(d));
    if k == types.len() - 1 {
        assert(u.drop_last() =~= d);
        assert(b.drop_last() =~= full_set(d));
        let (s, n) = (long_side(t), types[k].count as int);
        assert((n + 1) * s == n * s + s) by (nonlinear_arith);
    } else {
        lemma_reach_update(d, k, t);
        assert(u.drop_last() =~= d.update(k, t));
        assert(b.drop_last() =~= full_set(d.update(k, t)));
    }
}

/// The reach of the listed pieces.
pub proof fn lemma_flat_reach(pieces: Seq<Piece>, list: Seq<usize>, n: nat)
    requires
        n <= list.len() <= u32::MAX,
    ensures
        reach(
            flat_groups(pieces, list, n).types,
            full_set(flat_groups(pieces, list, n).types),
        ) == flat_sides(pieces, list, n),
        flat_sides(pieces, list, n) >= 0,
    decreases n,
{
    if n > 0 {
        let m = (n - 1) as nat;
        lemma_flat_reach(pieces, list, m);
        lemma_flat_counts(pieces, list, m);
        let g = flat_groups(pieces, list, m);
        let h = flat_groups(pieces, list, n);
        let p = pieces[list[n - 1] as int];
        let k = kind_index(g.types, p.width, p.height, p.can_rotate, 0);
        lemma_kind_index(g.types, p.width, p.height, p.can_rotate, 0);
        if k < g.types.len() {
            lemma_kind_same(g.types, p.width, p.height, p.can_rotate, 0);
            assert(g.types[k].count <= m);
            lemma_reach_update(
                g.types,
                k,
                GpfType { count: (g.types[k].count + 1) as u32, ..g.types[k] },
            );
        } else {
            assert(h.types.drop_last() =~= g.types);
            assert(full_set(h.types).drop_last() =~= full_set(g.types));
            assert(1 * long_side(h.types.last()) == long_side(h.types.last()));
        }
    }
}

proof fn lemma_kind_same(types: Seq<GpfType>, w: u32, h: u32, can_rotate: bool, i: int)
    requires
        0 <= i,
        kind_index(types, w, h, can_rotate, i) < types.len(),
    ensures
        same_kind(types[kind_index(types, w, h, can_rotate, i)], w, h, can_rotate),
    decreases types.len() - i,
{
    if i < types.len() && !same_kind(types[i], w, h, can_rotate) {
        lemma_kind_same(types, w, h, can_rotate, i + 1);
    }
}

proof fn lemma_capacity_push(c: Seq<nat>, v: nat)
    ensures
        capacity(c.push(v)) >= capacity(c),
    decreases c.len(),
{
    let d = c.push(v);
    if c.len() == 0 {
        assert(d.drop_first() =~= Seq::empty());
        let one = capacity(d.drop_first());
        assert((v + 1) * one >= 1) by (nonlinear_arith)
            requires
                one == 1,
                v >= 0,
        ;
    } else {
        lemma_capacity_push(c.drop_first(), v);
        assert(d.drop_first() =~= c.drop_first().push(v));
        let (a, x, y) = (c[0] + 1, capacity(c.drop_first()), capacity(d.drop_first()));
        assert(a * x <= a * y) by (nonlinear_arith)
            requires
                x <= y,
                a >= 0,
        ;
    }
}

/// More pieces have no fewer subsets.
pub proof fn lemma_capacity_grows(pieces: Seq<Piece>, list: Seq<usize>, j: nat, k: nat)
    requires
        j <= k <= list.len() <= u32::MAX,
    ensures
        capacity(full_set(flat_groups(pieces, list, j).types)) <= capacity(
            full_set(flat_groups(pieces, list, k).types),
        ),
    decreases k,
{
    if j < k {
        let m = (k - 1) as nat;
        lemma_capacity_grows(pieces, list, j, m);
        lemma_flat_counts(pieces, list, m);
        let g = flat_groups(pieces, list, m);
        let h = flat_groups(pieces, list, k);
        let p = pieces[list[k - 1] as int];
        let i = kind_index(g.types, p.width, p.height, p.can_rotate, 0);
        lemma_kind_index(g.types, p.width, p.height, p.can_rotate, 0);
        let (a, b) = (full_set(g.types), full_set(h.types));
        if i < g.types.len() {
            assert(g.types[i].count <= m);
            assert forall|q: int| 0 <= q < b.len() implies #[trigger] a[q] <= b[q] by {}
            lemma_capacity_part(a, b);
        } else {
            lemma_capacity_push(a, 1);
            assert(b =~= a.push(1));
        }
    }
}

/// Groups depend on the listed pieces only.
pub proof fn lemma_flat_prefix(pieces: Seq<Piece>, a: Seq<usize>, b: Seq<usize>, n: nat)
    requires
        n <= a.len(),
        n <= b.len(),
        forall|i: int| 0 <= i < n ==> a[i] == b[i],
    ensures
        flat_groups(pieces, a, n) == flat_groups(pieces, b, n),
        flat_sides(pieces, a, n) == flat_sides(pieces, b, n),
    decreases n,
{
    if n > 0 {
        lemma_flat_prefix(pieces, a, b, (n - 1) as nat);
    }
}

pub proof fn lemma_total_update(c: Seq<nat>, k: int, v: nat)
    requires
        0 <= k < c.len(),
    ensures
        total(c.update(k, v)) + c[k] == total(c) + v,
{
    lemma_total_at(c, k);
    lemma_total_at(c.update(k, v), k);
    assert(c.update(k, v).update(k, 0) =~= c.update(k, 0));
}

/// The types count as many pieces as are listed.
pub proof fn lemma_flat_total(pieces: Seq<Piece>, list: Seq<usize>, n: nat)
    requires
        n <= list.len() <= u32::MAX,
    ensures
        total(full_set(flat_groups(pieces, list, n).types)) == n,
    decreases n,
{
    if n > 0 {
        let m = (n - 1) as nat;
        lemma_flat_total(pieces, list, m);
        lemma_flat_counts(pieces, list, m);
        let g = flat_groups(pieces, list, m);
        let h = flat_groups(pieces, list, n);
        let p = pieces[list[n - 1] as int];
        let i = kind_index(g.types, p.width, p.height, p.can_rotate, 0);
        lemma_kind_index(g.types, p.width, p.height, p.can_rotate, 0);
        let (a, b) = (full_set(g.types), full_set(h.types));
        if i < g.types.len() {
            assert(g.types[i].count <= m);
            assert(b =~= a.update(i, a[i] + 1));
            lemma_total_update(a, i, a[i] + 1);
        } else {
            assert(b.drop_last() =~= a);
        }
    }
}

/// The copies of a type are listed pieces of its size.
pub open spec fn lists_match(pieces: Seq<Piece>, list: Seq<usize>, g: Groups) -> bool {
    forall|t: int, i: int|
        0 <= t < g.lists.len() && 0 <= i < g.lists[t].len() ==> {
            let id = #[trigger] g.lists[t][i];
            &&& list.contains(id)
            &&& pieces[id as int].width == g.types[t].width
            &&& pieces[id as int].height == g.types[t].height
            &&& pieces[id as int].can_rotate == g.types[t].can_rotate
        }
}

pub proof fn lemma_flat_lists(pieces: Seq<Piece>, list: Seq<usize>, n: nat)
    requires
        n <= list.len() <= u32::MAX,
    ensures
        lists_match(pieces, list.take(n as int), flat_groups(pieces, list, n)),
    decreases n,
{
    if n > 0 {
        let m = (n - 1) as nat;
        lemma_flat_lists(pieces, list, m);
        lemma_flat_counts(pieces, list, m);
        let g = flat_groups(pieces, list, m);
        let h = flat_groups(pieces, list, n);
        let p = pieces[list[n - 1] as int];
        let k = kind_index(g.types, p.width, p.height, p.can_rotate, 0);
        lemma_kind_index(g.types, p.width, p.height, p.can_rotate, 0);
        if k < g.types.len() {
            lemma_kind_same(g.types, p.width, p.height, p.can_rotate, 0);
        }
        let (a, b) = (list.take(m as int), list.take(n as int));
        assert forall|v: usize| #[trigger] a.contains(v) implies b.contains(v) by {
            let i = choose|i: int| 0 <= i < a.len() && a[i] == v;
            assert(b[i] == v);
        }
        assert(b[n - 1] == list[n - 1]);
        assert(b.contains(list[n - 1]));
        assert forall|t: int, i: int| 0 <= t < h.lists.len() && 0 <= i < h.lists[t].len() implies {
            let id = #[trigger] h.lists[t][i];
            &&& b.contains(id)
            &&& pieces[id as int].width == h.types[t].width
            &&& pieces[id as int].height == h.types[t].height
            &&& pieces[id as int].can_rotate == h.types[t].can_rotate
        } by {
            if t < g.lists.len() && i < g.lists[t].len() {
                assert(h.lists[t][i] == g.lists[t][i]);
                assert(a.contains(g.lists[t][i]));
            } else {
                assert(h.lists[t][i] == list[n - 1]);
            }
        }
    }
}

} // verus!
