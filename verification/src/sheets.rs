//! Layouts of some sheets put behind those of others.

use vstd::prelude::*;

use crate::layout::{
    bottom_part, forest_ok, forest_slices, left_part, packed, right_part, slices, slicing_ok,
    top_part, Slicing,
};
use crate::model::{sheet_cell, FreeRect, Sheet};

verus! {

/// The rectangle `k` sheets further on.
pub open spec fn moved(r: FreeRect, k: int) -> FreeRect {
    FreeRect { sheet_idx: (r.sheet_idx + k) as usize, ..r }
}

/// All rectangles `k` sheets further on.
pub open spec fn all_moved(list: Seq<FreeRect>, k: int) -> Seq<FreeRect> {
    Seq::new(list.len(), |i: int| moved(list[i], k))
}

/// A sheet is cut further on as it is here.
proof fn lemma_slices_moved(t: Slicing, c: FreeRect, k: int, v: FreeRect)
    requires
        0 <= k,
        c.sheet_idx + k <= usize::MAX,
        v.sheet_idx + k <= usize::MAX,
        slicing_ok(t, c),
    ensures
        slicing_ok(t, moved(c, k)),
        slices(t, moved(c, k)).count(moved(v, k)) == slices(t, c).count(v),
    decreases t,
{
    match t {
        Slicing::Whole => {
            if moved(c, k) == moved(v, k) {
                assert(c.sheet_idx == v.sheet_idx);
                assert(c == v);
            }
        },
        Slicing::Stacked { at, top, bottom } => {
            assert(top_part(moved(c, k), at) == moved(top_part(c, at), k));
            assert(bottom_part(moved(c, k), at) == moved(bottom_part(c, at), k));
            lemma_slices_moved(*top, top_part(c, at), k, v);
            lemma_slices_moved(*bottom, bottom_part(c, at), k, v);
        },
        Slicing::Beside { at, left, right } => {
            assert(left_part(moved(c, k), at) == moved(left_part(c, at), k));
            assert(right_part(moved(c, k), at) == moved(right_part(c, at), k));
            lemma_slices_moved(*left, left_part(c, at), k, v);
            lemma_slices_moved(*right, right_part(c, at), k, v);
        },
    }
}

/// The sheets of one cutting behind those of another.
proof fn lemma_forest_concat(f: Seq<Slicing>, g: Seq<Slicing>, sheet: Sheet, v: FreeRect)
    requires
        forest_ok(f, sheet),
        forest_ok(g, sheet),
        f.len() + g.len() <= usize::MAX + 1,
    ensures
        forest_ok(f + g, sheet),
        forest_slices(f + g, sheet).count(v) >= forest_slices(f, sheet).count(v),
        v.sheet_idx >= f.len() ==> forest_slices(f + g, sheet).count(v) == forest_slices(
            f,
            sheet,
        ).count(v) + forest_slices(g, sheet).count(
            FreeRect { sheet_idx: (v.sheet_idx - f.len()) as usize, ..v },
        ),
    decreases g.len(),
{
    let n = f.len() as int;
    if g.len() == 0 {
        assert(f + g =~= f);
    } else {
        let h = g.drop_last();
        assert forall|s: int| 0 <= s < h.len() implies slicing_ok(
            #[trigger] h[s],
            sheet_cell(sheet, s),
        ) by {
            assert(h[s] == g[s]);
        }
        lemma_forest_concat(f, h, sheet, v);
        let k = g.len() - 1;
        let all = f + g;
        assert(all.drop_last() =~= f + h);
        assert(all.last() == g.last());
        let here = sheet_cell(sheet, k);
        let there = sheet_cell(sheet, n + k);
        assert(there == moved(here, n));
        assert(slicing_ok(g[k], here));
        let w = FreeRect { sheet_idx: (v.sheet_idx - n) as usize, ..v };
        lemma_slices_moved(g.last(), here, n, here);
        if v.sheet_idx >= n {
            assert(moved(w, n) == v);
            lemma_slices_moved(g.last(), here, n, w);
        }
        assert forall|s: int| 0 <= s < all.len() implies slicing_ok(
            #[trigger] all[s],
            sheet_cell(sheet, s),
        ) by {
            if s < n + k {
                assert(slicing_ok((f + h)[s], sheet_cell(sheet, s)));
                assert((f + h)[s] == all[s]);
            }
        }
    }
}

proof fn lemma_moved_count(list: Seq<FreeRect>, k: int, v: FreeRect)
    requires
        0 <= k,
        forall|i: int| 0 <= i < list.len() ==> (#[trigger] list[i]).sheet_idx + k <= usize::MAX,
    ensures
        v.sheet_idx < k ==> all_moved(list, k).to_multiset().count(v) == 0,
        v.sheet_idx >= k ==> all_moved(list, k).to_multiset().count(v) == list.to_multiset().count(
            FreeRect { sheet_idx: (v.sheet_idx - k) as usize, ..v },
        ),
    decreases list.len(),
{
    let w = FreeRect { sheet_idx: (v.sheet_idx - k) as usize, ..v };
    let m = all_moved(list, k);
    if list.len() == 0 {
        m.to_multiset_ensures();
        list.to_multiset_ensures();
        assert(m.to_multiset().count(v) == 0) by {
            assert(!m.contains(v));
        }
        assert(list.to_multiset().count(w) == 0) by {
            assert(!list.contains(w));
        }
    } else {
        let d = list.drop_last();
        assert forall|i: int| 0 <= i < d.len() implies (#[trigger] d[i]).sheet_idx + k
            <= usize::MAX by {
            assert(d[i] == list[i]);
        }
        lemma_moved_count(d, k, v);
        let md = all_moved(d, k);
        let last = list.last();
        assert(list[list.len() - 1].sheet_idx + k <= usize::MAX);
        assert(list =~= d.push(last));
        assert(m =~= md.push(moved(last, k)));
        d.to_multiset_ensures();
        md.to_multiset_ensures();
        if v.sheet_idx >= k {
            assert(moved(w, k) == v);
            if moved(last, k) == v {
                assert(last == w);
            }
        }
    }
}

/// Rectangles of `a` on `m` sheets and those of `b` on `n` sheets behind them.
pub proof fn lemma_packed_concat(
    sheet: Sheet,
    m: nat,
    a: Seq<FreeRect>,
    n: nat,
    b: Seq<FreeRect>,
)
    requires
        packed(sheet, m, a.to_multiset()),
        packed(sheet, n, b.to_multiset()),
        m + n <= usize::MAX,
    ensures
        packed(sheet, m + n, (a + all_moved(b, m as int)).to_multiset()),
{
    let f = choose|f: Seq<Slicing>|
        {
            &&& f.len() == m
            &&& m <= usize::MAX + 1
            &&& #[trigger] forest_ok(f, sheet)
            &&& a.to_multiset().subset_of(forest_slices(f, sheet))
        };
    let g = choose|g: Seq<Slicing>|
        {
            &&& g.len() == n
            &&& n <= usize::MAX + 1
            &&& #[trigger] forest_ok(g, sheet)
            &&& b.to_multiset().subset_of(forest_slices(g, sheet))
        };
    let k = m as int;
    let c = all_moved(b, k);
    b.to_multiset_ensures();
    assert forall|i: int| 0 <= i < b.len() implies (#[trigger] b[i]).sheet_idx + k
        <= usize::MAX by {
        assert(b.to_multiset().count(b[i]) > 0);
        assert(forest_slices(g, sheet).count(b[i]) > 0);
        crate::layout::lemma_forest_slice(g, sheet, b[i]);
    }
    vstd::seq_lib::lemma_multiset_commutative(a, c);
    lemma_forest_concat(f, g, sheet, sheet_cell(sheet, 0));
    assert forall|v: FreeRect| (a + c).to_multiset().count(v) <= forest_slices(
        f + g,
        sheet,
    ).count(v) by {
        lemma_forest_concat(f, g, sheet, v);
        lemma_moved_count(b, k, v);
        assert(a.to_multiset().count(v) <= forest_slices(f, sheet).count(v));
        if v.sheet_idx >= k {
            let w = FreeRect { sheet_idx: (v.sheet_idx - k) as usize, ..v };
            assert(b.to_multiset().count(w) <= forest_slices(g, sheet).count(w));
        }
    }
    assert(forest_ok(f + g, sheet));
}

/// What is cut from a sheet is among the slices of all sheets.
proof fn lemma_forest_has(f: Seq<Slicing>, sheet: Sheet, s: int, v: FreeRect)
    requires
        0 <= s < f.len(),
    ensures
        forest_slices(f, sheet).count(v) >= slices(f[s], sheet_cell(sheet, s)).count(v),
    decreases f.len(),
{
    if s < f.len() - 1 {
        lemma_forest_has(f.drop_last(), sheet, s, v);
        assert(f.drop_last()[s] == f[s]);
    }
}

/// Rectangles that lie on the first `m` sheets need no others.
pub proof fn lemma_packed_resize(sheet: Sheet, n: nat, list: Seq<FreeRect>, m: nat)
    requires
        packed(sheet, n, list.to_multiset()),
        m <= usize::MAX,
        forall|i: int| 0 <= i < list.len() ==> (#[trigger] list[i]).sheet_idx < m,
    ensures
        packed(sheet, m, list.to_multiset()),
{
    let f = choose|f: Seq<Slicing>|
        {
            &&& f.len() == n
            &&& n <= usize::MAX + 1
            &&& #[trigger] forest_ok(f, sheet)
            &&& list.to_multiset().subset_of(forest_slices(f, sheet))
        };
    let g = Seq::new(
        m,
        |s: int|
            if s < n {
                f[s]
            } else {
                Slicing::Whole
            },
    );
    assert forall|s: int| 0 <= s < g.len() implies slicing_ok(
        #[trigger] g[s],
        sheet_cell(sheet, s),
    ) by {
        if s < n {
            assert(slicing_ok(f[s], sheet_cell(sheet, s)));
        }
    }
    list.to_multiset_ensures();
    assert forall|v: FreeRect| list.to_multiset().count(v) <= forest_slices(g, sheet).count(v) by {
        if list.to_multiset().count(v) > 0 {
            assert(list.contains(v));
            let i = choose|i: int| 0 <= i < list.len() && list[i] == v;
            let s = v.sheet_idx as int;
            assert(s < m);
            assert(list.to_multiset().count(v) <= forest_slices(f, sheet).count(v));
            crate::layout::lemma_forest_slice(f, sheet, v);
            lemma_forest_has(g, sheet, s, v);
        }
    }
    assert(forest_ok(g, sheet));
}

} // verus!
