//! How a sheet is divided by edge-to-edge cuts, and what every such division keeps.

use vstd::multiset::Multiset;
use vstd::prelude::*;

use crate::model::{sheet_cell, FreeRect, Sheet};

verus! {

/// A way of cutting one rectangle: not at all, or by one edge-to-edge cut at the
/// offset `at` from its top or left side, with each half cut further.
pub enum Slicing {
    Whole,
    Stacked { at: u32, top: Box<Slicing>, bottom: Box<Slicing> },
    Beside { at: u32, left: Box<Slicing>, right: Box<Slicing> },
}

pub open spec fn top_part(c: FreeRect, at: u32) -> FreeRect {
    FreeRect { h: at, ..c }
}

pub open spec fn bottom_part(c: FreeRect, at: u32) -> FreeRect {
    FreeRect { y: (c.y + at) as u32, h: (c.h - at) as u32, ..c }
}

pub open spec fn left_part(c: FreeRect, at: u32) -> FreeRect {
    FreeRect { w: at, ..c }
}

pub open spec fn right_part(c: FreeRect, at: u32) -> FreeRect {
    FreeRect { x: (c.x + at) as u32, w: (c.w - at) as u32, ..c }
}

/// The coordinates of every corner of `c` are representable.
pub open spec fn bounded(c: FreeRect) -> bool {
    c.right() <= u32::MAX && c.bottom() <= u32::MAX
}

/// Every cut of `t` lies on the rectangle that it cuts.
pub open spec fn slicing_ok(t: Slicing, c: FreeRect) -> bool
    decreases t,
{
    match t {
        Slicing::Whole => true,
        Slicing::Stacked { at, top, bottom } => at <= c.h && slicing_ok(*top, top_part(c, at))
            && slicing_ok(*bottom, bottom_part(c, at)),
        Slicing::Beside { at, left, right } => at <= c.w && slicing_ok(*left, left_part(c, at))
            && slicing_ok(*right, right_part(c, at)),
    }
}

/// The rectangles that cutting `c` by `t` leaves.
pub open spec fn slices(t: Slicing, c: FreeRect) -> Multiset<FreeRect>
    decreases t,
{
    match t {
        Slicing::Whole => Multiset::singleton(c),
        Slicing::Stacked { at, top, bottom } => slices(*top, top_part(c, at)).add(
            slices(*bottom, bottom_part(c, at)),
        ),
        Slicing::Beside { at, left, right } => slices(*left, left_part(c, at)).add(
            slices(*right, right_part(c, at)),
        ),
    }
}

/// `a` lies in `b`, on the same sheet.
pub open spec fn within(a: FreeRect, b: FreeRect) -> bool {
    a.sheet_idx == b.sheet_idx && b.x <= a.x && b.y <= a.y && a.right() <= b.right() && a.bottom()
        <= b.bottom()
}

/// `a` and `b` share no inner point.
pub open spec fn apart(a: FreeRect, b: FreeRect) -> bool {
    a.sheet_idx != b.sheet_idx || a.right() <= b.x || b.right() <= a.x || a.bottom() <= b.y
        || b.bottom() <= a.y
}

/// Every slice lies in the rectangle that was cut.
pub proof fn lemma_slices_within(t: Slicing, c: FreeRect, a: FreeRect)
    requires
        slicing_ok(t, c),
        bounded(c),
        slices(t, c).count(a) > 0,
    ensures
        within(a, c),
    decreases t,
{
    match t {
        Slicing::Whole => {},
        Slicing::Stacked { at, top, bottom } => {
            if slices(*top, top_part(c, at)).count(a) > 0 {
                lemma_slices_within(*top, top_part(c, at), a);
            } else {
                lemma_slices_within(*bottom, bottom_part(c, at), a);
            }
        },
        Slicing::Beside { at, left, right } => {
            if slices(*left, left_part(c, at)).count(a) > 0 {
                lemma_slices_within(*left, left_part(c, at), a);
            } else {
                lemma_slices_within(*right, right_part(c, at), a);
            }
        },
    }
}

/// Two slices share no inner point; a slice that occurs twice has no inner point.
pub proof fn lemma_slices_apart(t: Slicing, c: FreeRect, a: FreeRect, b: FreeRect)
    requires
        slicing_ok(t, c),
        bounded(c),
        Multiset::singleton(a).add(Multiset::singleton(b)).subset_of(slices(t, c)),
    ensures
        apart(a, b),
    decreases t,
{
    let pair = Multiset::singleton(a).add(Multiset::singleton(b));
    assert(pair.count(a) >= 1 && pair.count(b) >= 1);
    assert(slices(t, c).count(a) >= pair.count(a));
    assert(slices(t, c).count(b) >= pair.count(b));
    match t {
        Slicing::Whole => {
            assert(a == c && b == c);
            assert(pair.count(c) == 2);
            assert(false);
        },
        Slicing::Stacked { at, top, bottom } => {
            let s = slices(*top, top_part(c, at));
            let u = slices(*bottom, bottom_part(c, at));
            if pair.subset_of(s) {
                lemma_slices_apart(*top, top_part(c, at), a, b);
            } else if pair.subset_of(u) {
                lemma_slices_apart(*bottom, bottom_part(c, at), a, b);
            } else {
                lemma_pair_split(a, b, s, u);
                if s.count(a) > 0 && u.count(b) > 0 {
                    lemma_slices_within(*top, top_part(c, at), a);
                    lemma_slices_within(*bottom, bottom_part(c, at), b);
                } else {
                    lemma_slices_within(*top, top_part(c, at), b);
                    lemma_slices_within(*bottom, bottom_part(c, at), a);
                }
            }
        },
        Slicing::Beside { at, left, right } => {
            let s = slices(*left, left_part(c, at));
            let u = slices(*right, right_part(c, at));
            if pair.subset_of(s) {
                lemma_slices_apart(*left, left_part(c, at), a, b);
            } else if pair.subset_of(u) {
                lemma_slices_apart(*right, right_part(c, at), a, b);
            } else {
                lemma_pair_split(a, b, s, u);
                if s.count(a) > 0 && u.count(b) > 0 {
                    lemma_slices_within(*left, left_part(c, at), a);
                    lemma_slices_within(*right, right_part(c, at), b);
                } else {
                    lemma_slices_within(*left, left_part(c, at), b);
                    lemma_slices_within(*right, right_part(c, at), a);
                }
            }
        },
    }
}

proof fn lemma_pair_split(a: FreeRect, b: FreeRect, s: Multiset<FreeRect>, u: Multiset<FreeRect>)
    requires
        Multiset::singleton(a).add(Multiset::singleton(b)).subset_of(s.add(u)),
        !Multiset::singleton(a).add(Multiset::singleton(b)).subset_of(s),
        !Multiset::singleton(a).add(Multiset::singleton(b)).subset_of(u),
    ensures
        (s.count(a) > 0 && u.count(b) > 0) || (s.count(b) > 0 && u.count(a) > 0),
{
    let pair = Multiset::singleton(a).add(Multiset::singleton(b));
    assert(s.add(u).count(a) >= pair.count(a));
    assert(s.add(u).count(b) >= pair.count(b));
    let v = choose|v: FreeRect| pair.count(v) > s.count(v);
    let w = choose|w: FreeRect| pair.count(w) > u.count(w);
    assert(pair.count(v) > s.count(v));
    assert(pair.count(w) > u.count(w));
}

/// Cutting one slice further, by `u`.
pub proof fn lemma_refine(t: Slicing, c: FreeRect, leaf: FreeRect, u: Slicing) -> (t2: Slicing)
    requires
        slicing_ok(t, c),
        slices(t, c).count(leaf) > 0,
        slicing_ok(u, leaf),
    ensures
        slicing_ok(t2, c),
        slices(t2, c) =~= slices(t, c).remove(leaf).add(slices(u, leaf)),
    decreases t,
{
    match t {
        Slicing::Whole => {
            assert(leaf == c);
            u
        },
        Slicing::Stacked { at, top, bottom } => {
            if slices(*top, top_part(c, at)).count(leaf) > 0 {
                let n = lemma_refine(*top, top_part(c, at), leaf, u);
                Slicing::Stacked { at, top: Box::new(n), bottom }
            } else {
                let n = lemma_refine(*bottom, bottom_part(c, at), leaf, u);
                Slicing::Stacked { at, top, bottom: Box::new(n) }
            }
        },
        Slicing::Beside { at, left, right } => {
            if slices(*left, left_part(c, at)).count(leaf) > 0 {
                let n = lemma_refine(*left, left_part(c, at), leaf, u);
                Slicing::Beside { at, left: Box::new(n), right }
            } else {
                let n = lemma_refine(*right, right_part(c, at), leaf, u);
                Slicing::Beside { at, left, right: Box::new(n) }
            }
        },
    }
}

/// One slicing per sheet, each of a whole sheet.
pub open spec fn forest_ok(f: Seq<Slicing>, sheet: Sheet) -> bool {
    forall|s: int| 0 <= s < f.len() ==> slicing_ok(#[trigger] f[s], sheet_cell(sheet, s))
}

/// All slices of all sheets.
pub open spec fn forest_slices(f: Seq<Slicing>, sheet: Sheet) -> Multiset<FreeRect>
    decreases f.len(),
{
    if f.len() == 0 {
        Multiset::empty()
    } else {
        forest_slices(f.drop_last(), sheet).add(
            slices(f.last(), sheet_cell(sheet, f.len() - 1)),
        )
    }
}

/// The rectangles `used` are slices of `n` sheets, no slice taken twice.
pub open spec fn packed(sheet: Sheet, n: nat, used: Multiset<FreeRect>) -> bool {
    exists|f: Seq<Slicing>|
        {
            &&& f.len() == n
            &&& n <= usize::MAX + 1
            &&& #[trigger] forest_ok(f, sheet)
            &&& used.subset_of(forest_slices(f, sheet))
        }
}

/// A slice of the forest is a slice of the sheet that it names.
pub proof fn lemma_forest_slice(f: Seq<Slicing>, sheet: Sheet, a: FreeRect)
    requires
        forest_ok(f, sheet),
        f.len() <= usize::MAX + 1,
        forest_slices(f, sheet).count(a) > 0,
    ensures
        a.sheet_idx < f.len(),
        forest_slices(f, sheet).count(a) == slices(
            f[a.sheet_idx as int],
            sheet_cell(sheet, a.sheet_idx as int),
        ).count(a),
    decreases f.len(),
{
    let last = sheet_cell(sheet, f.len() - 1);
    if f.len() > 0 {
        assert forall|s: int| 0 <= s < f.drop_last().len() implies slicing_ok(
            #[trigger] f.drop_last()[s],
            sheet_cell(sheet, s),
        ) by {
            assert(f.drop_last()[s] == f[s]);
        }
        if slices(f.last(), last).count(a) > 0 {
            lemma_slices_within(f.last(), last, a);
            assert(a.sheet_idx == f.len() - 1);
            if forest_slices(f.drop_last(), sheet).count(a) > 0 {
                lemma_forest_slice(f.drop_last(), sheet, a);
            }
        } else {
            lemma_forest_slice(f.drop_last(), sheet, a);
            assert(f.drop_last()[a.sheet_idx as int] == f[a.sheet_idx as int]);
        }
    }
}

proof fn lemma_forest_update(f: Seq<Slicing>, sheet: Sheet, s: int, t: Slicing)
    requires
        0 <= s < f.len(),
    ensures
        forest_slices(f.update(s, t), sheet).add(slices(f[s], sheet_cell(sheet, s)))
            =~= forest_slices(f, sheet).add(slices(t, sheet_cell(sheet, s))),
    decreases f.len(),
{
    let g = f.update(s, t);
    if s == f.len() - 1 {
        assert(g.drop_last() =~= f.drop_last());
    } else {
        lemma_forest_update(f.drop_last(), sheet, s, t);
        assert(g.drop_last() =~= f.drop_last().update(s, t));
        assert(f.drop_last()[s] == f[s]);
        let c = sheet_cell(sheet, s);
        let e = slices(f.last(), sheet_cell(sheet, f.len() - 1));
        assert(g.last() == f.last());
        assert forall|v: FreeRect|
            forest_slices(g, sheet).add(slices(f[s], c)).count(v) == forest_slices(f, sheet).add(
                slices(t, c),
            ).count(v) by {
            assert(forest_slices(g.drop_last(), sheet).add(slices(f[s], c)).count(v)
                == forest_slices(f.drop_last(), sheet).add(slices(t, c)).count(v));
        }
    }
}

/// A used rectangle may be cut further: the parts take its place.
pub proof fn lemma_packed_refine(
    sheet: Sheet,
    n: nat,
    used: Multiset<FreeRect>,
    cell: FreeRect,
    u: Slicing,
    parts: Multiset<FreeRect>,
)
    requires
        packed(sheet, n, used),
        used.count(cell) > 0,
        slicing_ok(u, cell),
        parts.subset_of(slices(u, cell)),
    ensures
        packed(sheet, n, used.remove(cell).add(parts)),
{
    let f = choose|f: Seq<Slicing>|
        f.len() == n && #[trigger] forest_ok(f, sheet) && used.subset_of(forest_slices(f, sheet));
    let all = forest_slices(f, sheet);
    assert(all.count(cell) >= used.count(cell));
    lemma_forest_slice(f, sheet, cell);
    let s = cell.sheet_idx as int;
    let c = sheet_cell(sheet, s);
    let t2 = lemma_refine(f[s], c, cell, u);
    let g = f.update(s, t2);
    lemma_forest_update(f, sheet, s, t2);
    assert forall|k: int| 0 <= k < g.len() implies slicing_ok(
        #[trigger] g[k],
        sheet_cell(sheet, k),
    ) by {
        if k != s {
            assert(g[k] == f[k]);
        }
    }
    let now = forest_slices(g, sheet);
    assert forall|v: FreeRect| used.remove(cell).add(parts).count(v) <= now.count(v) by {
        assert(now.add(slices(f[s], c)).count(v) == all.add(slices(t2, c)).count(v));
        assert(slices(t2, c).count(v) == slices(f[s], c).remove(cell).count(v) + slices(
            u,
            cell,
        ).count(v));
        assert(used.count(v) <= all.count(v));
        assert(parts.count(v) <= slices(u, cell).count(v));
    }
    assert(forest_ok(g, sheet));
}

/// A fresh sheet may be opened.
pub proof fn lemma_packed_open(sheet: Sheet, n: nat, used: Multiset<FreeRect>)
    requires
        packed(sheet, n, used),
        n <= usize::MAX,
    ensures
        packed(sheet, n + 1, used.insert(sheet_cell(sheet, n as int))),
{
    let f = choose|f: Seq<Slicing>|
        f.len() == n && #[trigger] forest_ok(f, sheet) && used.subset_of(forest_slices(f, sheet));
    let g = f.push(Slicing::Whole);
    assert(g.drop_last() =~= f);
    assert forall|k: int| 0 <= k < g.len() implies slicing_ok(
        #[trigger] g[k],
        sheet_cell(sheet, k),
    ) by {
        if k < n {
            assert(g[k] == f[k]);
        }
    }
    assert(forest_slices(g, sheet) =~= forest_slices(f, sheet).insert(
        sheet_cell(sheet, n as int),
    ));
    assert forall|v: FreeRect|
        used.insert(sheet_cell(sheet, n as int)).count(v) <= forest_slices(g, sheet).count(v) by {
        assert(used.count(v) <= forest_slices(f, sheet).count(v));
    }
    assert(forest_ok(g, sheet));
}

/// Nothing is used before the first sheet is opened.
pub proof fn lemma_packed_none(sheet: Sheet)
    ensures
        packed(sheet, 0, Multiset::empty()),
{
    let f = Seq::<Slicing>::empty();
    assert(forest_ok(f, sheet));
    assert(Multiset::<FreeRect>::empty().subset_of(forest_slices(f, sheet)));
}

/// Rectangles may be forgotten.
pub proof fn lemma_packed_fewer(
    sheet: Sheet,
    n: nat,
    used: Multiset<FreeRect>,
    fewer: Multiset<FreeRect>,
)
    requires
        packed(sheet, n, used),
        fewer.subset_of(used),
    ensures
        packed(sheet, n, fewer),
{
    let f = choose|f: Seq<Slicing>|
        f.len() == n && #[trigger] forest_ok(f, sheet) && used.subset_of(forest_slices(f, sheet));
    assert forall|v: FreeRect| fewer.count(v) <= forest_slices(f, sheet).count(v) by {
        assert(fewer.count(v) <= used.count(v));
        assert(used.count(v) <= forest_slices(f, sheet).count(v));
    }
    assert(forest_ok(f, sheet));
}

/// A used rectangle lies in its sheet.
pub proof fn lemma_packed_within(sheet: Sheet, n: nat, used: Multiset<FreeRect>, a: FreeRect)
    requires
        packed(sheet, n, used),
        used.count(a) > 0,
    ensures
        a.sheet_idx < n,
        a.right() <= sheet.width,
        a.bottom() <= sheet.height,
{
    let f = choose|f: Seq<Slicing>|
        f.len() == n && #[trigger] forest_ok(f, sheet) && used.subset_of(forest_slices(f, sheet));
    assert(used.count(a) <= forest_slices(f, sheet).count(a));
    lemma_forest_slice(f, sheet, a);
    lemma_slices_within(f[a.sheet_idx as int], sheet_cell(sheet, a.sheet_idx as int), a);
}

/// Two used rectangles share no inner point.
pub proof fn lemma_packed_apart(
    sheet: Sheet,
    n: nat,
    used: Multiset<FreeRect>,
    a: FreeRect,
    b: FreeRect,
)
    requires
        packed(sheet, n, used),
        Multiset::singleton(a).add(Multiset::singleton(b)).subset_of(used),
    ensures
        apart(a, b),
{
    let pair = Multiset::singleton(a).add(Multiset::singleton(b));
    let f = choose|f: Seq<Slicing>|
        f.len() == n && #[trigger] forest_ok(f, sheet) && used.subset_of(forest_slices(f, sheet));
    let all = forest_slices(f, sheet);
    assert(pair.count(a) >= 1 && pair.count(b) >= 1);
    assert(used.count(a) >= pair.count(a) && used.count(b) >= pair.count(b));
    assert(all.count(a) >= used.count(a) && all.count(b) >= used.count(b));
    lemma_forest_slice(f, sheet, a);
    lemma_forest_slice(f, sheet, b);
    if a.sheet_idx == b.sheet_idx {
        let s = a.sheet_idx as int;
        assert forall|v: FreeRect|
            pair.count(v) <= slices(f[s], sheet_cell(sheet, s)).count(v) by {
            if v != a && v != b {
                assert(pair.count(v) == 0);
            }
        }
        lemma_slices_apart(f[s], sheet_cell(sheet, s), a, b);
    }
}

} // verus!
