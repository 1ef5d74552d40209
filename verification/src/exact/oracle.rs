//! Memoised layout functions of multisets of pieces on one sheet.

use vstd::prelude::*;

use super::budget::{
    lemma_spent_none, lemma_spent_trans, lemma_spent_wider, lemma_starved_before,
    lemma_starved_here, parts, spent, starved, tallied, Work,
};
use super::chain::on_sheet;
use super::fitting::{
    clip_to_sheet, clipped_layout, inside, join_layouts, joins, lemma_inside, lemma_joins_is_split,
    lesser, reaches,
};
use crate::gpf::recon::{
    lays_out, lemma_beside, lemma_lone, lemma_stacked, lemma_width_value, region, TypeSpot,
};
use crate::gpf::table::{
    capacity, counts_minus, cut_at, digits, fits, index_of, law_index_then_digits, lemma_only_one,
    lemma_part_index, lemma_split_exists, lemma_split_gives, lemma_total_first, lemma_total_minus,
    lemma_total_part, minus, nats, part_of, proper_part, single_fits, total, via_split, GpfType,
};
use crate::gpf::{
    eval_f, eval_f_inv, height_at, law_step_function_is_canonical, lesser_of, min_fn, stepped,
    sum_of, width_at, StepFn,
};

verus! {

/// A distinct piece type, with the indices of its copies and the layout function of one copy
/// inside the sheet.
pub struct PType {
    pub width: u32,
    pub height: u32,
    pub can_rotate: bool,
    pub copies: Vec<usize>,
    pub base: StepFn,
}

impl PType {
    /// The type without its copies.
    pub open spec fn kind(self) -> GpfType {
        GpfType {
            width: self.width,
            height: self.height,
            count: self.copies@.len() as u32,
            can_rotate: self.can_rotate,
        }
    }

    /// The base function is that of one copy.
    pub open spec fn based(self, sw: int, sh: int) -> bool {
        &&& stepped(self.base@)
        &&& inside(self.base@, sw, sh)
        &&& forall|w: int, h: int| #[trigger]
            reaches(self.base@, w, h) <==> single_fits(self.kind(), lesser(w, sw), lesser(h, sh))
    }
}

/// The types without their copies.
pub open spec fn kinds(types: Seq<PType>) -> Seq<GpfType> {
    Seq::new(types.len(), |i: int| types[i].kind())
}

/// The base functions are those of the types, on a sheet whose sides can be added.
pub open spec fn types_ok(types: Seq<PType>, sw: int, sh: int) -> bool {
    &&& 2 * sw <= u32::MAX
    &&& 2 * sh <= u32::MAX
    &&& 0 <= sw
    &&& 0 <= sh
    &&& forall|t: int| 0 <= t < types.len() ==> (#[trigger] types[t]).based(sw, sh)
}

/// A work budget is used up.
#[derive(Debug, Clone, Copy, PartialEq, Eq, Structural)]
pub struct Exhausted;

/// A layout function that is known already.
pub struct Cell {
    pub key: Vec<u32>,
    pub f: StepFn,
}

/// Number of buckets that known functions are kept in.
pub const BUCKETS: usize = 4096;

/// Layout functions of multisets of pieces, clipped to the sheet: one without breakpoints means
/// that the pieces do not go on one sheet. What was computed is kept.
pub struct GlfOracle {
    pub sheet_w: u32,
    pub sheet_h: u32,
    pub buckets: Vec<Vec<Cell>>,
    /// The multisets whose functions are kept.
    pub known: Ghost<Set<Seq<nat>>>,
    /// Number of functions kept.
    pub cells: usize,
    pub max_cells: usize,
    /// Number of splits tried since the last reset.
    pub splits: usize,
    pub max_splits: usize,
}

/// The hash of the first `k` numbers of a multiset.
pub open spec fn hash_of(c: Seq<nat>, k: nat) -> nat
    decreases k,
{
    if k == 0 {
        17
    } else {
        (hash_of(c, (k - 1) as nat) * 31 + c[k - 1]) % 0x1_0000_0000
    }
}

/// The bucket of a multiset.
pub open spec fn bucket_index(c: Seq<nat>) -> int {
    (hash_of(c, c.len()) % (BUCKETS as nat)) as int
}

/// A bucket has the function of a multiset.
pub open spec fn has_key(bucket: Seq<Cell>, c: Seq<nat>) -> bool {
    exists|i: int| 0 <= i < bucket.len() && nats((#[trigger] bucket[i]).key@) == c
}

impl GlfOracle {
    /// What is kept is right for these types, and counted.
    pub open spec fn wf(self, types: Seq<GpfType>) -> bool {
        &&& self.buckets@.len() == BUCKETS
        &&& tallied(self.work())
        &&& forall|c: Seq<nat>| #[trigger]
            self.known@.contains(c) ==> has_key(self.buckets@[bucket_index(c)]@, c)
        &&& forall|b: int, i: int|
            0 <= b < self.buckets@.len() && 0 <= i < self.buckets@[b]@.len() ==> {
                let cell = #[trigger] self.buckets@[b]@[i];
                &&& cell.key@.len() == types.len()
                &&& self.known@.contains(nats(cell.key@))
                &&& clipped_layout(
                    types,
                    nats(cell.key@),
                    self.sheet_w as int,
                    self.sheet_h as int,
                    cell.f@,
                )
            }
    }

    /// What an evaluation depends on besides the work done.
    pub open spec fn terms(self, types: Seq<GpfType>) -> Terms {
        Terms {
            types,
            sw: self.sheet_w as int,
            sh: self.sheet_h as int,
            max_cells: self.max_cells as int,
            max_splits: self.max_splits as int,
        }
    }

    /// The work done so far.
    pub open spec fn work(self) -> Work {
        Work { known: self.known@, cells: self.cells as int, splits: self.splits as int }
    }

    /// The budgets may not be enough for a multiset.
    pub open spec fn short_for(self, c: Seq<nat>) -> bool {
        starved(self.work(), self.max_cells as int, self.max_splits as int, c)
    }

    /// A budget is used up.
    pub open spec fn exhausted(self) -> bool {
        self.splits >= self.max_splits || self.cells >= self.max_cells
    }

    /// The same sheet and budgets, no less work done.
    pub open spec fn follows(self, before: GlfOracle) -> bool {
        &&& self.sheet_w == before.sheet_w
        &&& self.sheet_h == before.sheet_h
        &&& self.max_cells == before.max_cells
        &&& self.max_splits == before.max_splits
        &&& self.splits >= before.splits
        &&& self.cells >= before.cells
    }

    /// An oracle that knows nothing yet.
    pub fn new(sheet_w: u32, sheet_h: u32, max_cells: usize, max_splits: usize) -> (r: Self)
        ensures
            r.sheet_w == sheet_w,
            r.sheet_h == sheet_h,
            r.max_cells == max_cells,
            r.max_splits == max_splits,
            r.splits == 0,
            r.cells == 0,
            r.known@ == Set::<Seq<nat>>::empty(),
            forall|types: Seq<GpfType>| #[trigger] r.wf(types),
    {
        let mut buckets: Vec<Vec<Cell>> = Vec::new();
        while buckets.len() < BUCKETS
            invariant
                buckets@.len() <= BUCKETS,
                forall|b: int| 0 <= b < buckets@.len() ==> (#[trigger] buckets@[b])@.len() == 0,
            decreases BUCKETS - buckets@.len(),
        {
            buckets.push(Vec::new());
        }
        let known: Ghost<Set<Seq<nat>>> = Ghost(Set::empty());
        GlfOracle { sheet_w, sheet_h, buckets, known, cells: 0, max_cells, splits: 0, max_splits }
    }

    /// Sets the number of splits back to 0, for the next search.
    pub fn reset_splits(&mut self)
        ensures
            *final(self) == (GlfOracle { splits: 0, ..*old(self) }),
    {
        self.splits = 0;
    }
}

fn bucket_of(key: &Vec<u32>) -> (r: usize)
    ensures
        r == bucket_index(nats(key@)),
        r < BUCKETS,
{
    let mut acc: u64 = 17;
    let mut k: usize = 0;
    while k < key.len()
        invariant
            k <= key@.len(),
            acc == hash_of(nats(key@), k as nat),
            acc < 0x1_0000_0000,
        decreases key@.len() - k,
    {
        assert(nats(key@)[k as int] == key@[k as int]);
        acc = (acc * 31 + key[k] as u64) % 0x1_0000_0000;
        k += 1;
    }
    acc as usize % BUCKETS
}

/// Counts that are the same numbers are the same.
proof fn lemma_same_counts(a: Seq<u32>, b: Seq<u32>)
    requires
        nats(a) == nats(b),
    ensures
        a == b,
{
    assert(nats(a).len() == a.len());
    assert(nats(b).len() == b.len());
    assert forall|i: int| 0 <= i < a.len() implies a[i] == b[i] by {
        assert(nats(a)[i] == a[i]);
        assert(nats(b)[i] == b[i]);
    }
    assert(a =~= b);
}

fn same_key(a: &Vec<u32>, b: &Vec<u32>) -> (r: bool)
    ensures
        r == (a@ == b@),
{
    if a.len() != b.len() {
        return false;
    }
    let mut k: usize = 0;
    while k < a.len()
        invariant
            k <= a@.len(),
            a@.len() == b@.len(),
            forall|i: int| 0 <= i < k ==> #[trigger] a@[i] == b@[i],
        decreases a@.len() - k,
    {
        if a[k] != b[k] {
            return false;
        }
        k += 1;
    }
    assert(a@ =~= b@);
    true
}

fn copy_steps(f: &StepFn) -> (r: StepFn)
    ensures
        r@ == f@,
{
    let mut out: StepFn = Vec::new();
    while out.len() < f.len()
        invariant
            out@.len() <= f@.len(),
            out@ =~= f@.take(out@.len() as int),
        decreases f@.len() - out@.len(),
    {
        out.push(f[out.len()]);
    }
    assert(out@ =~= f@);
    out
}

fn copy_counts(key: &Vec<u32>) -> (r: Vec<u32>)
    ensures
        r@ == key@,
{
    let mut out: Vec<u32> = Vec::new();
    while out.len() < key.len()
        invariant
            out@.len() <= key@.len(),
            out@ =~= key@.take(out@.len() as int),
        decreases key@.len() - out@.len(),
    {
        out.push(key[out.len()]);
    }
    assert(out@ =~= key@);
    out
}

impl GlfOracle {
    /// The function of a multiset where it is known.
    fn lookup(&self, key: &Vec<u32>, Ghost(types): Ghost<Seq<GpfType>>) -> (r: Option<StepFn>)
        requires
            self.wf(types),
        ensures
            match r {
                Some(f) => clipped_layout(
                    types,
                    nats(key@),
                    self.sheet_w as int,
                    self.sheet_h as int,
                    f@,
                ) && self.known@.contains(nats(key@)),
                None => !self.known@.contains(nats(key@)),
            },
    {
        let b: usize = bucket_of(key);
        let bucket = &self.buckets[b];
        let mut i: usize = 0;
        while i < bucket.len()
            invariant
                i <= bucket@.len(),
                b < self.buckets@.len(),
                self.buckets@[b as int] == *bucket,
                self.wf(types),
                forall|j: int| 0 <= j < i ==> (#[trigger] bucket@[j]).key@ != key@,
            decreases bucket@.len() - i,
        {
            if same_key(&bucket[i].key, key) {
                assert(self.buckets@[b as int]@[i as int].key@ == key@);
                return Some(copy_steps(&bucket[i].f));
            }
            i += 1;
        }
        proof {
            if self.known@.contains(nats(key@)) {
                let c = nats(key@);
                assert(has_key(self.buckets@[bucket_index(c)]@, c));
                let j = choose|j: int|
                    0 <= j < bucket@.len() && nats((#[trigger] bucket@[j]).key@) == c;
                lemma_same_counts(bucket@[j].key@, key@);
            }
        }
        None
    }

    /// Keeps the function of a multiset.
    fn store(&mut self, key: &Vec<u32>, f: &StepFn, Ghost(types): Ghost<Seq<GpfType>>)
        requires
            old(self).wf(types),
            old(self).cells < old(self).max_cells,
            !old(self).known@.contains(nats(key@)),
            key@.len() == types.len(),
            clipped_layout(
                types,
                nats(key@),
                old(self).sheet_w as int,
                old(self).sheet_h as int,
                f@,
            ),
        ensures
            final(self).wf(types),
            final(self).follows(*old(self)),
            final(self).known@ == old(self).known@.insert(nats(key@)),
            final(self).cells == old(self).cells + 1,
            final(self).splits == old(self).splits,
    {
        let b: usize = bucket_of(key);
        let cell = Cell { key: copy_counts(key), f: copy_steps(f) };
        let ghost before = self.buckets@;
        self.buckets[b].push(cell);
        self.cells = self.cells + 1;
        let ghost known0 = self.known@;
        self.known = Ghost(known0.insert(nats(key@)));
        proof {
            assert forall|c: Seq<nat>| #[trigger] self.known@.contains(c) implies has_key(
                self.buckets@[bucket_index(c)]@,
                c,
            ) by {
                let now = self.buckets@[bucket_index(c)]@;
                if c == nats(key@) {
                    let last = before[b as int]@.len() as int;
                    assert(nats(now[last].key@) == c);
                } else {
                    assert(known0.contains(c));
                    let was = before[bucket_index(c)]@;
                    assert(has_key(was, c));
                    let i = choose|i: int|
                        0 <= i < was.len() && nats((#[trigger] was[i]).key@) == c;
                    assert(now[i] == was[i]);
                }
            }
            assert forall|c: int, i: int|
                0 <= c < self.buckets@.len() && 0 <= i < self.buckets@[c]@.len() implies {
                let cell = #[trigger] self.buckets@[c]@[i];
                &&& cell.key@.len() == types.len()
                &&& self.known@.contains(nats(cell.key@))
                &&& clipped_layout(
                    types,
                    nats(cell.key@),
                    self.sheet_w as int,
                    self.sheet_h as int,
                    cell.f@,
                )
            } by {
                if c != b {
                    assert(self.buckets@[c] == before[c]);
                    assert(before[c]@[i].key@.len() == types.len());
                } else if i < before[c]@.len() {
                    assert(self.buckets@[c]@[i] == before[c]@[i]);
                    assert(before[c]@[i].key@.len() == types.len());
                }
            }
        }
    }
}

/// A split that is not tried in the other order.
pub open spec fn canonical(d: Seq<nat>, c: Seq<nat>) -> bool
    decreases c.len(),
{
    if c.len() == 0 {
        true
    } else if d[0] < c[0] - d[0] {
        true
    } else if d[0] > c[0] - d[0] {
        false
    } else {
        canonical(d.drop_first(), c.drop_first())
    }
}

/// Of a split and its mirror image one is tried.
proof fn lemma_canonical(d: Seq<nat>, c: Seq<nat>)
    requires
        part_of(d, c),
    ensures
        canonical(d, c) || canonical(minus(c, d), c),
    decreases c.len(),
{
    if c.len() > 0 {
        let (d2, c2) = (d.drop_first(), c.drop_first());
        assert(d[0] <= c[0]);
        assert(part_of(d2, c2)) by {
            assert forall|i: int| 0 <= i < c2.len() implies #[trigger] d2[i] <= c2[i] by {
                assert(d[i + 1] <= c[i + 1]);
            }
        }
        lemma_canonical(d2, c2);
        assert(minus(c, d).drop_first() =~= minus(c2, d2));
    }
}

fn is_canonical_split(split: &Vec<u32>, key: &Vec<u32>) -> (r: bool)
    requires
        part_of(nats(split@), nats(key@)),
    ensures
        r == canonical(nats(split@), nats(key@)),
{
    let ghost (d, c) = (nats(split@), nats(key@));
    let mut k: usize = 0;
    assert(d.skip(0) =~= d && c.skip(0) =~= c);
    while k < key.len()
        invariant
            k <= key@.len(),
            split@.len() == key@.len(),
            d == nats(split@),
            c == nats(key@),
            part_of(d, c),
            canonical(d, c) == canonical(d.skip(k as int), c.skip(k as int)),
        decreases key@.len() - k,
    {
        assert(d[k as int] <= c[k as int]);
        assert(d.skip(k as int).drop_first() =~= d.skip(k + 1));
        assert(c.skip(k as int).drop_first() =~= c.skip(k + 1));
        let rest: u32 = key[k] - split[k];
        if split[k] < rest {
            return true;
        }
        if split[k] > rest {
            return false;
        }
        k += 1;
    }
    true
}

/// Digits before `i` are full, digit `i` is not: the next number has zeros there and one more.
proof fn lemma_successor(c: Seq<nat>, c2: Seq<nat>, full: Seq<nat>, i: int)
    requires
        c.len() == full.len(),
        c2.len() == full.len(),
        0 <= i < full.len(),
        forall|j: int| 0 <= j < i ==> #[trigger] c[j] == full[j],
        forall|j: int| 0 <= j < i ==> #[trigger] c2[j] == 0,
        c2[i] == c[i] + 1,
        forall|j: int| i < j < full.len() ==> #[trigger] c2[j] == c[j],
    ensures
        index_of(c2, full) == index_of(c, full) + 1,
    decreases full.len(),
{
    let (d, d2, g) = (c.drop_first(), c2.drop_first(), full.drop_first());
    if i == 0 {
        assert(d =~= d2);
    } else {
        assert forall|j: int| 0 <= j < i - 1 implies #[trigger] d[j] == g[j] by {
            assert(c[j + 1] == full[j + 1]);
        }
        assert forall|j: int| 0 <= j < i - 1 implies #[trigger] d2[j] == 0 by {
            assert(c2[j + 1] == 0);
        }
        assert forall|j: int| i - 1 < j < g.len() implies #[trigger] d2[j] == d[j] by {
            assert(c2[j + 1] == c[j + 1]);
        }
        lemma_successor(d, d2, g, i - 1);
        let (a, b) = (index_of(d, g), full[0] + 1);
        assert(b * (a + 1) == b * a + b) by (nonlinear_arith);
        assert(c[0] == full[0]);
        assert(c2[0] == 0);
    }
}

/// Goes to the next split; false when all have been had.
fn next_split(split: &mut Vec<u32>, key: &Vec<u32>) -> (r: bool)
    requires
        part_of(nats(old(split)@), nats(key@)),
    ensures
        part_of(nats(final(split)@), nats(key@)),
        r ==> index_of(nats(final(split)@), nats(key@)) == index_of(
            nats(old(split)@),
            nats(key@),
        ) + 1,
        !r ==> old(split)@ == key@,
{
    let ghost before = split@;
    let ghost c = nats(key@);
    let n: usize = split.len();
    assert(nats(before).len() == c.len());
    let mut i: usize = 0;
    while i < n
        invariant
            i <= n,
            n == split@.len(),
            n == key@.len(),
            n == before.len(),
            before == old(split)@,
            c == nats(key@),
            part_of(nats(before), c),
            forall|j: int| 0 <= j < i ==> #[trigger] before[j] == key@[j],
            forall|j: int| 0 <= j < i ==> #[trigger] split@[j] == 0,
            forall|j: int| i <= j < n ==> #[trigger] split@[j] == before[j],
        decreases n - i,
    {
        if split[i] < key[i] {
            split.set(i, split[i] + 1);
            proof {
                assert forall|j: int| 0 <= j < c.len() implies #[trigger] nats(split@)[j]
                    <= c[j] by {
                    assert(nats(before)[j] <= c[j]);
                }
                lemma_successor(nats(before), nats(split@), c, i as int);
            }
            return true;
        }
        assert(nats(before)[i as int] <= c[i as int]);
        split.set(i, 0);
        i += 1;
    }
    assert(before =~= key@);
    false
}

/// The index of the only piece of a multiset of one, none for another multiset.
fn single_of(key: &Vec<u32>) -> (r: Option<usize>)
    ensures
        match r {
            Some(i) => i < key@.len() && key@[i as int] == 1 && total(nats(key@)) == 1,
            None => total(nats(key@)) != 1,
        },
{
    let ghost c = nats(key@);
    let mut found: Option<usize> = None;
    let mut k: usize = 0;
    assert(c.skip(0) =~= c);
    while k < key.len()
        invariant
            k <= key@.len(),
            c == nats(key@),
            match found {
                Some(i) => {
                    &&& i < k
                    &&& key@[i as int] == 1
                    &&& total(c) == 1 + total(c.skip(k as int))
                },
                None => total(c) == total(c.skip(k as int)),
            },
        decreases key@.len() - k,
    {
        let ghost s = c.skip(k as int);
        proof {
            lemma_total_first(s);
            assert(s.drop_first() =~= c.skip(k + 1));
            assert(s[0] == key@[k as int]);
        }
        let v: u32 = key[k];
        if v > 0 {
            if v > 1 || found.is_some() {
                return None;
            }
            found = Some(k);
        }
        k += 1;
    }
    assert(c.skip(k as int) =~= Seq::empty());
    found
}

/// The function found so far holds, inside the sheet, all canonical splits with numbers up to
/// `k`, and nothing that does not fit.
spec fn tried(
    types: Seq<GpfType>,
    c: Seq<nat>,
    sw: int,
    sh: int,
    best: Seq<(u32, u32)>,
    k: nat,
) -> bool {
    &&& stepped(best)
    &&& forall|w: int, h: int|
        w <= sw && h <= sh && #[trigger] reaches(best, w, h) ==> fits(types, c, w, h)
    &&& forall|d: Seq<nat>, w: int, h: int|
        #![trigger via_split(types, d, minus(c, d), w, h)]
        proper_part(d, c) && canonical(d, c) && index_of(d, c) <= k && w <= sw && h <= sh
            && via_split(types, d, minus(c, d), w, h) ==> reaches(best, w, h)
}

/// A part with the number of another is that other.
proof fn lemma_same_index(d: Seq<nat>, e: Seq<nat>, c: Seq<nat>)
    requires
        part_of(d, c),
        part_of(e, c),
        index_of(d, c) == index_of(e, c),
    ensures
        d == e,
{
    law_index_then_digits(d, c);
    law_index_then_digits(e, c);
    assert(d =~= e);
}

/// When all splits have been tried, the function is the layout function.
proof fn lemma_all_tried(
    types: Seq<GpfType>,
    c: Seq<nat>,
    sw: int,
    sh: int,
    best: Seq<(u32, u32)>,
    w: int,
    h: int,
)
    requires
        total(c) > 1,
        tried(types, c, sw, sh, best, index_of(c, c)),
        w <= sw,
        h <= sh,
    ensures
        reaches(best, w, h) <==> fits(types, c, w, h),
{
    if fits(types, c, w, h) {
        let d = lemma_split_exists(types, c, w, h);
        let e = minus(c, d);
        lemma_total_minus(c, d);
        assert(minus(c, e) == d);
        lemma_canonical(d, c);
        lemma_part_index(d, c, c);
        lemma_part_index(e, c, c);
        if canonical(d, c) {
            assert(via_split(types, d, minus(c, d), w, h));
        } else {
            assert(proper_part(e, c));
            lemma_mirrored(types, d, e, w, h);
            assert(via_split(types, e, minus(c, e), w, h));
        }
    }
}

proof fn lemma_mirrored(types: Seq<GpfType>, a: Seq<nat>, b: Seq<nat>, w: int, h: int)
    requires
        via_split(types, a, b, w, h),
    ensures
        via_split(types, b, a, w, h),
{
    if exists|h1: int| #[trigger] cut_at(h1) && fits(types, a, w, h1) && fits(types, b, w, h - h1) {
        let h1 = choose|h1: int| #[trigger]
            cut_at(h1) && fits(types, a, w, h1) && fits(types, b, w, h - h1);
        assert(cut_at(h - h1) && fits(types, b, w, h - h1) && fits(types, a, w, h - (h - h1)));
    } else {
        let w1 = choose|w1: int| #[trigger]
            cut_at(w1) && fits(types, a, w1, h) && fits(types, b, w - w1, h);
        assert(cut_at(w - w1) && fits(types, b, w - w1, h) && fits(types, a, w - (w - w1), h));
    }
}

/// One more split.
proof fn lemma_try(
    types: Seq<GpfType>,
    c: Seq<nat>,
    sw: int,
    sh: int,
    best: Seq<(u32, u32)>,
    d: Seq<nat>,
    r: Seq<(u32, u32)>,
)
    requires
        total(c) > 1,
        part_of(d, c),
        index_of(d, c) > 0,
        tried(types, c, sw, sh, best, (index_of(d, c) - 1) as nat),
        stepped(r),
        forall|w: int, h: int|
            w <= sw && h <= sh ==> (#[trigger] reaches(r, w, h) <==> reaches(best, w, h) || (
            proper_part(d, c) && canonical(d, c) && via_split(types, d, minus(c, d), w, h))),
    ensures
        tried(types, c, sw, sh, r, index_of(d, c)),
{
    assert forall|w: int, h: int|
        w <= sw && h <= sh && #[trigger] reaches(r, w, h) implies fits(types, c, w, h) by {
        if !reaches(best, w, h) {
            lemma_split_gives(types, c, d, w, h);
        }
    }
    assert forall|b: Seq<nat>, w: int, h: int|
        #![trigger via_split(types, b, minus(c, b), w, h)]
        proper_part(b, c) && canonical(b, c) && index_of(b, c) <= index_of(d, c) && w <= sw && h
            <= sh && via_split(types, b, minus(c, b), w, h) implies reaches(r, w, h) by {
        if index_of(b, c) == index_of(d, c) {
            lemma_same_index(b, d, c);
        } else {
            assert(reaches(best, w, h));
        }
    }
}

fn is_full_split(split: &Vec<u32>, key: &Vec<u32>) -> (r: bool)
    ensures
        r == (split@ == key@),
{
    same_key(split, key)
}

fn no_pieces(n: usize) -> (r: Vec<u32>)
    ensures
        r@.len() == n,
        forall|i: int| 0 <= i < n ==> r@[i] == 0,
{
    let r: Vec<u32> = vec![0u32; n];
    r
}

proof fn lemma_none_index(d: Seq<nat>, c: Seq<nat>)
    requires
        d.len() == c.len(),
        forall|i: int| 0 <= i < d.len() ==> #[trigger] d[i] == 0,
    ensures
        index_of(d, c) == 0,
        total(d) == 0,
    decreases c.len(),
{
    if c.len() > 0 {
        let (d2, c2) = (d.drop_first(), c.drop_first());
        assert forall|i: int| 0 <= i < d2.len() implies #[trigger] d2[i] == 0 by {
            assert(d[i + 1] == 0);
        }
        lemma_none_index(d2, c2);
        lemma_total_first(d);
        assert((c[0] + 1) * 0 == 0) by (nonlinear_arith);
    }
}

/// A part with a number above 0 that is not the whole takes some and leaves some.
proof fn lemma_proper(d: Seq<nat>, c: Seq<nat>)
    requires
        part_of(d, c),
        index_of(d, c) > 0,
        d != c,
    ensures
        proper_part(d, c),
        total(minus(c, d)) > 0,
{
    lemma_total_minus(c, d);
    lemma_total_part(d, c);
    if total(d) == 0 {
        crate::gpf::table::lemma_index_zero(d, c);
    }
    if total(d) == total(c) {
        assert(d =~= c);
    }
}

/// Work on a part of the whole is added.
proof fn lemma_child_done(w0: Work, w1: Work, w2: Work, own: int, d: Seq<nat>, c: Seq<nat>)
    requires
        0 <= own <= w1.splits,
        spent(w0, Work { splits: w1.splits - own, ..w1 }, c),
        spent(w1, w2, d),
        proper_part(d, c) || proper_part(minus(c, d), c),
        part_of(d, c),
        total(d) < total(c),
        !w1.known.contains(c),
    ensures
        own <= w2.splits,
        spent(w0, Work { splits: w2.splits - own, ..w2 }, c),
        !w2.known.contains(c),
{
    lemma_spent_wider(w1, w2, d, c);
    let m1 = Work { splits: w1.splits - own, ..w1 };
    let m2 = Work { splits: w2.splits - own, ..w2 };
    assert(spent(m1, m2, c));
    lemma_spent_trans(w0, m1, m2, c);
    if w2.known.contains(c) {
        assert(w1.known.union(parts(d)).contains(c));
        lemma_total_part(c, d);
    }
}

/// Work on a part is added where what went before was work on the whole.
proof fn lemma_part_done(w0: Work, w1: Work, w2: Work, d: Seq<nat>, c: Seq<nat>)
    requires
        spent(w1, w2, d),
        part_of(d, c),
    ensures
        spent(w0, w1, c) ==> spent(w0, w2, c),
{
    if spent(w0, w1, c) {
        lemma_spent_wider(w1, w2, d, c);
        lemma_spent_trans(w0, w1, w2, c);
    }
}

/// The function of the whole is kept.
proof fn lemma_kept(w0: Work, w1: Work, w2: Work, own: int, c: Seq<nat>)
    requires
        0 <= own <= capacity(c),
        own <= w1.splits,
        spent(w0, Work { splits: w1.splits - own, ..w1 }, c),
        !w1.known.contains(c),
        tallied(w2),
        w2 == (Work { known: w1.known.insert(c), cells: w1.cells + 1, ..w1 }),
    ensures
        spent(w0, w2, c),
{
    let (x, n) = (w1.cells - w0.cells, capacity(c) as int);
    assert((x + 1) * n == x * n + n) by (nonlinear_arith);
    assert(part_of(c, c));
    assert forall|k: Seq<nat>| w2.known.contains(k) implies w0.known.union(parts(c)).contains(k) by {
        if k != c {
            assert(w1.known.contains(k));
        }
    }
    assert(w0.known.subset_of(w1.known));
}

/// What an evaluation depends on besides the work done: the types, the sheet and the budgets.
pub struct Terms {
    pub types: Seq<GpfType>,
    pub sw: int,
    pub sh: int,
    pub max_cells: int,
    pub max_splits: int,
}

/// The work done after an evaluation, and whether it came to its end.
pub struct Evaluation {
    pub work: Work,
    pub done: bool,
}

/// The function of a multiset is kept where there is room for one more.
pub open spec fn kept(e: Terms, w: Work, c: Seq<nat>) -> Evaluation {
    if w.cells >= e.max_cells {
        Evaluation { work: w, done: false }
    } else {
        Evaluation {
            work: Work { known: w.known.insert(c), cells: w.cells + 1, ..w },
            done: true,
        }
    }
}

/// The evaluation of a multiset: nothing to do where its function is known; else, but for a
/// single piece, all its splits are tried, and the function is kept.
pub open spec fn evaluated(e: Terms, w: Work, c: Seq<nat>) -> Evaluation
    decreases total(c), 1nat, 0nat,
{
    if w.known.contains(c) {
        Evaluation { work: w, done: true }
    } else if total(c) <= 1 {
        kept(e, w, c)
    } else {
        let tried = splits_tried(e, w, c, index_of(c, c));
        if tried.done {
            kept(e, tried.work, c)
        } else {
            tried
        }
    }
}

/// The first `k` splits of a multiset are tried, as long as the budget lasts. Of a proper split
/// that is not the mirror image of another one part is evaluated, and the other where the first
/// has a layout.
pub open spec fn splits_tried(e: Terms, w: Work, c: Seq<nat>, k: nat) -> Evaluation
    decreases total(c), 0nat, k,
{
    if k == 0 {
        Evaluation { work: w, done: true }
    } else {
        let before = splits_tried(e, w, c, (k - 1) as nat);
        let d = digits(k, c);
        let rest = minus(c, d);
        if !before.done {
            before
        } else if before.work.splits >= e.max_splits {
            Evaluation { work: before.work, done: false }
        } else {
            let now = Work { splits: before.work.splits + 1, ..before.work };
            if !canonical(d, c) || total(d) >= total(c) || total(rest) >= total(c) {
                Evaluation { work: now, done: true }
            } else {
                let first = evaluated(e, now, d);
                if first.done && fits(e.types, d, e.sw, e.sh) {
                    evaluated(e, first.work, rest)
                } else {
                    first
                }
            }
        }
    }
}

/// Where the budget does not last, it does not last for more splits.
proof fn lemma_stuck(e: Terms, w: Work, c: Seq<nat>, j: nat, k: nat)
    requires
        j <= k,
        !splits_tried(e, w, c, j).done,
    ensures
        splits_tried(e, w, c, k) == splits_tried(e, w, c, j),
    decreases k,
{
    if j < k {
        lemma_stuck(e, w, c, j, (k - 1) as nat);
    }
}

/// A layout function has breakpoints where the pieces go on the sheet.
pub(crate) proof fn lemma_has_layout(
    types: Seq<GpfType>,
    c: Seq<nat>,
    sw: int,
    sh: int,
    f: Seq<(u32, u32)>,
)
    requires
        clipped_layout(types, c, sw, sh, f),
    ensures
        f.len() > 0 <==> fits(types, c, sw, sh),
{
    assert(reaches(f, sw, sh) <==> fits(types, c, lesser(sw, sw), lesser(sh, sh)));
    if f.len() > 0 {
        super::fitting::lemma_reaches(f, sw, sh);
        assert(f[0].0 <= sw && f[0].1 <= sh);
    }
}

impl GlfOracle {
    /// The layout function of a multiset of pieces inside the sheet. It has no breakpoints
    /// where the pieces cannot be cut from one sheet.
    pub fn eval(&mut self, types: &Vec<PType>, key: &Vec<u32>) -> (r: Result<StepFn, Exhausted>)
        requires
            old(self).wf(kinds(types@)),
            types_ok(types@, old(self).sheet_w as int, old(self).sheet_h as int),
            key@.len() == types@.len(),
            total(nats(key@)) > 0,
        ensures
            final(self).wf(kinds(types@)),
            final(self).follows(*old(self)),
            match r {
                Ok(f) => clipped_layout(
                    kinds(types@),
                    nats(key@),
                    final(self).sheet_w as int,
                    final(self).sheet_h as int,
                    f@,
                ) && spent(old(self).work(), final(self).work(), nats(key@)),
                Err(_) => final(self).exhausted() && old(self).short_for(nats(key@)),
            },
            (Evaluation { work: final(self).work(), done: r is Ok }) == evaluated(
                old(self).terms(kinds(types@)),
                old(self).work(),
                nats(key@),
            ),
        decreases total(nats(key@)),
    {
        let ghost ts = kinds(types@);
        let ghost c = nats(key@);
        let ghost (sw, sh) = (self.sheet_w as int, self.sheet_h as int);
        let ghost w0 = self.work();
        let ghost terms = self.terms(ts);
        proof {
            lemma_spent_none(w0, c);
        }
        if let Some(f) = self.lookup(key, Ghost(ts)) {
            return Ok(f);
        }
        let ghost mut own: int = 0;
        let f = match single_of(key) {
            Some(i) => {
                let f = copy_steps(&types[i].base);
                proof {
                    assert(types@[i as int].based(sw, sh));
                    assert forall|w: int, h: int| #[trigger]
                        reaches(f@, w, h) <==> fits(ts, c, lesser(w, sw), lesser(h, sh)) by {
                        let (a, b) = (lesser(w, sw), lesser(h, sh));
                        if single_fits(ts[i as int], a, b) {
                            assert(c[i as int] == 1 && single_fits(ts[i as int], a, b));
                        }
                        if fits(ts, c, a, b) {
                            let j = choose|j: int|
                                0 <= j < c.len() && #[trigger] c[j] == 1 && single_fits(
                                    ts[j],
                                    a,
                                    b,
                                );
                            lemma_only_one(c, i as int, j);
                        }
                    }
                }
                f
            },
            None => {
                let mut best: StepFn = Vec::new();
                let mut split = no_pieces(key.len());
                proof {
                    lemma_none_index(nats(split@), c);
                    assert forall|d: Seq<nat>, w: int, h: int|
                        #![trigger via_split(ts, d, minus(c, d), w, h)]
                        proper_part(d, c) && canonical(d, c) && index_of(d, c) <= 0 && w <= sw
                            && h <= sh && via_split(ts, d, minus(c, d), w, h) implies reaches(
                        best@,
                        w,
                        h,
                    ) by {
                        lemma_part_index(d, c, c);
                    }
                }
                while next_split(&mut split, key)
                    invariant_except_break
                        tried(ts, c, sw, sh, best@, index_of(nats(split@), c)),
                        own == index_of(nats(split@), c),
                        splits_tried(terms, w0, c, own as nat) == (Evaluation {
                            work: self.work(),
                            done: true,
                        }),
                    invariant
                        terms == self.terms(ts),
                        ts == kinds(types@),
                        c == nats(key@),
                        total(c) > 1,
                        key@.len() == types@.len(),
                        self.wf(ts),
                        self.follows(*old(self)),
                        w0 == old(self).work(),
                        0 <= own <= capacity(c),
                        self.splits >= w0.splits + own,
                        !self.known@.contains(c),
                        spent(w0, Work { splits: self.splits - own, ..self.work() }, c),
                        sw == self.sheet_w,
                        sh == self.sheet_h,
                        types_ok(types@, sw, sh),
                        part_of(nats(split@), c),
                    ensures
                        tried(ts, c, sw, sh, best@, index_of(c, c)),
                        splits_tried(terms, w0, c, index_of(c, c)) == (Evaluation {
                            work: self.work(),
                            done: true,
                        }),
                    decreases capacity(c) - index_of(nats(split@), c),
                {
                    let ghost d = nats(split@);
                    proof {
                        law_index_then_digits(d, c);
                        lemma_part_index(d, c, c);
                        assert(digits((own + 1) as nat, c) == d);
                    }
                    if self.splits >= self.max_splits {
                        proof {
                            lemma_stuck(terms, w0, c, (own + 1) as nat, index_of(c, c));
                            lemma_starved_here(
                                w0,
                                self.work(),
                                own,
                                self.max_cells as int,
                                self.max_splits as int,
                                c,
                            );
                        }
                        return Err(Exhausted);
                    }
                    self.splits = self.splits + 1;
                    proof {
                        own = own + 1;
                    }
                    if is_full_split(&split, key) || !is_canonical_split(&split, key) {
                        proof {
                            if split@ == key@ {
                                assert(!proper_part(d, c));
                            }
                            lemma_try(ts, c, sw, sh, best@, d, best@);
                        }
                        continue;
                    }
                    let rest = counts_minus(key, &split);
                    let ghost e = nats(rest@);
                    proof {
                        assert(split@ != key@);
                        if d == c {
                            assert(split@ =~= key@) by {
                                assert forall|i: int| 0 <= i < key@.len() implies split@[i]
                                    == key@[i] by {
                                    assert(d[i] == c[i]);
                                }
                            }
                        }
                        lemma_proper(d, c);
                        lemma_total_minus(c, d);
                    }
                    let ghost w1 = self.work();
                    let fa = match self.eval(types, &split) {
                        Ok(fa) => fa,
                        Err(e) => {
                            proof {
                                lemma_stuck(terms, w0, c, own as nat, index_of(c, c));
                                lemma_starved_before(
                                    w0,
                                    w1,
                                    own,
                                    self.max_cells as int,
                                    self.max_splits as int,
                                    d,
                                    c,
                                );
                            }
                            return Err(e);
                        },
                    };
                    let ghost w2 = self.work();
                    proof {
                        lemma_child_done(w0, w1, w2, own, d, c);
                        lemma_has_layout(ts, d, sw, sh, fa@);
                    }
                    if fa.len() == 0 {
                        proof {
                            lemma_no_layout(ts, d, e, fa@, sw, sh);
                            lemma_try(ts, c, sw, sh, best@, d, best@);
                        }
                        continue;
                    }
                    let fb = match self.eval(types, &rest) {
                        Ok(fb) => fb,
                        Err(x) => {
                            proof {
                                lemma_stuck(terms, w0, c, own as nat, index_of(c, c));
                                lemma_starved_before(
                                    w0,
                                    w2,
                                    own,
                                    self.max_cells as int,
                                    self.max_splits as int,
                                    e,
                                    c,
                                );
                            }
                            return Err(x);
                        },
                    };
                    proof {
                        lemma_child_done(w0, w2, self.work(), own, e, c);
                    }
                    if fb.len() == 0 {
                        proof {
                            lemma_no_layout(ts, e, d, fb@, sw, sh);
                            lemma_try(ts, c, sw, sh, best@, d, best@);
                        }
                        continue;
                    }
                    let cand = join_layouts(&fa, &fb, Ghost(sw), Ghost(sh));
                    let next = min_fn(&best, &cand);
                    proof {
                        assert forall|w: int, h: int| w <= sw && h <= sh implies (#[trigger]
                        reaches(next@, w, h) <==> reaches(best@, w, h) || (proper_part(d, c)
                            && canonical(d, c) && via_split(ts, d, minus(c, d), w, h))) by {
                            assert(height_at(next@, w) == lesser_of(
                                height_at(best@, w),
                                height_at(cand@, w),
                            ));
                            assert(reaches(cand@, w, h) <==> joins(fa@, fb@, w, h));
                            lemma_joins_is_split(ts, d, e, fa@, fb@, sw, sh, w, h);
                        }
                        lemma_try(ts, c, sw, sh, best@, d, next@);
                    }
                    best = next;
                }
                let f = clip_to_sheet(&best, self.sheet_w, self.sheet_h);
                proof {
                    assert forall|w: int, h: int| #[trigger]
                        reaches(f@, w, h) <==> fits(ts, c, lesser(w, sw), lesser(h, sh)) by {
                        lemma_all_tried(ts, c, sw, sh, best@, lesser(w, sw), lesser(h, sh));
                    }
                }
                f
            },
        };
        let ghost w1 = self.work();
        if self.cells >= self.max_cells {
            proof {
                lemma_starved_here(
                    w0,
                    w1,
                    own,
                    self.max_cells as int,
                    self.max_splits as int,
                    c,
                );
            }
            return Err(Exhausted);
        }
        self.store(key, &f, Ghost(ts));
        proof {
            lemma_kept(w0, w1, self.work(), own, c);
        }
        Ok(f)
    }
}

/// Pieces without a layout on the sheet are on no side of a cut of it.
proof fn lemma_no_layout(
    types: Seq<GpfType>,
    a: Seq<nat>,
    b: Seq<nat>,
    f: Seq<(u32, u32)>,
    sw: int,
    sh: int,
)
    requires
        clipped_layout(types, a, sw, sh, f),
        f.len() == 0,
        total(a) > 0,
        total(b) > 0,
    ensures
        forall|w: int, h: int|
            w <= sw && h <= sh ==> !#[trigger] via_split(types, a, b, w, h),
        forall|w: int, h: int|
            w <= sw && h <= sh ==> !#[trigger] via_split(types, b, a, w, h),
{
    assert forall|w: int, h: int| w <= sw && h <= sh implies !#[trigger] via_split(
        types,
        a,
        b,
        w,
        h,
    ) by {
        if via_split(types, a, b, w, h) {
            if exists|h1: int| #[trigger]
                cut_at(h1) && fits(types, a, w, h1) && fits(types, b, w, h - h1) {
                let h1 = choose|h1: int| #[trigger]
                    cut_at(h1) && fits(types, a, w, h1) && fits(types, b, w, h - h1);
                super::fitting::lemma_fits_room(types, b, w, h - h1);
                assert(!reaches(f, w, h1));
            } else {
                let w1 = choose|w1: int| #[trigger]
                    cut_at(w1) && fits(types, a, w1, h) && fits(types, b, w - w1, h);
                super::fitting::lemma_fits_room(types, b, w - w1, h);
                assert(!reaches(f, w1, h));
            }
        }
    }
    assert forall|w: int, h: int| w <= sw && h <= sh implies !#[trigger] via_split(
        types,
        b,
        a,
        w,
        h,
    ) by {
        if via_split(types, b, a, w, h) {
            lemma_mirrored(types, b, a, w, h);
        }
    }
}

/// Where a layout function has its value, some split gives it: the parts stacked are exactly as
/// high, or side by side no wider.
proof fn lemma_split_found(
    types: Seq<GpfType>,
    c: Seq<nat>,
    f: Seq<(u32, u32)>,
    sw: int,
    sh: int,
    w: int,
    h: int,
) -> (d: Seq<nat>)
    requires
        clipped_layout(types, c, sw, sh, f),
        total(c) > 1,
        height_at(f, w) == Some(h),
        w <= sw,
    ensures
        proper_part(d, c),
        total(minus(c, d)) > 0,
        h <= sh,
        via_split(types, d, minus(c, d), w, h),
        forall|fa: Seq<(u32, u32)>, fb: Seq<(u32, u32)>|
            clipped_layout(types, d, sw, sh, fa) && clipped_layout(
                types,
                minus(c, d),
                sw,
                sh,
                fb,
            ) ==> #[trigger] splits_at(fa, fb, w, h),
{
    lemma_inside(f, sw, sh, w);
    assert(reaches(f, w, h));
    assert(!reaches(f, w, h - 1));
    assert(!fits(types, c, w, h - 1));
    let d = lemma_split_exists(types, c, w, h);
    let e = minus(c, d);
    lemma_total_minus(c, d);
    assert forall|fa: Seq<(u32, u32)>, fb: Seq<(u32, u32)>|
        clipped_layout(types, d, sw, sh, fa) && clipped_layout(
            types,
            e,
            sw,
            sh,
            fb,
        ) implies #[trigger] splits_at(fa, fb, w, h) by {
        lemma_joins_is_split(types, d, e, fa, fb, sw, sh, w, h);
        lemma_joins_is_split(types, d, e, fa, fb, sw, sh, w, h - 1);
        if via_split(types, d, e, w, h - 1) {
            lemma_split_gives(types, c, d, w, h - 1);
        }
    }
    d
}

/// Two layouts stacked at width `w` are exactly `h` high, or side by side at height `h` no wider
/// than `w`.
pub open spec fn splits_at(f: Seq<(u32, u32)>, g: Seq<(u32, u32)>, w: int, h: int) -> bool {
    ||| sum_of(height_at(f, w), height_at(g, w)) == Some(h)
    ||| sum_of(width_at(f, h), width_at(g, h)) matches Some(v) && v <= w
}

fn join_spots(a: Vec<TypeSpot>, b: &Vec<TypeSpot>) -> (r: Vec<TypeSpot>)
    ensures
        r@ == a@ + b@,
{
    let mut out = a;
    let mut k: usize = 0;
    assert(out@ =~= a@ + b@.take(0));
    while k < b.len()
        invariant
            k <= b@.len(),
            out@ == a@ + b@.take(k as int),
        decreases b@.len() - k,
    {
        out.push(b[k]);
        k += 1;
        assert(out@ =~= a@ + b@.take(k as int));
    }
    assert(b@.take(k as int) =~= b@);
    out
}

/// The layout function of a multiset inside the sheet.
pub open spec fn sheet_layout(e: Terms, c: Seq<nat>) -> Seq<(u32, u32)> {
    choose|f: Seq<(u32, u32)>| clipped_layout(e.types, c, e.sw, e.sh, f)
}

/// There is one layout function of a multiset.
proof fn lemma_sheet_layout(e: Terms, c: Seq<nat>, f: Seq<(u32, u32)>)
    requires
        clipped_layout(e.types, c, e.sw, e.sh, f),
    ensures
        sheet_layout(e, c) == f,
{
    let g = sheet_layout(e, c);
    assert(clipped_layout(e.types, c, e.sw, e.sh, g));
    assert forall|x: int| height_at(f, x) == height_at(g, x) by {
        if let Some(v) = height_at(f, x) {
            assert(reaches(f, x, v));
            assert(reaches(g, x, v));
            assert(!reaches(f, x, v - 1));
            assert(!reaches(g, x, v - 1));
        } else if let Some(v) = height_at(g, x) {
            assert(reaches(g, x, v));
            assert(reaches(f, x, v));
        }
    }
    law_step_function_is_canonical(f, g);
}

/// The work done after a layout was looked for, and the layout where it was found.
pub struct Rebuilt {
    pub work: Work,
    pub spots: Option<Seq<TypeSpot>>,
}

/// The spots of two parts, the second looked for where the first was found.
pub open spec fn both_rebuilt(first: Rebuilt, second: Rebuilt) -> Rebuilt {
    match (first.spots, second.spots) {
        (Some(a), Some(b)) => Rebuilt { work: second.work, spots: Some(a + b) },
        (Some(_), None) => second,
        _ => first,
    }
}

/// The layout of a multiset in the region of `w` x `h` at `(x, y)`: a single piece in its corner,
/// not turned where it need not be; else by the first split that gives the height.
pub open spec fn rebuilt(e: Terms, wk: Work, c: Seq<nat>, x: int, y: int, w: int, h: int) -> Rebuilt
    decreases total(c), 1nat, 0nat,
{
    if total(c) <= 1 {
        let t = choose|t: int| 0 <= t < c.len() && #[trigger] c[t] == 1;
        Rebuilt {
            work: wk,
            spots: Some(
                seq![
                    TypeSpot {
                        type_idx: t as usize,
                        x: x as u32,
                        y: y as u32,
                        rotated: !(e.types[t].width <= w && e.types[t].height <= h),
                    },
                ],
            ),
        }
    } else {
        rebuilt_from(e, wk, c, x, y, w, h, 1)
    }
}

/// The layout by the first split from number `k` on that gives the height: its parts, which are
/// evaluated for this, stacked to exactly the height, or else side by side within the width.
pub open spec fn rebuilt_from(
    e: Terms,
    wk: Work,
    c: Seq<nat>,
    x: int,
    y: int,
    w: int,
    h: int,
    k: nat,
) -> Rebuilt
    decreases total(c), 0nat, index_of(c, c) - k,
{
    let d = digits(k, c);
    let rest = minus(c, d);
    if k >= index_of(c, c) || total(d) >= total(c) || total(rest) >= total(c) {
        Rebuilt { work: wk, spots: None }
    } else {
        let a = evaluated(e, wk, d);
        let b = evaluated(e, a.work, rest);
        if !a.done {
            Rebuilt { work: a.work, spots: None }
        } else if !fits(e.types, d, e.sw, e.sh) {
            rebuilt_from(e, a.work, c, x, y, w, h, k + 1)
        } else if !b.done {
            Rebuilt { work: b.work, spots: None }
        } else if !fits(e.types, rest, e.sw, e.sh) {
            rebuilt_from(e, b.work, c, x, y, w, h, k + 1)
        } else {
            let (fa, fb) = (sheet_layout(e, d), sheet_layout(e, rest));
            let stacked = if sum_of(height_at(fa, w), height_at(fb, w)) == Some(h) {
                let h1 = height_at(fa, w)->0;
                let top = rebuilt(e, b.work, d, x, y, w, h1);
                both_rebuilt(top, rebuilt(e, top.work, rest, x, y + h1, w, h - h1))
            } else {
                Rebuilt { work: b.work, spots: None }
            };
            let beside = match sum_of(width_at(fa, h), width_at(fb, h)) {
                Some(v) if v <= w => {
                    let (w1, w2) = (width_at(fa, h)->0, width_at(fb, h)->0);
                    let (h1, h2) = (height_at(fa, w1)->0, height_at(fb, w2)->0);
                    let left = rebuilt(e, stacked.work, d, x, y, w1, h1);
                    both_rebuilt(left, rebuilt(e, left.work, rest, x + w1, y, w2, h2))
                },
                _ => stacked,
            };
            if stacked.spots is Some {
                stacked
            } else if beside.spots is Some {
                beside
            } else {
                rebuilt_from(e, beside.work, c, x, y, w, h, k + 1)
            }
        }
    }
}

/// The layout of a multiset on the sheet, at the least height for its full width.
pub open spec fn rebuilt_on_sheet(e: Terms, wk: Work, c: Seq<nat>) -> Rebuilt {
    let a = evaluated(e, wk, c);
    match height_at(sheet_layout(e, c), e.sw) {
        Some(h) if a.done => rebuilt(e, a.work, c, 0, 0, e.sw, h),
        _ => Rebuilt { work: a.work, spots: None },
    }
}

/// The spots of a layout that may not have been found.
pub open spec fn found_spots(r: Option<Vec<TypeSpot>>) -> Option<Seq<TypeSpot>> {
    match r {
        Some(spots) => Some(spots@),
        None => None,
    }
}

impl GlfOracle {
    /// A layout of the pieces of a multiset in the region at `(x, y)`, where their layout
    /// function has the value `h` at width `w`: the first split that gives that value, and
    /// layouts of its parts.
    #[verifier::rlimit(40)]
    fn rec(&mut self, types: &Vec<PType>, key: &Vec<u32>, x: u32, y: u32, w: u32, h: u32) -> (r:
        Option<Vec<TypeSpot>>)
        requires
            old(self).wf(kinds(types@)),
            types_ok(types@, old(self).sheet_w as int, old(self).sheet_h as int),
            key@.len() == types@.len(),
            total(nats(key@)) > 0,
            x + w <= old(self).sheet_w,
            y + h <= old(self).sheet_h,
            exists|f: Seq<(u32, u32)>|
                #![trigger height_at(f, w as int)]
                clipped_layout(
                    kinds(types@),
                    nats(key@),
                    old(self).sheet_w as int,
                    old(self).sheet_h as int,
                    f,
                ) && height_at(f, w as int) == Some(h as int),
        ensures
            final(self).wf(kinds(types@)),
            final(self).follows(*old(self)),
            match r {
                Some(spots) => lays_out(
                    kinds(types@),
                    nats(key@),
                    spots@,
                    region(x as int, y as int, w as int, h as int),
                ) && (spent(old(self).work(), final(self).work(), nats(key@)) || old(
                    self,
                ).short_for(nats(key@))),
                None => final(self).exhausted() && old(self).short_for(nats(key@)),
            },
            (Rebuilt { work: final(self).work(), spots: found_spots(r) }) == rebuilt(
                old(self).terms(kinds(types@)),
                old(self).work(),
                nats(key@),
                x as int,
                y as int,
                w as int,
                h as int,
            ),
        decreases total(nats(key@)),
    {
        let ghost ts = kinds(types@);
        let ghost c = nats(key@);
        let ghost terms = self.terms(ts);
        let ghost (sw, sh) = (self.sheet_w as int, self.sheet_h as int);
        let ghost f = choose|f: Seq<(u32, u32)>|
            #![trigger height_at(f, w as int)]
            clipped_layout(ts, c, sw, sh, f) && height_at(f, w as int) == Some(h as int);
        let ghost w0 = self.work();
        proof {
            lemma_spent_none(w0, c);
        }
        if let Some(ti) = single_of(key) {
            let t = &types[ti];
            proof {
                assert(reaches(f, w as int, h as int));
                assert(fits(ts, c, w as int, h as int));
                let j = choose|j: int|
                    0 <= j < c.len() && #[trigger] c[j] == 1 && single_fits(
                        ts[j],
                        w as int,
                        h as int,
                    );
                assert(c[ti as int] == 1);
                lemma_only_one(c, ti as int, j);
                let t = choose|t: int| 0 <= t < c.len() && #[trigger] c[t] == 1;
                lemma_only_one(c, ti as int, t);
            }
            let rotated = !(t.width <= w && t.height <= h);
            let spot = TypeSpot { type_idx: ti, x, y, rotated };
            let mut out: Vec<TypeSpot> = Vec::new();
            out.push(spot);
            proof {
                lemma_lone(
                    ts,
                    c,
                    ti as int,
                    spot,
                    x as int,
                    y as int,
                    w as int,
                    h as int,
                );
                assert(out@ =~= seq![spot]);
            }
            return Some(out);
        }
        let mut split = no_pieces(key.len());
        let ghost goal = lemma_split_found(ts, c, f, sw, sh, w as int, h as int);
        proof {
            lemma_none_index(nats(split@), c);
            lemma_part_index(goal, c, c);
            assert(goal != c);
        }
        while next_split(&mut split, key)
            invariant_except_break
                self.exhausted() && old(self).short_for(c) || (index_of(nats(split@), c)
                    < index_of(goal, c) && spent(w0, self.work(), c)),
                rebuilt(terms, w0, c, x as int, y as int, w as int, h as int) == rebuilt_from(
                    terms,
                    self.work(),
                    c,
                    x as int,
                    y as int,
                    w as int,
                    h as int,
                    index_of(nats(split@), c) + 1,
                ),
            invariant
                terms == self.terms(ts),
                ts == kinds(types@),
                c == nats(key@),
                total(c) > 1,
                key@.len() == types@.len(),
                self.wf(ts),
                self.follows(*old(self)),
                w0 == old(self).work(),
                sw == self.sheet_w,
                sh == self.sheet_h,
                types_ok(types@, sw, sh),
                x + w <= sw,
                y + h <= sh,
                part_of(nats(split@), c),
                proper_part(goal, c),
                index_of(goal, c) < index_of(c, c),
                via_split(ts, goal, minus(c, goal), w as int, h as int),
                forall|fa: Seq<(u32, u32)>, fb: Seq<(u32, u32)>|
                    clipped_layout(ts, goal, sw, sh, fa) && clipped_layout(
                        ts,
                        minus(c, goal),
                        sw,
                        sh,
                        fb,
                    ) ==> #[trigger] splits_at(fa, fb, w as int, h as int),
            ensures
                self.exhausted() && old(self).short_for(c),
                rebuilt(terms, w0, c, x as int, y as int, w as int, h as int) == (Rebuilt {
                    work: self.work(),
                    spots: None,
                }),
            decreases capacity(c) - index_of(nats(split@), c),
        {
            let ghost d = nats(split@);
            proof {
                law_index_then_digits(d, c);
                lemma_part_index(d, c, c);
                if index_of(d, c) == index_of(goal, c) {
                    lemma_same_index(d, goal, c);
                }
            }
            if is_full_split(&split, key) {
                assert(d == c);
                continue;
            }
            let rest = counts_minus(key, &split);
            let ghost e = nats(rest@);
            proof {
                if d == c {
                    assert(split@ =~= key@) by {
                        assert forall|i: int| 0 <= i < key@.len() implies split@[i]
                            == key@[i] by {
                            assert(d[i] == c[i]);
                        }
                    }
                }
                lemma_proper(d, c);
                lemma_total_minus(c, d);
            }
            let ghost w1 = self.work();
            let ghost (cells, splits) = (self.max_cells as int, self.max_splits as int);
            let fa = match self.eval(types, &split) {
                Ok(fa) => fa,
                Err(_) => {
                    proof {
                        if spent(w0, w1, c) {
                            lemma_starved_before(w0, w1, 0, cells, splits, d, c);
                        }
                    }
                    return None;
                },
            };
            let ghost w2 = self.work();
            proof {
                lemma_part_done(w0, w1, w2, d, c);
                lemma_has_layout(ts, d, sw, sh, fa@);
                lemma_sheet_layout(terms, d, fa@);
            }
            if fa.len() == 0 {
                proof {
                    if d == goal {
                        lemma_empty(fa@, w as int, h as int);
                        lemma_no_layout(ts, d, e, fa@, sw, sh);
                        assert(via_split(ts, d, e, w as int, h as int));
                    }
                }
                continue;
            }
            let fb = match self.eval(types, &rest) {
                Ok(fb) => fb,
                Err(_) => {
                    proof {
                        if spent(w0, w2, c) {
                            lemma_starved_before(w0, w2, 0, cells, splits, e, c);
                        }
                    }
                    return None;
                },
            };
            let ghost w3 = self.work();
            proof {
                lemma_part_done(w0, w2, w3, e, c);
                lemma_has_layout(ts, e, sw, sh, fb@);
                lemma_sheet_layout(terms, e, fb@);
            }
            if fb.len() == 0 {
                proof {
                    if d == goal {
                        lemma_empty(fb@, w as int, h as int);
                        assert(splits_at(fa@, fb@, w as int, h as int));
                    }
                }
                continue;
            }
            proof {
                if d == goal {
                    assert(splits_at(fa@, fb@, w as int, h as int));
                }
                lemma_inside(fa@, sw, sh, w as int);
                lemma_inside(fb@, sw, sh, w as int);
                lemma_inside(fa@, sw, sh, h as int);
                lemma_inside(fb@, sw, sh, h as int);
            }
            if let (Some(h1), Some(h2)) = (eval_f(&fa, w), eval_f(&fb, w)) {
                if h1 + h2 == h {
                    assert(height_at(fa@, w as int) == Some(h1 as int));
                    assert(height_at(fb@, w as int) == Some(h2 as int));
                    let top = self.rec(types, &split, x, y, w, h1);
                    let ghost w4 = self.work();
                    let bottom = if top.is_some() {
                        self.rec(types, &rest, x, y + h1, w, h2)
                    } else {
                        None
                    };
                    proof {
                        if spent(w0, w3, c) {
                            if !spent(w3, w4, d) || top is None {
                                lemma_starved_before(w0, w3, 0, cells, splits, d, c);
                            } else {
                                lemma_part_done(w0, w3, w4, d, c);
                                if !spent(w4, self.work(), e) || bottom is None {
                                    lemma_starved_before(w0, w4, 0, cells, splits, e, c);
                                } else {
                                    lemma_part_done(w0, w4, self.work(), e, c);
                                }
                            }
                        }
                    }
                    if let (Some(a), Some(b)) = (top, bottom) {
                        proof {
                            lemma_stacked(
                                ts,
                                c,
                                d,
                                a@,
                                b@,
                                x as int,
                                y as int,
                                w as int,
                                h1 as int,
                                h2 as int,
                            );
                        }
                        return Some(join_spots(a, &b));
                    }
                }
            }
            if let (Some(w1), Some(w2)) = (eval_f_inv(&fa, h), eval_f_inv(&fb, h)) {
                if w1 + w2 <= w {
                    proof {
                        lemma_width_value(fa@, h as int);
                        lemma_width_value(fb@, h as int);
                        lemma_inside(fa@, sw, sh, w1 as int);
                        lemma_inside(fb@, sw, sh, w2 as int);
                    }
                    let h1: u32 = match eval_f(&fa, w1) {
                        Some(v) => v,
                        None => h,
                    };
                    let h2: u32 = match eval_f(&fb, w2) {
                        Some(v) => v,
                        None => h,
                    };
                    assert(height_at(fa@, w1 as int) == Some(h1 as int));
                    assert(height_at(fb@, w2 as int) == Some(h2 as int));
                    let ghost w5 = self.work();
                    let left = self.rec(types, &split, x, y, w1, h1);
                    let ghost w6 = self.work();
                    let right = if left.is_some() {
                        self.rec(types, &rest, x + w1, y, w2, h2)
                    } else {
                        None
                    };
                    proof {
                        if spent(w0, w5, c) {
                            if !spent(w5, w6, d) || left is None {
                                lemma_starved_before(w0, w5, 0, cells, splits, d, c);
                            } else {
                                lemma_part_done(w0, w5, w6, d, c);
                                if !spent(w6, self.work(), e) || right is None {
                                    lemma_starved_before(w0, w6, 0, cells, splits, e, c);
                                } else {
                                    lemma_part_done(w0, w6, self.work(), e, c);
                                }
                            }
                        }
                    }
                    if let (Some(a), Some(b)) = (left, right) {
                        proof {
                            lemma_beside(
                                ts,
                                c,
                                d,
                                a@,
                                b@,
                                x as int,
                                y as int,
                                w as int,
                                h as int,
                                w1 as int,
                                h1 as int,
                                w2 as int,
                                h2 as int,
                            );
                        }
                        return Some(join_spots(a, &b));
                    }
                }
            }
        }
        None
    }

    /// A layout of the pieces of a multiset on the sheet.
    pub fn recon(&mut self, types: &Vec<PType>, key: &Vec<u32>) -> (r: Option<Vec<TypeSpot>>)
        requires
            old(self).wf(kinds(types@)),
            types_ok(types@, old(self).sheet_w as int, old(self).sheet_h as int),
            key@.len() == types@.len(),
            total(nats(key@)) > 0,
        ensures
            final(self).wf(kinds(types@)),
            final(self).follows(*old(self)),
            match r {
                Some(spots) => {
                    &&& fits(
                        kinds(types@),
                        nats(key@),
                        final(self).sheet_w as int,
                        final(self).sheet_h as int,
                    )
                    &&& on_sheet(
                        kinds(types@),
                        nats(key@),
                        spots@,
                        final(self).sheet_w as int,
                        final(self).sheet_h as int,
                    )
                },
                None => (final(self).exhausted() && old(self).short_for(nats(key@))) || !fits(
                    kinds(types@),
                    nats(key@),
                    final(self).sheet_w as int,
                    final(self).sheet_h as int,
                ),
            },
            (Rebuilt { work: final(self).work(), spots: found_spots(r) }) == rebuilt_on_sheet(
                old(self).terms(kinds(types@)),
                old(self).work(),
                nats(key@),
            ),
    {
        let ghost w0 = self.work();
        let ghost c = nats(key@);
        let ghost terms = self.terms(kinds(types@));
        let ghost (sw, sh) = (self.sheet_w as int, self.sheet_h as int);
        let f = match self.eval(types, key) {
            Ok(f) => f,
            Err(_) => {
                return None;
            },
        };
        proof {
            lemma_inside(f@, sw, sh, sw);
            lemma_sheet_layout(terms, c, f@);
            assert(reaches(f@, sw, sh) <==> fits(kinds(types@), nats(key@), sw, sh));
        }
        match eval_f(&f, self.sheet_w) {
            Some(h) => {
                assert(height_at(f@, sw) == Some(h as int));
                let ghost w1 = self.work();
                let r = self.rec(types, key, 0, 0, self.sheet_w, h);
                proof {
                    assert(part_of(c, c));
                    if r is None {
                        lemma_starved_before(
                            w0,
                            w1,
                            0,
                            self.max_cells as int,
                            self.max_splits as int,
                            c,
                            c,
                        );
                    }
                }
                r
            },
            None => None,
        }
    }
}

/// A function without breakpoints splits nothing.
proof fn lemma_empty(f: Seq<(u32, u32)>, w: int, h: int)
    requires
        f.len() == 0,
    ensures
        height_at(f, w) is None,
        width_at(f, h) is None,
{
}

} // verus!
