//! Tables of layout functions as text.

use vstd::prelude::*;
use vstd::string::{StrSliceExecFns, StringExecFns};

use super::table::{
    digits, full_set, lemma_total_capacity, lemma_total_part, nats, sum_counts, total, GpfTable,
};
use super::{eval_f, height_at, StepFn};
use crate::sorting::{order_of, ranked, Order, Ranking};
use crate::text::{append_number, decimal};

verus! {

/// `n` times the same character.
pub open spec fn repeated(c: char, n: nat) -> Seq<char> {
    Seq::new(n, |i: int| c)
}

/// A text filled up with spaces to `n` characters.
pub open spec fn padded(s: Seq<char>, n: nat) -> Seq<char> {
    if s.len() >= n {
        s
    } else {
        s + repeated(' ', (n - s.len()) as nat)
    }
}

fn append_repeated(out: &mut String, one: &str, n: usize)
    requires
        one@.len() == 1,
    ensures
        final(out)@ == old(out)@ + repeated(one@[0], n as nat),
{
    let ghost before = out@;
    let mut k: usize = 0;
    assert(out@ =~= before + repeated(one@[0], 0));
    while k < n
        invariant
            k <= n,
            one@.len() == 1,
            out@ == before + repeated(one@[0], k as nat),
        decreases n - k,
    {
        out.append(one);
        k += 1;
        assert(out@ =~= before + repeated(one@[0], k as nat));
    }
}

fn append_padded(out: &mut String, s: &str, n: usize)
    ensures
        final(out)@ == old(out)@ + padded(s@, n as nat),
{
    proof {
        reveal_strlit(" ");
    }
    let len: usize = s.unicode_len();
    out.append(s);
    if len < n {
        append_repeated(out, " ", n - len);
        assert(out@ =~= old(out)@ + padded(s@, n as nat));
    }
}

/// The label of a type: a letter, or a number where letters run out.
pub open spec fn type_label(i: nat) -> Seq<char> {
    if i < 26 {
        LETTERS@.subrange(i as int, i as int + 1)
    } else {
        "T"@ + decimal(i)
    }
}

pub const LETTERS: &'static str = "ABCDEFGHIJKLMNOPQRSTUVWXYZ";

fn append_label(out: &mut String, i: usize)
    ensures
        final(out)@ == old(out)@ + type_label(i as nat),
{
    if i < 26 {
        proof {
            reveal_strlit("ABCDEFGHIJKLMNOPQRSTUVWXYZ");
        }
        out.append(LETTERS.substring_char(i, i + 1));
    } else {
        out.append("T");
        append_number(out, i as u64);
        assert(out@ =~= old(out)@ + type_label(i as nat));
    }
}

/// One type of a subset, with its number of pieces if there are more than one.
pub open spec fn part_text(i: nat, k: u32) -> Seq<char> {
    if k == 1 {
        type_label(i)
    } else {
        decimal(k as nat) + "·"@ + type_label(i)
    }
}

/// The types of a subset among the first `k`.
pub open spec fn parts_text(counts: Seq<u32>, k: nat) -> Seq<char>
    decreases k,
{
    if k == 0 {
        Seq::empty()
    } else {
        let rest = parts_text(counts, (k - 1) as nat);
        if counts[k - 1] == 0 {
            rest
        } else if rest.len() == 0 {
            part_text((k - 1) as nat, counts[k - 1])
        } else {
            rest + ","@ + part_text((k - 1) as nat, counts[k - 1])
        }
    }
}

/// A subset of the pieces.
pub open spec fn subset_text(counts: Seq<u32>) -> Seq<char> {
    "{"@ + parts_text(counts, counts.len()) + "}"@
}

fn subset_label(counts: &Vec<u32>) -> (r: String)
    ensures
        r@ == subset_text(counts@),
{
    let mut parts = String::new();
    let mut k: usize = 0;
    while k < counts.len()
        invariant
            k <= counts@.len(),
            parts@ == parts_text(counts@, k as nat),
        decreases counts@.len() - k,
    {
        let c: u32 = counts[k];
        if c > 0 {
            if parts.as_str().unicode_len() > 0 {
                parts.append(",");
            }
            if c != 1 {
                append_number(&mut parts, c as u64);
                parts.append("·");
            }
            append_label(&mut parts, k);
            assert(parts@ =~= parts_text(counts@, (k + 1) as nat));
        }
        k += 1;
    }
    let mut out = String::from_str("{");
    out.append(parts.as_str());
    out.append("}");
    out
}

/// The first `k` breakpoints of a function.
pub open spec fn points_text(f: Seq<(u32, u32)>, k: nat) -> Seq<char>
    decreases k,
{
    if k == 0 {
        Seq::empty()
    } else {
        let p = f[k - 1];
        let one = "("@ + decimal(p.0 as nat) + ","@ + decimal(p.1 as nat) + ")"@;
        if k == 1 {
            one
        } else {
            points_text(f, (k - 1) as nat) + ", "@ + one
        }
    }
}

/// A step function.
pub open spec fn step_text(f: Seq<(u32, u32)>) -> Seq<char> {
    if f.len() == 0 {
        "∞"@
    } else {
        "["@ + points_text(f, f.len()) + "]"@
    }
}

fn format_step_fn(f: &StepFn) -> (r: String)
    ensures
        r@ == step_text(f@),
{
    if f.len() == 0 {
        return String::from_str("∞");
    }
    let mut points = String::new();
    let mut k: usize = 0;
    while k < f.len()
        invariant
            k <= f@.len(),
            points@ == points_text(f@, k as nat),
        decreases f@.len() - k,
    {
        let (x, h) = f[k];
        if k > 0 {
            points.append(", ");
        }
        points.append("(");
        append_number(&mut points, x as u64);
        points.append(",");
        append_number(&mut points, h as u64);
        points.append(")");
        k += 1;
        assert(points@ =~= points_text(f@, k as nat));
    }
    let mut out = String::from_str("[");
    out.append(points.as_str());
    out.append("]");
    out
}

/// The subset with number `idx`.
pub open spec fn subset_at(table: GpfTable, idx: int) -> Seq<u32> {
    let d = digits(idx as nat, full_set(table.types@));
    Seq::new(d.len(), |i: int| d[i] as u32)
}

/// The numbers of the subsets, the empty one left out, that have a layout, among the first `k`.
pub open spec fn shown(table: GpfTable, k: nat) -> Seq<usize>
    decreases k,
{
    if k <= 1 {
        Seq::empty()
    } else if table.cells@[k - 1]@.len() == 0 {
        shown(table, (k - 1) as nat)
    } else {
        shown(table, (k - 1) as nat).push((k - 1) as usize)
    }
}

/// Subsets by their number of pieces.
pub struct SizeOrder {
    pub sizes: Seq<nat>,
}

impl Order for SizeOrder {
    open spec fn ranks(self, i: int) -> bool {
        0 <= i < self.sizes.len()
    }

    open spec fn leq(self, a: int, b: int) -> bool {
        self.sizes[a] <= self.sizes[b]
    }

    proof fn leq_total(self, a: int, b: int) {
    }

    proof fn leq_trans(self, a: int, b: int, c: int) {
    }
}

struct SizeRanking<'a> {
    sizes: &'a Vec<usize>,
}

impl<'a> Ranking for SizeRanking<'a> {
    type Of = SizeOrder;

    closed spec fn order(&self) -> SizeOrder {
        SizeOrder { sizes: Seq::new(self.sizes@.len(), |i: int| self.sizes@[i] as nat) }
    }

    fn at_most(&self, a: usize, b: usize) -> (r: bool) {
        self.sizes[a] <= self.sizes[b]
    }
}

/// The numbers of pieces of subsets.
pub open spec fn sizes_of(table: GpfTable, list: Seq<usize>) -> Seq<nat> {
    Seq::new(list.len(), |i: int| total(digits(list[i] as nat, full_set(table.types@))))
}

/// One line of the table.
pub open spec fn row_text(table: GpfTable, idx: int, width: u32) -> Seq<char> {
    let f = table.cells@[idx]@;
    padded(subset_text(subset_at(table, idx)), 20) + "  "@ + padded(step_text(f), 40) + "  "@ + (
    match height_at(f, width as int) {
        Some(v) => decimal(v as nat),
        None => "∞"@,
    })
}

/// The lines of the first `k` subsets in order, each behind a line end.
pub open spec fn rows_text(
    table: GpfTable,
    list: Seq<usize>,
    order: Seq<usize>,
    width: u32,
    k: nat,
) -> Seq<char>
    decreases k,
{
    if k == 0 {
        Seq::empty()
    } else {
        rows_text(table, list, order, width, (k - 1) as nat) + "\n"@ + row_text(
            table,
            list[order[k - 1] as int] as int,
            width,
        )
    }
}

/// The table as text: subsets with a layout by their number of pieces, each with its step
/// function and the value at a width.
pub open spec fn table_text(table: GpfTable, width: u32) -> Seq<char> {
    let list = shown(table, table.cells@.len());
    let order = order_of(SizeOrder { sizes: sizes_of(table, list) }, list.len());
    padded("Subset"@, 20) + "  "@ + padded("Step function"@, 40) + "  f("@ + decimal(width as nat)
        + ")"@ + "\n"@ + repeated('-', 70) + rows_text(table, list, order, width, list.len())
}

proof fn lemma_shown(table: GpfTable, k: nat)
    requires
        k <= table.cells@.len() <= usize::MAX,
    ensures
        forall|i: int|
            0 <= i < shown(table, k).len() ==> 1 <= (#[trigger] shown(table, k)[i]) < k,
    decreases k,
{
    if k > 1 {
        lemma_shown(table, (k - 1) as nat);
        let (a, b) = (shown(table, (k - 1) as nat), shown(table, k));
        assert forall|i: int| 0 <= i < b.len() implies 1 <= (#[trigger] b[i]) < k by {
            if i < a.len() {
                assert(a[i] < k - 1);
            }
        }
    }
}

impl GpfTable {
    /// The table as text.
    pub fn display_table(&self, width: u32) -> (r: String)
        requires
            self.wf(),
        ensures
            r@ == table_text(*self, width),
    {
        let n: usize = self.total_subsets();
        let ghost full = full_set(self.types@);
        assert(n == self.cells@.len());
        let mut list: Vec<usize> = Vec::new();
        let mut sizes: Vec<usize> = Vec::new();
        let mut k: usize = 1;
        assert(list@ =~= shown(*self, 1));
        assert(sizes@.len() == 0);
        while k < n
            invariant
                1 <= k,
                k <= n || n == 0,
                n == self.cells@.len(),
                self.wf(),
                full == full_set(self.types@),
                list@ == shown(*self, k as nat),
                sizes@.len() == list@.len(),
                forall|i: int|
                    0 <= i < list@.len() ==> #[trigger] sizes@[i] == total(
                        digits(list@[i] as nat, full),
                    ),
            decreases n - k,
        {
            if self.cells[k].len() > 0 {
                let counts = self.decode_index(k);
                proof {
                    lemma_total_capacity(full);
                    lemma_total_part(nats(counts@), full);
                }
                sizes.push(sum_counts(&counts));
                list.push(k);
            }
            k += 1;
        }
        let ranking = SizeRanking { sizes: &sizes };
        assert(ranking.order().sizes =~= sizes_of(*self, list@));
        let order = ranked(&ranking, sizes.len());
        proof {
            super::table::lemma_capacity_pos(full);
            lemma_shown(*self, n as nat);
            reveal_strlit("-");
        }
        let mut out = String::new();
        append_padded(&mut out, "Subset", 20);
        out.append("  ");
        append_padded(&mut out, "Step function", 40);
        out.append("  f(");
        append_number(&mut out, width as u64);
        out.append(")");
        out.append("\n");
        append_repeated(&mut out, "-", 70);
        let ghost head = out@;
        assert(head =~= padded("Subset"@, 20) + "  "@ + padded("Step function"@, 40) + "  f("@
            + decimal(width as nat) + ")"@ + "\n"@ + repeated('-', 70));
        let mut q: usize = 0;
        assert(out@ =~= head + rows_text(*self, list@, order@, width, 0));
        while q < order.len()
            invariant
                q <= order@.len(),
                order@.len() == list@.len(),
                n == self.cells@.len(),
                self.wf(),
                list@ == shown(*self, n as nat),
                forall|i: int| 0 <= i < list@.len() ==> 1 <= (#[trigger] list@[i]) < n,
                forall|i: int| 0 <= i < order@.len() ==> (#[trigger] order@[i]) < list@.len(),
                out@ == head + rows_text(*self, list@, order@, width, q as nat),
            decreases order@.len() - q,
        {
            assert(order@[q as int] < list@.len());
            let idx: usize = list[order[q]];
            assert(1 <= list@[order@[q as int] as int] < n);
            let ghost before = out@;
            let counts = self.decode_index(idx);
            proof {
                let d = digits(idx as nat, full_set(self.types@));
                assert(counts@ =~= subset_at(*self, idx as int)) by {
                    assert forall|i: int| 0 <= i < counts@.len() implies counts@[i] == subset_at(
                        *self,
                        idx as int,
                    )[i] by {
                        assert(nats(counts@)[i] == d[i]);
                    }
                }
            }
            out.append("\n");
            let label = subset_label(&counts);
            append_padded(&mut out, label.as_str(), 20);
            out.append("  ");
            let step = format_step_fn(&self.cells[idx]);
            append_padded(&mut out, step.as_str(), 40);
            out.append("  ");
            match eval_f(&self.cells[idx], width) {
                Some(h) => append_number(&mut out, h as u64),
                None => out.append("∞"),
            }
            q += 1;
            assert(out@ =~= before + "\n"@ + row_text(*self, idx as int, width));
            assert(out@ =~= head + rows_text(*self, list@, order@, width, q as nat));
        }
        out
    }
}

} // verus!
