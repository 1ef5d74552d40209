//! Results and settings as text, and problems from a form.

use vstd::prelude::*;
use vstd::string::{StrSliceExecFns, StringExecFns};

use crate::ga::{GaConfig, CERTAIN};
use crate::model::{PieceType, ProblemSpec, Sheet};
use crate::parse::FlatProblem;
use crate::render::{escaped, xml_escape};
use crate::specs::{countable, counted, merged};
use crate::text::{
    append_hundredths, append_number, append_tenths, decimal, with_hundredths, with_tenths,
};

verus! {

/// The result of one seed.
pub struct ResultRow {
    pub seed: u64,
    pub sheets: usize,
    pub objective: u64,
    /// Number of pieces on the last sheet.
    pub last_n: usize,
    /// What is on the last sheet.
    pub summary: String,
}

/// One line of the table.
pub open spec fn row_html(row: ResultRow) -> Seq<char> {
    "<tr><td>"@ + decimal(row.seed as nat) + "</td><td>"@ + decimal(row.sheets as nat)
        + "</td><td>"@ + decimal(row.objective as nat) + "</td><td>"@ + decimal(row.last_n as nat)
        + "</td><td>"@ + escaped(row.summary@) + "</td></tr>\n"@
}

/// The first `k` lines of the table.
pub open spec fn rows_html(rows: Seq<ResultRow>, k: nat) -> Seq<char>
    decreases k,
{
    if k == 0 {
        Seq::empty()
    } else {
        rows_html(rows, (k - 1) as nat) + row_html(rows[k - 1])
    }
}

/// The line above the table.
pub open spec fn head_html(problem: FlatProblem, elapsed_ms: u64) -> Seq<char> {
    "<p><b>Done in "@ + with_tenths(elapsed_ms as nat, 1000) + "s</b> — "@ + decimal(
        problem.pieces@.len(),
    ) + " pieces on "@ + decimal(problem.sheet.width as nat) + "×"@ + decimal(
        problem.sheet.height as nat,
    ) + " sheet, kerf="@ + decimal(problem.kerf as nat) + "</p>\n"@
}

/// The line below the table.
pub open spec fn best_html(row: ResultRow) -> Seq<char> {
    "<p>Best — seed="@ + decimal(row.seed as nat) + "  obj="@ + decimal(row.objective as nat)
        + "  sheets="@ + decimal(row.sheets as nat) + "  last="@ + decimal(row.last_n as nat)
        + ": "@ + escaped(row.summary@) + "</p>\n"@
}

/// The table of results with a line above and below.
pub open spec fn page_html(problem: FlatProblem, rows: Seq<ResultRow>, elapsed_ms: u64) -> Seq<char> {
    head_html(problem, elapsed_ms)
        + "<table><thead><tr><th>seed</th><th>sheets</th><th>objective</th><th>last_n</th><th>last sheet</th></tr></thead><tbody>\n"@
        + rows_html(rows, rows.len()) + "</tbody></table>\n"@ + best_html(rows[0])
}

fn append_row(out: &mut String, row: &ResultRow)
    ensures
        final(out)@ == old(out)@ + row_html(*row),
{
    out.append("<tr><td>");
    append_number(out, row.seed);
    out.append("</td><td>");
    append_number(out, row.sheets as u64);
    out.append("</td><td>");
    append_number(out, row.objective);
    out.append("</td><td>");
    append_number(out, row.last_n as u64);
    out.append("</td><td>");
    let summary = xml_escape(row.summary.as_str());
    out.append(summary.as_str());
    out.append("</td></tr>\n");
    assert(out@ =~= old(out)@ + row_html(*row));
}

fn append_head(out: &mut String, problem: &FlatProblem, elapsed_ms: u64)
    ensures
        final(out)@ == old(out)@ + head_html(*problem, elapsed_ms),
{
    out.append("<p><b>Done in ");
    append_tenths(out, elapsed_ms as u128, 1000);
    out.append("s</b> — ");
    append_number(out, problem.pieces.len() as u64);
    out.append(" pieces on ");
    append_number(out, problem.sheet.width as u64);
    out.append("×");
    append_number(out, problem.sheet.height as u64);
    out.append(" sheet, kerf=");
    append_number(out, problem.kerf as u64);
    out.append("</p>\n");
    assert(out@ =~= old(out)@ + head_html(*problem, elapsed_ms));
}

fn append_best(out: &mut String, row: &ResultRow)
    ensures
        final(out)@ == old(out)@ + best_html(*row),
{
    out.append("<p>Best — seed=");
    append_number(out, row.seed);
    out.append("  obj=");
    append_number(out, row.objective);
    out.append("  sheets=");
    append_number(out, row.sheets as u64);
    out.append("  last=");
    append_number(out, row.last_n as u64);
    out.append(": ");
    let summary = xml_escape(row.summary.as_str());
    out.append(summary.as_str());
    out.append("</p>\n");
    assert(out@ =~= old(out)@ + best_html(*row));
}

/// The results of all seeds, the best one first, as a table.
pub fn results_html(problem: &FlatProblem, rows: &Vec<ResultRow>, elapsed_ms: u64) -> (r: String)
    requires
        rows@.len() > 0,
    ensures
        r@ == page_html(*problem, rows@, elapsed_ms),
{
    let mut out = String::new();
    append_head(&mut out, problem, elapsed_ms);
    out.append(
        "<table><thead><tr><th>seed</th><th>sheets</th><th>objective</th><th>last_n</th><th>last sheet</th></tr></thead><tbody>\n",
    );
    let ghost head = out@;
    let mut k: usize = 0;
    assert(out@ =~= head + rows_html(rows@, 0));
    while k < rows.len()
        invariant
            k <= rows@.len(),
            out@ == head + rows_html(rows@, k as nat),
        decreases rows@.len() - k,
    {
        append_row(&mut out, &rows[k]);
        k += 1;
        assert(out@ =~= head + rows_html(rows@, k as nat));
    }
    out.append("</tbody></table>\n");
    append_best(&mut out, &rows[0]);
    assert(out@ =~= page_html(*problem, rows@, elapsed_ms));
    out
}

/// A chance with two decimals.
pub open spec fn chance_text(p: u64) -> Seq<char> {
    with_hundredths(p as nat, CERTAIN as nat)
}

fn append_chance(out: &mut String, p: u64)
    ensures
        final(out)@ == old(out)@ + chance_text(p),
{
    append_hundredths(out, p as u128, CERTAIN as u128);
}

/// The settings in one line.
pub open spec fn config_text(c: GaConfig) -> Seq<char> {
    "pop="@ + decimal(c.pop_size as nat) + " gens="@ + decimal(c.iteration_count as nat)
        + " elite="@ + decimal(c.elite_count as nat) + " k="@ + decimal(c.tournament_size as nat)
        + " crossover_p="@ + chance_text(c.crossover_p) + " swap_p="@ + chance_text(c.swap_p)
        + " flip_p="@ + chance_text(c.flip_p) + " point_p="@ + chance_text(c.point_p) + " delta="@
        + decimal(c.point_delta.0 as nat) + "..="@ + decimal(c.point_delta.1 as nat)
        + " inverse_p="@ + chance_text(c.inverse_p) + " long_dim_threshold="@ + decimal(
        c.long_dim_threshold as nat,
    ) + " large_area_threshold="@ + decimal(c.large_area_threshold as nat)
}

impl GaConfig {
    /// The settings in one line.
    pub fn describe(&self) -> (r: String)
        ensures
            r@ == config_text(*self),
    {
        let mut out = String::from_str("pop=");
        append_number(&mut out, self.pop_size as u64);
        out.append(" gens=");
        append_number(&mut out, self.iteration_count as u64);
        out.append(" elite=");
        append_number(&mut out, self.elite_count as u64);
        out.append(" k=");
        append_number(&mut out, self.tournament_size as u64);
        out.append(" crossover_p=");
        append_chance(&mut out, self.crossover_p);
        out.append(" swap_p=");
        append_chance(&mut out, self.swap_p);
        out.append(" flip_p=");
        append_chance(&mut out, self.flip_p);
        out.append(" point_p=");
        append_chance(&mut out, self.point_p);
        out.append(" delta=");
        append_number(&mut out, self.point_delta.0 as u64);
        out.append("..=");
        append_number(&mut out, self.point_delta.1 as u64);
        out.append(" inverse_p=");
        append_chance(&mut out, self.inverse_p);
        out.append(" long_dim_threshold=");
        append_number(&mut out, self.long_dim_threshold as u64);
        out.append(" large_area_threshold=");
        append_number(&mut out, self.large_area_threshold as u64);
        assert(out@ =~= config_text(*self));
        out
    }
}

/// A problem from what a form holds: types in normal form, without a margin. There must be one.
pub fn build_problem(sheet_w: u32, sheet_h: u32, kerf: u32, pieces: Vec<PieceType>) -> (r: Result<
    ProblemSpec,
    String,
>)
    requires
        countable(merged(pieces@, pieces@.len())),
    ensures
        match r {
            Ok(spec) => {
                &&& pieces@.len() > 0
                &&& spec.sheet == (Sheet { width: sheet_w, height: sheet_h })
                &&& spec.kerf == kerf
                &&& spec.margin == 0
                &&& spec.piece_types@ == counted(merged(pieces@, pieces@.len()))
            },
            Err(message) => pieces@.len() == 0 && message@ == "no pieces specified"@,
        },
{
    if pieces.len() == 0 {
        return Err(String::from_str("no pieces specified"));
    }
    let mut spec = ProblemSpec {
        sheet: Sheet { width: sheet_w, height: sheet_h },
        kerf,
        margin: 0,
        piece_types: pieces,
    };
    spec.normalize();
    Ok(spec)
}

} // verus!
