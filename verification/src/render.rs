//! Solutions as drawings.
//!
//! Sheets are drawn 700 units wide, one below the other. All lengths are fractions with the width
//! of the sheet below the line, rounded where they are written.

use vstd::prelude::*;
use vstd::string::{StrSliceExecFns, StringExecFns};

use crate::model::{FreeRect, PieceType, PlacementSpec, ProblemSpec, SolutionSpec};
use crate::specs::{spec_cell, spec_sheets};
use crate::text::{
    append_number, append_rounded, append_tenths, decimal, rounded, with_tenths,
};

verus! {

/// Number of colours.
pub const COLOURS: usize = 12;

/// The colours of piece types, in turn.
pub open spec fn colour_of(i: int) -> Seq<char> {
    let c = i % 12;
    if c == 0 {
        "#FFB6C1"@
    } else if c == 1 {
        "#ADD8E6"@
    } else if c == 2 {
        "#90EE90"@
    } else if c == 3 {
        "#FFFF99"@
    } else if c == 4 {
        "#FFC878"@
    } else if c == 5 {
        "#DDA0DD"@
    } else if c == 6 {
        "#87CEEB"@
    } else if c == 7 {
        "#F0B4B4"@
    } else if c == 8 {
        "#B4FFB4"@
    } else if c == 9 {
        "#FFE4C4"@
    } else if c == 10 {
        "#C8C8FF"@
    } else {
        "#FFF0B4"@
    }
}

fn colour(i: usize) -> (r: &'static str)
    ensures
        r@ == colour_of(i as int),
{
    match i % COLOURS {
        0 => "#FFB6C1",
        1 => "#ADD8E6",
        2 => "#90EE90",
        3 => "#FFFF99",
        4 => "#FFC878",
        5 => "#DDA0DD",
        6 => "#87CEEB",
        7 => "#F0B4B4",
        8 => "#B4FFB4",
        9 => "#FFE4C4",
        10 => "#C8C8FF",
        _ => "#FFF0B4",
    }
}

/// A character as it is written in a drawing.
pub open spec fn escaped_char(c: char) -> Seq<char> {
    if c == '&' {
        "&amp;"@
    } else if c == '<' {
        "&lt;"@
    } else if c == '>' {
        "&gt;"@
    } else {
        seq![c]
    }
}

/// A text as it is written in a drawing.
pub open spec fn escaped(s: Seq<char>) -> Seq<char>
    decreases s.len(),
{
    if s.len() == 0 {
        Seq::empty()
    } else {
        escaped(s.drop_last()) + escaped_char(s.last())
    }
}

/// Replaces the characters that have a meaning of their own in a drawing.
pub fn xml_escape(s: &str) -> (r: String)
    ensures
        r@ == escaped(s@),
{
    let n: usize = s.unicode_len();
    let mut out = String::new();
    let mut i: usize = 0;
    assert(s@.take(0) =~= Seq::empty());
    while i < n
        invariant
            i <= n,
            n == s@.len(),
            out@ == escaped(s@.take(i as int)),
        decreases n - i,
    {
        let c = s.get_char(i);
        if c == '&' {
            out.append("&amp;");
        } else if c == '<' {
            out.append("&lt;");
        } else if c == '>' {
            out.append("&gt;");
        } else {
            let one = s.substring_char(i, i + 1);
            assert(one@ =~= seq![c]);
            out.append(one);
        }
        assert(s@.take(i + 1).drop_last() =~= s@.take(i as int));
        i += 1;
    }
    assert(s@.take(i as int) =~= s@);
    out
}

/// The distance of sheet `s` from the top, over the width of the sheet.
pub open spec fn sheet_top(sw: nat, sh: nat, s: nat) -> nat {
    (28 + 6 * s) * sw + s * sh * 700
}

/// The height of the drawing of `n` sheets, over the width of the sheet.
pub open spec fn drawing_height(sw: nat, sh: nat, n: nat) -> nat {
    (56 + 6 * ((n - 1) as nat)) * sw + n * sh * 700
}

/// A rectangle of a sheet, with what is written behind its sides.
pub open spec fn rect_text(sw: nat, top: nat, c: FreeRect, tail: Seq<char>) -> Seq<char> {
    "  <rect x=\""@ + with_tenths(28 * sw + c.x as nat * 700, sw) + "\" y=\""@ + with_tenths(
        top + c.y as nat * 700,
        sw,
    ) + "\" width=\""@ + with_tenths(c.w as nat * 700, sw) + "\" height=\""@ + with_tenths(
        c.h as nat * 700,
        sw,
    ) + tail
}

/// The free rectangles of sheet `s` among the first `k`.
pub open spec fn leftovers_text(
    spec: ProblemSpec,
    leftovers: Seq<FreeRect>,
    s: nat,
    k: nat,
) -> Seq<char>
    decreases k,
{
    if k == 0 {
        Seq::empty()
    } else {
        let rest = leftovers_text(spec, leftovers, s, (k - 1) as nat);
        let (sw, sh) = (spec.sheet.width as nat, spec.sheet.height as nat);
        if leftovers[k - 1].sheet_idx == s {
            rest + rect_text(
                sw,
                sheet_top(sw, sh, s),
                leftovers[k - 1],
                LEFTOVER_TAIL@,
            )
        } else {
            rest
        }
    }
}

pub const LEFTOVER_TAIL: &'static str =
    "\" fill=\"#e8e8e8\" stroke=\"#bbb\" stroke-width=\"1\" stroke-dasharray=\"8,4\"/>\n";

/// The lesser of two numbers.
pub open spec fn lesser(a: nat, b: nat) -> nat {
    if a <= b {
        a
    } else {
        b
    }
}

/// The size of a label in a piece, over the width of the sheet: a part of its shorter side, from
/// 7 up to 60.
pub open spec fn font_size(sw: nat, c: FreeRect) -> nat {
    let f = 98 * lesser(c.w as nat, c.h as nat);
    if f < 7 * sw {
        7 * sw
    } else if f > 60 * sw {
        60 * sw
    } else {
        f
    }
}

/// The height of the middle of a piece, twice, over the width of the sheet.
pub open spec fn middle(top: nat, c: FreeRect) -> nat {
    2 * top + (2 * c.y as nat + c.h as nat) * 700
}

/// A text in the middle of a piece, at a height of `y / (20 * sw)`.
pub open spec fn label_text(
    sw: nat,
    c: FreeRect,
    y: nat,
    fill: Seq<char>,
    label: Seq<char>,
) -> Seq<char> {
    "  <text x=\""@ + rounded(56 * sw + (2 * c.x as nat + c.w as nat) * 700, 2 * sw) + "\" y=\""@
        + rounded(y, 20 * sw)
        + "\" text-anchor=\"middle\" dominant-baseline=\"middle\" font-size=\""@ + rounded(
        font_size(sw, c),
        sw,
    ) + "\" fill=\""@ + fill + "\">"@ + label + "</text>\n"@
}

/// The name of a piece type, or its number where it has none.
pub open spec fn name_text(t: PieceType, i: nat) -> Seq<char> {
    if t.name@.len() == 0 {
        "#"@ + decimal(i)
    } else {
        escaped(t.name@)
    }
}

/// What is written on a piece: its name, where it is large enough, and its size below, where it
/// is high enough.
pub open spec fn labels_text(spec: ProblemSpec, pl: PlacementSpec, s: nat) -> Seq<char> {
    let (sw, sh) = (spec.sheet.width as nat, spec.sheet.height as nat);
    let c = spec_cell(spec.piece_types@, pl);
    let t = spec.piece_types@[pl.ptype_idx as int];
    let f = font_size(sw, c);
    let y = 10 * middle(sheet_top(sw, sh, s), c);
    let name = name_text(t, pl.ptype_idx as nat);
    if 25 * c.w < sw || 25 * c.h < sw {
        Seq::empty()
    } else if 7000 * c.h >= 24 * f {
        label_text(sw, c, (y - 11 * f) as nat, "#333"@, name) + label_text(
            sw,
            c,
            y + 11 * f,
            "#555"@,
            decimal(c.w as nat) + "×"@ + decimal(c.h as nat),
        )
    } else {
        label_text(sw, c, y, "#333"@, name)
    }
}

/// A piece with what is written on it.
pub open spec fn piece_text(spec: ProblemSpec, pl: PlacementSpec, s: nat) -> Seq<char> {
    let (sw, sh) = (spec.sheet.width as nat, spec.sheet.height as nat);
    rect_text(
        sw,
        sheet_top(sw, sh, s),
        spec_cell(spec.piece_types@, pl),
        "\" fill=\""@ + colour_of(pl.ptype_idx as int) + PIECE_TAIL@,
    ) + labels_text(spec, pl, s)
}

pub const PIECE_TAIL: &'static str = "\" stroke=\"#505050\" stroke-width=\"0.5\"/>\n";

/// The pieces of sheet `s` among the first `k`.
pub open spec fn pieces_text(
    spec: ProblemSpec,
    placements: Seq<PlacementSpec>,
    s: nat,
    k: nat,
) -> Seq<char>
    decreases k,
{
    if k == 0 {
        Seq::empty()
    } else {
        let rest = pieces_text(spec, placements, s, (k - 1) as nat);
        if placements[k - 1].sheet_idx == s {
            rest + piece_text(spec, placements[k - 1], s)
        } else {
            rest
        }
    }
}

/// A sheet with its free rectangles and its pieces.
pub open spec fn sheet_text(spec: ProblemSpec, sol: SolutionSpec, s: nat) -> Seq<char> {
    let (sw, sh) = (spec.sheet.width as nat, spec.sheet.height as nat);
    "  <rect x=\"28\" y=\""@ + rounded(sheet_top(sw, sh, s), sw)
        + "\" width=\"700\" height=\""@ + rounded(sh * 700, sw) + SHEET_TAIL@ + leftovers_text(
        spec,
        sol.leftovers@,
        s,
        sol.leftovers@.len(),
    ) + pieces_text(spec, sol.placements@, s, sol.placements@.len())
}

pub const SHEET_TAIL: &'static str =
    "\" fill=\"#f8f8f8\" stroke=\"#3c3c3c\" stroke-width=\"1\"/>\n";

/// The first `n` sheets.
pub open spec fn sheets_text(spec: ProblemSpec, sol: SolutionSpec, n: nat) -> Seq<char>
    decreases n,
{
    if n == 0 {
        Seq::empty()
    } else {
        sheets_text(spec, sol, (n - 1) as nat) + sheet_text(spec, sol, (n - 1) as nat)
    }
}

/// The number of sheets drawn: at least one.
pub open spec fn sheets_drawn(sol: SolutionSpec) -> nat {
    if spec_sheets(sol.placements@) <= 1 {
        1
    } else {
        spec_sheets(sol.placements@) as nat
    }
}

/// The drawing of a solution.
pub open spec fn svg_text(spec: ProblemSpec, sol: SolutionSpec) -> Seq<char> {
    let (sw, sh) = (spec.sheet.width as nat, spec.sheet.height as nat);
    let n = sheets_drawn(sol);
    let height = rounded(drawing_height(sw, sh, n), sw);
    "<svg width=\"756\" height=\""@ + height + "\" viewBox=\"0 0 756 "@ + height
        + "\" xmlns=\"http://www.w3.org/2000/svg\" style=\"font-family:sans-serif\">\n"@
        + "  <rect width=\"756\" height=\""@ + height + "\" fill=\"#f4f4f4\"/>\n"@ + sheets_text(
        spec,
        sol,
        n,
    ) + "</svg>\n"@
}

/// Bounds that keep all sums in range.
proof fn lemma_in_range(sw: nat, sh: nat, s: nat)
    requires
        sw <= u32::MAX,
        sh <= u32::MAX,
        s <= u64::MAX,
    ensures
        sheet_top(sw, sh, s) <= 0x1000_0000_0000_0000_0000_0000_0000,
{
    let top = sheet_top(sw, sh, s);
    assert((28 + 6 * s) * sw <= (28 + 6 * 0xffff_ffff_ffff_ffff) * 0xffff_ffff)
        by (nonlinear_arith)
        requires
            0 <= sw <= 0xffff_ffff,
            0 <= s <= 0xffff_ffff_ffff_ffff,
    ;
    assert(s * sh * 700 <= 0xffff_ffff_ffff_ffff * 0xffff_ffff * 700) by (nonlinear_arith)
        requires
            0 <= sh <= 0xffff_ffff,
            0 <= s <= 0xffff_ffff_ffff_ffff,
    ;
}

fn top_of(sw: u32, sh: u32, s: usize) -> (r: u128)
    ensures
        r == sheet_top(sw as nat, sh as nat, s as nat),
        r <= 0x1000_0000_0000_0000_0000_0000_0000,
{
    proof {
        lemma_in_range(sw as nat, sh as nat, s as nat);
        assert(0 <= (28 + 6 * s) * sw) by (nonlinear_arith)
            requires
                s >= 0,
                sw >= 0,
        ;
        assert(0 <= s * sh) by (nonlinear_arith)
            requires
                s >= 0,
                sh >= 0,
        ;
    }
    (28 + 6 * s as u128) * sw as u128 + s as u128 * sh as u128 * 700
}

fn append_rect(out: &mut String, sw: u32, top: u128, c: &FreeRect, tail: &str)
    requires
        sw > 0,
        top <= 0x1000_0000_0000_0000_0000_0000_0000,
    ensures
        final(out)@ == old(out)@ + rect_text(sw as nat, top as nat, *c, tail@),
{
    let d: u128 = sw as u128;
    out.append("  <rect x=\"");
    append_tenths(out, 28 * d + c.x as u128 * 700, d);
    out.append("\" y=\"");
    append_tenths(out, top + c.y as u128 * 700, d);
    out.append("\" width=\"");
    append_tenths(out, c.w as u128 * 700, d);
    out.append("\" height=\"");
    append_tenths(out, c.h as u128 * 700, d);
    out.append(tail);
    assert(out@ =~= old(out)@ + rect_text(sw as nat, top as nat, *c, tail@));
}

fn size_of_font(sw: u32, c: &FreeRect) -> (r: u128)
    ensures
        r == font_size(sw as nat, *c),
        r <= 98 * 0xffff_ffff,
        r <= 7 * sw || r <= 98 * c.h,
{
    let m: u32 = if c.w <= c.h {
        c.w
    } else {
        c.h
    };
    let f: u128 = 98 * m as u128;
    let d: u128 = sw as u128;
    if f < 7 * d {
        7 * d
    } else if f > 60 * d {
        60 * d
    } else {
        f
    }
}

fn append_label(out: &mut String, sw: u32, c: &FreeRect, y: u128, fill: &str, label: &str)
    requires
        sw > 0,
        y <= 0x10_0000_0000_0000_0000_0000_0000_0000,
    ensures
        final(out)@ == old(out)@ + label_text(sw as nat, *c, y as nat, fill@, label@),
{
    let d: u128 = sw as u128;
    out.append("  <text x=\"");
    append_rounded(out, 56 * d + (2 * c.x as u128 + c.w as u128) * 700, 2 * d);
    out.append("\" y=\"");
    append_rounded(out, y, 20 * d);
    out.append("\" text-anchor=\"middle\" dominant-baseline=\"middle\" font-size=\"");
    let f: u128 = size_of_font(sw, c);
    append_rounded(out, f, d);
    out.append("\" fill=\"");
    out.append(fill);
    out.append("\">");
    out.append(label);
    out.append("</text>\n");
    assert(out@ =~= old(out)@ + label_text(sw as nat, *c, y as nat, fill@, label@));
}

fn append_labels(out: &mut String, spec: &ProblemSpec, pl: &PlacementSpec, c: &FreeRect, top: u128)
    requires
        spec.sheet.width > 0,
        pl.ptype_idx < spec.piece_types@.len(),
        *c == spec_cell(spec.piece_types@, *pl),
        top == sheet_top(
            spec.sheet.width as nat,
            spec.sheet.height as nat,
            pl.sheet_idx as nat,
        ),
        top <= 0x1000_0000_0000_0000_0000_0000_0000,
    ensures
        final(out)@ == old(out)@ + labels_text(*spec, *pl, pl.sheet_idx as nat),
{
    let sw: u32 = spec.sheet.width;
    let d: u64 = sw as u64;
    if 25 * (c.w as u64) < d || 25 * (c.h as u64) < d {
        assert(out@ =~= old(out)@ + Seq::<char>::empty());
        return;
    }
    let t = &spec.piece_types[pl.ptype_idx];
    let name: String = if t.name.as_str().unicode_len() == 0 {
        let mut s = String::from_str("#");
        append_number(&mut s, pl.ptype_idx as u64);
        s
    } else {
        xml_escape(t.name.as_str())
    };
    let f: u128 = size_of_font(sw, c);
    let y: u128 = 10 * (2 * top + (2 * c.y as u128 + c.h as u128) * 700);
    proof {
        let s = pl.sheet_idx as int;
        assert(top >= 28 * sw) by (nonlinear_arith)
            requires
                top == (28 + 6 * s) * sw + s * spec.sheet.height * 700,
                s >= 0,
                sw >= 0,
                spec.sheet.height >= 0,
        ;
    }
    if 7000 * c.h as u128 >= 24 * f {
        append_label(out, sw, c, y - 11 * f, "#333", name.as_str());
        let mut size = String::new();
        append_number(&mut size, c.w as u64);
        size.append("×");
        append_number(&mut size, c.h as u64);
        append_label(out, sw, c, y + 11 * f, "#555", size.as_str());
        assert(size@ =~= decimal(c.w as nat) + "×"@ + decimal(c.h as nat));
        assert(out@ =~= old(out)@ + labels_text(*spec, *pl, pl.sheet_idx as nat));
    } else {
        append_label(out, sw, c, y, "#333", name.as_str());
    }
}

fn append_piece(out: &mut String, spec: &ProblemSpec, pl: &PlacementSpec)
    requires
        spec.sheet.width > 0,
        pl.ptype_idx < spec.piece_types@.len(),
    ensures
        final(out)@ == old(out)@ + piece_text(*spec, *pl, pl.sheet_idx as nat),
{
    let t = &spec.piece_types[pl.ptype_idx];
    let c = if pl.rotated {
        FreeRect { sheet_idx: pl.sheet_idx, x: pl.x, y: pl.y, w: t.height, h: t.width }
    } else {
        FreeRect { sheet_idx: pl.sheet_idx, x: pl.x, y: pl.y, w: t.width, h: t.height }
    };
    let top: u128 = top_of(spec.sheet.width, spec.sheet.height, pl.sheet_idx);
    let mut tail = String::from_str("\" fill=\"");
    tail.append(colour(pl.ptype_idx));
    tail.append(PIECE_TAIL);
    append_rect(out, spec.sheet.width, top, &c, tail.as_str());
    append_labels(out, spec, pl, &c, top);
    assert(out@ =~= old(out)@ + piece_text(*spec, *pl, pl.sheet_idx as nat));
}

fn append_sheet(out: &mut String, spec: &ProblemSpec, sol: &SolutionSpec, s: usize)
    requires
        spec.sheet.width > 0,
        forall|i: int|
            0 <= i < sol.placements@.len() ==> (#[trigger] sol.placements@[i]).ptype_idx
                < spec.piece_types@.len(),
    ensures
        final(out)@ == old(out)@ + sheet_text(*spec, *sol, s as nat),
{
    let (sw, sh) = (spec.sheet.width, spec.sheet.height);
    let top: u128 = top_of(sw, sh, s);
    out.append("  <rect x=\"28\" y=\"");
    append_rounded(out, top, sw as u128);
    out.append("\" width=\"700\" height=\"");
    append_rounded(out, sh as u128 * 700, sw as u128);
    out.append(SHEET_TAIL);
    let ghost head = out@;
    let mut k: usize = 0;
    assert(out@ =~= head + leftovers_text(*spec, sol.leftovers@, s as nat, 0));
    while k < sol.leftovers.len()
        invariant
            k <= sol.leftovers@.len(),
            sw == spec.sheet.width,
            sh == spec.sheet.height,
            sw > 0,
            top == sheet_top(sw as nat, sh as nat, s as nat),
            top <= 0x1000_0000_0000_0000_0000_0000_0000,
            out@ == head + leftovers_text(*spec, sol.leftovers@, s as nat, k as nat),
        decreases sol.leftovers@.len() - k,
    {
        let fr = sol.leftovers[k];
        if fr.sheet_idx == s {
            append_rect(out, sw, top, &fr, LEFTOVER_TAIL);
            assert(out@ =~= head + leftovers_text(
                *spec,
                sol.leftovers@,
                s as nat,
                (k + 1) as nat,
            ));
        }
        k += 1;
    }
    let ghost mid = out@;
    let mut q: usize = 0;
    assert(out@ =~= mid + pieces_text(*spec, sol.placements@, s as nat, 0));
    while q < sol.placements.len()
        invariant
            q <= sol.placements@.len(),
            spec.sheet.width > 0,
            forall|i: int|
                0 <= i < sol.placements@.len() ==> (#[trigger] sol.placements@[i]).ptype_idx
                    < spec.piece_types@.len(),
            out@ == mid + pieces_text(*spec, sol.placements@, s as nat, q as nat),
        decreases sol.placements@.len() - q,
    {
        let pl = sol.placements[q];
        assert(sol.placements@[q as int].ptype_idx < spec.piece_types@.len());
        if pl.sheet_idx == s {
            append_piece(out, spec, &pl);
            assert(out@ =~= mid + pieces_text(
                *spec,
                sol.placements@,
                s as nat,
                (q + 1) as nat,
            ));
        }
        q += 1;
    }
    assert(out@ =~= old(out)@ + sheet_text(*spec, *sol, s as nat));
}

/// Draws a solution: sheets one below the other, pieces in the colours of their types with names
/// and sizes, free rectangles with dashed outlines.
pub fn render_svg(spec: &ProblemSpec, solution: &SolutionSpec) -> (r: String)
    requires
        spec.sheet.width > 0,
        forall|i: int|
            0 <= i < solution.placements@.len() ==> {
                &&& (#[trigger] solution.placements@[i]).ptype_idx < spec.piece_types@.len()
                &&& solution.placements@[i].sheet_idx < usize::MAX
            },
    ensures
        r@ == svg_text(*spec, *solution),
{
    let used: usize = solution.sheets_used();
    let n: usize = if used <= 1 {
        1
    } else {
        used
    };
    let (sw, sh) = (spec.sheet.width, spec.sheet.height);
    proof {
        let m = (n - 1) as nat;
        lemma_in_range(sw as nat, sh as nat, n as nat);
        assert((56 + 6 * m) * sw <= (56 + 6 * 0xffff_ffff_ffff_ffff) * 0xffff_ffff
            && 0 <= (56 + 6 * m) * sw) by (nonlinear_arith)
            requires
                0 <= sw <= 0xffff_ffff,
                0 <= m <= 0xffff_ffff_ffff_ffff,
        ;
        assert(n * sh * 700 <= 0xffff_ffff_ffff_ffff * 0xffff_ffff * 700 && 0 <= n * sh)
            by (nonlinear_arith)
            requires
                0 <= sh <= 0xffff_ffff,
                0 <= n <= 0xffff_ffff_ffff_ffff,
        ;
    }
    let height: u128 = (56 + 6 * (n - 1) as u128) * sw as u128 + n as u128 * sh as u128 * 700;
    let mut out = String::from_str("<svg width=\"756\" height=\"");
    append_rounded(&mut out, height, sw as u128);
    out.append("\" viewBox=\"0 0 756 ");
    append_rounded(&mut out, height, sw as u128);
    out.append("\" xmlns=\"http://www.w3.org/2000/svg\" style=\"font-family:sans-serif\">\n");
    out.append("  <rect width=\"756\" height=\"");
    append_rounded(&mut out, height, sw as u128);
    out.append("\" fill=\"#f4f4f4\"/>\n");
    let ghost head = out@;
    let mut s: usize = 0;
    assert(out@ =~= head + sheets_text(*spec, *solution, 0));
    while s < n
        invariant
            s <= n,
            spec.sheet.width > 0,
            forall|i: int|
                0 <= i < solution.placements@.len() ==> {
                    &&& (#[trigger] solution.placements@[i]).ptype_idx < spec.piece_types@.len()
                    &&& solution.placements@[i].sheet_idx < usize::MAX
                },
            out@ == head + sheets_text(*spec, *solution, s as nat),
        decreases n - s,
    {
        append_sheet(&mut out, spec, solution, s);
        s += 1;
        assert(out@ =~= head + sheets_text(*spec, *solution, s as nat));
    }
    out.append("</svg>\n");
    assert(out@ =~= svg_text(*spec, *solution));
    out
}

} // verus!
