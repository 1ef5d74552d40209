//! Problems as compact text: `<sheet>:<kerf>,<margin>:<pieces>`.
//!
//! `<sheet>` is `WxHR` or `WxHF`; with `R` pieces may rotate by default, with `F` they may not.
//! The width of the saw cut and the margin may both be left out, and are 0 then. `<pieces>` are
//! separated by commas; a piece is `WxH`, then the number of copies behind a slash if there are
//! more than one, then `r` or `f` where it differs from the default.

use vstd::prelude::*;
use vstd::string::{StrSliceExecFns, StringExecFns};

use crate::model::{PieceType, ProblemSpec, Sheet};
use crate::parse::{are_types_of, lemma_split_step, types_of, PieceLine};
use crate::reading::{
    number, number_in, owned, split_all, split_at_first, split_once, strip_suffix, trim, trimmed,
    without_suffix,
};
use crate::specs::{counted, countable, merged};

verus! {

/// What is wrong with a text.
#[derive(Debug, PartialEq, Eq)]
pub enum ParseError {
    MissingSeparator,
    MissingKerfMargin,
    InvalidSheet(String),
    InvalidKerfMargin(String),
    InvalidPieceType(String),
}

/// What is wrong with a text, and the part of it that is.
pub enum Fault {
    MissingSeparator,
    MissingKerfMargin,
    InvalidSheet(Seq<char>),
    InvalidKerfMargin(Seq<char>),
    InvalidPieceType(Seq<char>),
}

impl View for ParseError {
    type V = Fault;

    open spec fn view(&self) -> Fault {
        match *self {
            ParseError::MissingSeparator => Fault::MissingSeparator,
            ParseError::MissingKerfMargin => Fault::MissingKerfMargin,
            ParseError::InvalidSheet(s) => Fault::InvalidSheet(s@),
            ParseError::InvalidKerfMargin(s) => Fault::InvalidKerfMargin(s@),
            ParseError::InvalidPieceType(s) => Fault::InvalidPieceType(s@),
        }
    }
}

/// The text of a fault.
pub open spec fn fault_text(f: Fault) -> Seq<char> {
    match f {
        Fault::MissingSeparator => "missing ':' separator (format: WxHR:kerf,margin:pieces)"@,
        Fault::MissingKerfMargin =>
            "missing kerf/margin section (format: WxHR:kerf,margin:pieces)"@,
        Fault::InvalidSheet(s) => "invalid sheet spec '"@ + s
            + "': expected WxHR or WxHF (R = rotatable default, F = fixed default)"@,
        Fault::InvalidKerfMargin(s) => "invalid kerf/margin '"@ + s
            + "': expected empty (both default to 0) or 'kerf,margin' as non-negative integers"@,
        Fault::InvalidPieceType(s) => "invalid piece type '"@ + s
            + "': expected WxH, WxH/N, WxHr, WxHf, WxH/Nr, or WxH/Nf"@,
    }
}

fn quoted(before: &str, s: &String, after: &str) -> (r: String)
    ensures
        r@ == before@ + s@ + after@,
{
    let mut out = String::from_str(before);
    out.append(s.as_str());
    out.append(after);
    out
}

impl ParseError {
    /// A text for the user.
    pub fn message(&self) -> (r: String)
        ensures
            r@ == fault_text(self@),
    {
        match self {
            ParseError::MissingSeparator => String::from_str(
                "missing ':' separator (format: WxHR:kerf,margin:pieces)",
            ),
            ParseError::MissingKerfMargin => String::from_str(
                "missing kerf/margin section (format: WxHR:kerf,margin:pieces)",
            ),
            ParseError::InvalidSheet(s) => quoted(
                "invalid sheet spec '",
                s,
                "': expected WxHR or WxHF (R = rotatable default, F = fixed default)",
            ),
            ParseError::InvalidKerfMargin(s) => quoted(
                "invalid kerf/margin '",
                s,
                "': expected empty (both default to 0) or 'kerf,margin' as non-negative integers",
            ),
            ParseError::InvalidPieceType(s) => quoted(
                "invalid piece type '",
                s,
                "': expected WxH, WxH/N, WxHr, WxHf, WxH/Nr, or WxH/Nf",
            ),
        }
    }
}

/// Two numbers with `mark` between them.
pub open spec fn pair_in(s: Seq<char>, mark: char) -> Option<(u32, u32)> {
    match split_at_first(s, mark) {
        None => None,
        Some(p) => match (number_in(p.0), number_in(p.1)) {
            (Some(a), Some(b)) => Some((a, b)),
            _ => None,
        },
    }
}

/// The sheet that a text stands for, and whether pieces may rotate by default.
pub open spec fn sheet_in(s: Seq<char>) -> Option<(Sheet, bool)> {
    let (dims, rotate) = match without_suffix(s, 'R') {
        Some(d) => (Some(d), true),
        None => (without_suffix(s, 'F'), false),
    };
    match dims {
        None => None,
        Some(d) => match pair_in(d, 'x') {
            Some(p) if p.0 != 0 && p.1 != 0 => Some(
                (Sheet { width: p.0, height: p.1 }, rotate),
            ),
            _ => None,
        },
    }
}

/// The saw cut and the margin that a text stands for.
pub open spec fn kerf_margin_in(s: Seq<char>) -> Option<(u32, u32)> {
    if s.len() == 0 {
        Some((0, 0))
    } else {
        pair_in(s, ',')
    }
}

/// The pieces that a text stands for.
pub open spec fn piece_in(s: Seq<char>, rotate: bool) -> Option<PieceLine> {
    let (base, can_rotate) = match without_suffix(s, 'r') {
        Some(d) => (d, true),
        None => match without_suffix(s, 'f') {
            Some(d) => (d, false),
            None => (s, rotate),
        },
    };
    let (dims, count) = match split_at_first(base, '/') {
        Some(p) => (p.0, number_in(p.1)),
        None => (base, Some(1u32)),
    };
    match (pair_in(dims, 'x'), count) {
        (Some(p), Some(n)) if p.0 != 0 && p.1 != 0 && n != 0 => Some(
            PieceLine { width: p.0, height: p.1, count: n, can_rotate },
        ),
        _ => None,
    }
}

/// The pieces that the first `k` parts stand for, or the first fault.
pub open spec fn pieces_in(parts: Seq<Seq<char>>, rotate: bool, k: nat) -> Result<
    Seq<PieceLine>,
    Fault,
>
    decreases k,
{
    if k == 0 {
        Ok(Seq::empty())
    } else {
        match pieces_in(parts, rotate, (k - 1) as nat) {
            Err(e) => Err(e),
            Ok(list) => match piece_in(trimmed(parts[k - 1]), rotate) {
                None => Err(Fault::InvalidPieceType(trimmed(parts[k - 1]))),
                Some(p) => Ok(list.push(p)),
            },
        }
    }
}

/// A problem as it is written.
pub struct Lines {
    pub sheet: Sheet,
    pub kerf: u32,
    pub margin: u32,
    pub pieces: Seq<PieceLine>,
}

/// The problem that a text stands for, or the first fault: separators first, then the sheet, the
/// saw cut and margin, and the pieces in order.
pub open spec fn problem_in(s: Seq<char>) -> Result<Lines, Fault> {
    match split_at_first(s, ':') {
        None => Err(Fault::MissingSeparator),
        Some(a) => match split_at_first(a.1, ':') {
            None => Err(Fault::MissingKerfMargin),
            Some(b) => match sheet_in(trimmed(a.0)) {
                None => Err(Fault::InvalidSheet(trimmed(a.0))),
                Some(sheet) => match kerf_margin_in(trimmed(b.0)) {
                    None => Err(Fault::InvalidKerfMargin(trimmed(b.0))),
                    Some(km) => {
                        let parts = split_all(b.1, ',');
                        match pieces_in(parts, sheet.1, parts.len()) {
                            Err(e) => Err(e),
                            Ok(pieces) => Ok(
                                Lines { sheet: sheet.0, kerf: km.0, margin: km.1, pieces },
                            ),
                        }
                    },
                },
            },
        },
    }
}

fn parse_pair(s: &str, mark: char) -> (r: Option<(u32, u32)>)
    ensures
        r == pair_in(s@, mark),
{
    match split_once(s, mark) {
        None => None,
        Some((a, b)) => match (number(a), number(b)) {
            (Some(a), Some(b)) => Some((a, b)),
            _ => None,
        },
    }
}

fn parse_sheet(s: &str) -> (r: Option<(Sheet, bool)>)
    ensures
        r == sheet_in(s@),
{
    let (dims, rotate) = match strip_suffix(s, 'R') {
        Some(d) => (d, true),
        None => match strip_suffix(s, 'F') {
            Some(d) => (d, false),
            None => {
                return None;
            },
        },
    };
    match parse_pair(dims, 'x') {
        Some((width, height)) => {
            if width != 0 && height != 0 {
                Some((Sheet { width, height }, rotate))
            } else {
                None
            }
        },
        None => None,
    }
}

fn parse_piece(s: &str, rotate: bool) -> (r: Option<PieceLine>)
    ensures
        r == piece_in(s@, rotate),
{
    let (base, can_rotate) = match strip_suffix(s, 'r') {
        Some(d) => (d, true),
        None => match strip_suffix(s, 'f') {
            Some(d) => (d, false),
            None => (s, rotate),
        },
    };
    let (dims, count) = match split_once(base, '/') {
        Some((d, n)) => (d, number(n)),
        None => (base, Some(1u32)),
    };
    match (parse_pair(dims, 'x'), count) {
        (Some((width, height)), Some(count)) => {
            if width != 0 && height != 0 && count != 0 {
                Some(PieceLine { width, height, count, can_rotate })
            } else {
                None
            }
        },
        _ => None,
    }
}

fn parse_pieces(s: &str, rotate: bool) -> (r: Result<Vec<PieceLine>, ParseError>)
    ensures
        ({
            let parts = split_all(s@, ',');
            match r {
                Ok(list) => pieces_in(parts, rotate, parts.len()) == Ok::<Seq<PieceLine>, Fault>(
                    list@,
                ),
                Err(e) => pieces_in(parts, rotate, parts.len()) == Err::<Seq<PieceLine>, Fault>(
                    e@,
                ),
            }
        }),
{
    let ghost parts = split_all(s@, ',');
    let mut list: Vec<PieceLine> = Vec::new();
    let mut rest: &str = s;
    let mut open = true;
    let ghost mut k: nat = 0;
    assert(parts.skip(0) =~= parts);
    while open
        invariant
            parts == split_all(s@, ','),
            k <= parts.len(),
            open ==> parts.skip(k as int) == split_all(rest@, ','),
            open ==> k < parts.len(),
            !open ==> k == parts.len(),
            pieces_in(parts, rotate, k) == Ok::<Seq<PieceLine>, Fault>(list@),
        decreases
            rest@.len(),
            (if open {
                1int
            } else {
                0int
            }),
    {
        proof {
            lemma_split_step(rest@, ',');
        }
        let ghost tail = parts.skip(k as int);
        let part: &str = match split_once(rest, ',') {
            Some((a, b)) => {
                proof {
                    assert(tail[0] == a@);
                    assert(tail.skip(1) =~= split_all(b@, ','));
                    lemma_split_step(b@, ',');
                    assert(split_all(b@, ',').len() > 0);
                    assert(parts.skip(k as int + 1) =~= tail.skip(1));
                }
                rest = b;
                a
            },
            None => {
                assert(tail.len() == 1 && tail[0] == rest@);
                open = false;
                rest
            },
        };
        assert(parts[k as int] == tail[0]);
        let part = trim(part);
        match parse_piece(part, rotate) {
            Some(p) => {
                list.push(p);
            },
            None => {
                proof {
                    lemma_fault_stays(parts, rotate, k + 1, parts.len());
                }
                return Err(ParseError::InvalidPieceType(owned(part)));
            },
        }
        proof {
            k = k + 1;
        }
    }
    Ok(list)
}

/// The first fault is the fault of the whole.
proof fn lemma_fault_stays(parts: Seq<Seq<char>>, rotate: bool, j: nat, k: nat)
    requires
        j <= k,
        pieces_in(parts, rotate, j) is Err,
    ensures
        pieces_in(parts, rotate, k) == pieces_in(parts, rotate, j),
    decreases k,
{
    if j < k {
        lemma_fault_stays(parts, rotate, j, (k - 1) as nat);
    }
}

/// Reads a problem with its piece types as they are written.
pub fn parse_types(s: &str) -> (r: Result<ProblemSpec, ParseError>)
    ensures
        match problem_in(s@) {
            Ok(lines) => {
                &&& r is Ok
                &&& r->Ok_0.sheet == lines.sheet
                &&& r->Ok_0.kerf == lines.kerf
                &&& r->Ok_0.margin == lines.margin
                &&& are_types_of(r->Ok_0.piece_types@, lines.pieces)
            },
            Err(f) => r is Err && r->Err_0@ == f,
        },
{
    let (sheet_text, rest) = match split_once(s, ':') {
        Some(p) => p,
        None => {
            return Err(ParseError::MissingSeparator);
        },
    };
    let (km_text, pieces_text) = match split_once(rest, ':') {
        Some(p) => p,
        None => {
            return Err(ParseError::MissingKerfMargin);
        },
    };
    let sheet_text = trim(sheet_text);
    let (sheet, rotate) = match parse_sheet(sheet_text) {
        Some(p) => p,
        None => {
            return Err(ParseError::InvalidSheet(owned(sheet_text)));
        },
    };
    let km_text = trim(km_text);
    let km = if km_text.unicode_len() == 0 {
        Some((0u32, 0u32))
    } else {
        parse_pair(km_text, ',')
    };
    let (kerf, margin) = match km {
        Some(p) => p,
        None => {
            return Err(ParseError::InvalidKerfMargin(owned(km_text)));
        },
    };
    match parse_pieces(pieces_text, rotate) {
        Ok(lines) => Ok(ProblemSpec { sheet, kerf, margin, piece_types: types_of(&lines) }),
        Err(e) => Err(e),
    }
}

/// The copies of types that are merged can be counted.
pub open spec fn mergeable(pieces: Seq<PieceLine>) -> bool {
    forall|types: Seq<PieceType>| #[trigger]
        are_types_of(types, pieces) ==> countable(merged(types, types.len()))
}

/// Reads a problem and brings its piece types to normal form.
pub fn parse_problem(s: &str) -> (r: Result<ProblemSpec, ParseError>)
    requires
        problem_in(s@) matches Ok(lines) ==> mergeable(lines.pieces),
    ensures
        match problem_in(s@) {
            Ok(lines) => {
                &&& r is Ok
                &&& r->Ok_0.sheet == lines.sheet
                &&& r->Ok_0.kerf == lines.kerf
                &&& r->Ok_0.margin == lines.margin
                &&& exists|types: Seq<PieceType>| #[trigger]
                    are_types_of(types, lines.pieces) && r->Ok_0.piece_types@ == counted(
                        merged(types, types.len()),
                    )
            },
            Err(f) => r is Err && r->Err_0@ == f,
        },
{
    match parse_types(s) {
        Ok(mut spec) => {
            assert(are_types_of(spec.piece_types@, problem_in(s@)->Ok_0.pieces));
            spec.normalize();
            Ok(spec)
        },
        Err(e) => Err(e),
    }
}

} // verus!
