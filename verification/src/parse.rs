//! Problems as compact text: `<sheet>:<kerf>:<pieces>`.
//!
//! `<sheet>` is `WxHR` or `WxHF`; with `R` pieces may rotate by default, with `F` they may not.
//! `<kerf>` is the width of the saw cut. `<pieces>` are separated by commas; a piece is `WxH`,
//! then a number of copies if there are more than one, then `r` or `f` where it differs from the
//! default. The number of copies stands behind a slash or a dash, as in `835x620/4f` and
//! `835x620-4f`.

use vstd::prelude::*;
use vstd::string::StringExecFns;

use crate::model::{Piece, PieceType, ProblemSpec, Sheet};
use crate::reading::{
    owned, signed_number, signed_number_in, split_all, split_at_first, split_once, strip_suffix,
    trim, trimmed, without_suffix,
};
use crate::specs::{counted, countable, merged};

verus! {

/// What is wrong with a text.
#[derive(Debug, PartialEq, Eq)]
pub enum ParseError {
    MissingSeparator,
    MissingKerf,
    InvalidKerf(String),
    InvalidSheet(String),
    InvalidPiece(String),
    InvalidInteger(String),
}

/// What is wrong with a text, and the part of it that is.
pub enum Fault {
    MissingSeparator,
    MissingKerf,
    InvalidKerf(Seq<char>),
    InvalidSheet(Seq<char>),
    InvalidPiece(Seq<char>),
    InvalidInteger(Seq<char>),
}

impl View for ParseError {
    type V = Fault;

    open spec fn view(&self) -> Fault {
        match *self {
            ParseError::MissingSeparator => Fault::MissingSeparator,
            ParseError::MissingKerf => Fault::MissingKerf,
            ParseError::InvalidKerf(s) => Fault::InvalidKerf(s@),
            ParseError::InvalidSheet(s) => Fault::InvalidSheet(s@),
            ParseError::InvalidPiece(s) => Fault::InvalidPiece(s@),
            ParseError::InvalidInteger(s) => Fault::InvalidInteger(s@),
        }
    }
}

/// The text of a fault.
pub open spec fn fault_text(f: Fault) -> Seq<char> {
    match f {
        Fault::MissingSeparator => "missing ':' separator (format: WxHR:kerf:pieces)"@,
        Fault::MissingKerf => "missing kerf field (format: WxHR:kerf:pieces)"@,
        Fault::InvalidKerf(s) => "invalid kerf value '"@ + s
            + "': expected a non-negative integer"@,
        Fault::InvalidSheet(s) => "invalid sheet spec '"@ + s
            + "': expected WxHR or WxHF (R = rotatable default, F = fixed default)"@,
        Fault::InvalidPiece(s) => "invalid piece spec '"@ + s
            + "': expected WxH, WxH/N, WxHr, WxHf, WxH/Nr, or WxH/Nf (or -N for /N)"@,
        Fault::InvalidInteger(s) => "invalid integer in '"@ + s + "'"@,
    }
}

fn quoted(before: &str, s: &String, after: &str) -> (r: String)
    ensures
        r@ == before@ + s@ + after@,
{
    let mut out = String::from_str(before);
    out.append(s.as_str());
    out.append(after);
    out
}

impl ParseError {
    /// A text for the user.
    pub fn message(&self) -> (r: String)
        ensures
            r@ == fault_text(self@),
    {
        match self {
            ParseError::MissingSeparator => String::from_str(
                "missing ':' separator (format: WxHR:kerf:pieces)",
            ),
            ParseError::MissingKerf => String::from_str(
                "missing kerf field (format: WxHR:kerf:pieces)",
            ),
            ParseError::InvalidKerf(s) => quoted(
                "invalid kerf value '",
                s,
                "': expected a non-negative integer",
            ),
            ParseError::InvalidSheet(s) => quoted(
                "invalid sheet spec '",
                s,
                "': expected WxHR or WxHF (R = rotatable default, F = fixed default)",
            ),
            ParseError::InvalidPiece(s) => quoted(
                "invalid piece spec '",
                s,
                "': expected WxH, WxH/N, WxHr, WxHf, WxH/Nr, or WxH/Nf (or -N for /N)",
            ),
            ParseError::InvalidInteger(s) => quoted("invalid integer in '", s, "'"),
        }
    }
}

/// Pieces of one kind as they are written.
#[derive(Debug, Clone, Copy, PartialEq, Eq, Structural)]
pub struct PieceLine {
    pub width: u32,
    pub height: u32,
    pub count: u32,
    pub can_rotate: bool,
}

/// A flat problem with the width of the saw cut.
#[derive(Debug)]
pub struct FlatProblem {
    pub sheet: Sheet,
    pub kerf: u32,
    pub pieces: Vec<Piece>,
}

/// The two numbers of `WxH`.
pub open spec fn sides_in(dims: Seq<char>, whole: Seq<char>, none: Fault) -> Result<
    (u32, u32),
    Fault,
> {
    match split_at_first(dims, 'x') {
        None => Err(none),
        Some(p) => match signed_number_in(p.0) {
            None => Err(Fault::InvalidInteger(whole)),
            Some(w) => match signed_number_in(p.1) {
                None => Err(Fault::InvalidInteger(whole)),
                Some(h) => Ok((w, h)),
            },
        },
    }
}

/// The sheet that a text stands for, and whether pieces may rotate by default.
pub open spec fn sheet_in(s: Seq<char>) -> Result<(Sheet, bool), Fault> {
    let bad = Fault::InvalidSheet(s);
    let (dims, rotate) = match without_suffix(s, 'R') {
        Some(d) => (Some(d), true),
        None => (without_suffix(s, 'F'), false),
    };
    match dims {
        None => Err(bad),
        Some(d) => match sides_in(d, s, bad) {
            Err(e) => Err(e),
            Ok(p) => if p.0 == 0 || p.1 == 0 {
                Err(bad)
            } else {
                Ok((Sheet { width: p.0, height: p.1 }, rotate))
            },
        },
    }
}

/// The sides and the number of copies, which stands behind the first dash, or behind the first
/// slash where there is no dash.
pub open spec fn copies_in(base: Seq<char>) -> (Seq<char>, Option<u32>) {
    match split_at_first(base, '-') {
        Some(p) => (p.0, signed_number_in(p.1)),
        None => match split_at_first(base, '/') {
            Some(p) => (p.0, signed_number_in(p.1)),
            None => (base, Some(1u32)),
        },
    }
}

/// The pieces that a text stands for.
pub open spec fn piece_in(s: Seq<char>, rotate: bool) -> Result<PieceLine, Fault> {
    let bad = Fault::InvalidPiece(s);
    let (base, can_rotate) = match without_suffix(s, 'r') {
        Some(d) => (d, true),
        None => match without_suffix(s, 'f') {
            Some(d) => (d, false),
            None => (s, rotate),
        },
    };
    let (dims, count) = copies_in(base);
    match count {
        None => Err(Fault::InvalidInteger(s)),
        Some(n) => match sides_in(dims, s, bad) {
            Err(e) => Err(e),
            Ok(p) => if p.0 == 0 || p.1 == 0 || n == 0 {
                Err(bad)
            } else {
                Ok(PieceLine { width: p.0, height: p.1, count: n, can_rotate })
            },
        },
    }
}

/// The pieces that the first `k` parts stand for, or the first fault.
pub open spec fn pieces_in(parts: Seq<Seq<char>>, rotate: bool, k: nat) -> Result<
    Seq<PieceLine>,
    Fault,
>
    decreases k,
{
    if k == 0 {
        Ok(Seq::empty())
    } else {
        match pieces_in(parts, rotate, (k - 1) as nat) {
            Err(e) => Err(e),
            Ok(list) => match piece_in(trimmed(parts[k - 1]), rotate) {
                Err(e) => Err(e),
                Ok(p) => Ok(list.push(p)),
            },
        }
    }
}

/// A problem as it is written.
pub struct Lines {
    pub sheet: Sheet,
    pub kerf: u32,
    pub pieces: Seq<PieceLine>,
}

/// The problem that a text stands for, or the first fault: separators first, then the sheet, the
/// saw cut, and the pieces in order.
pub open spec fn problem_in(s: Seq<char>) -> Result<Lines, Fault> {
    match split_at_first(s, ':') {
        None => Err(Fault::MissingSeparator),
        Some(a) => match split_at_first(a.1, ':') {
            None => Err(Fault::MissingKerf),
            Some(b) => match sheet_in(trimmed(a.0)) {
                Err(e) => Err(e),
                Ok(sheet) => match signed_number_in(trimmed(b.0)) {
                    None => Err(Fault::InvalidKerf(trimmed(b.0))),
                    Some(kerf) => {
                        let parts = split_all(b.1, ',');
                        match pieces_in(parts, sheet.1, parts.len()) {
                            Err(e) => Err(e),
                            Ok(pieces) => Ok(Lines { sheet: sheet.0, kerf, pieces }),
                        }
                    },
                },
            },
        },
    }
}

/// Why the sides cannot be read.
enum SideFault {
    NoMark,
    NoNumber,
}

fn parse_sides(dims: &str) -> (r: Result<(u32, u32), SideFault>)
    ensures
        forall|whole: Seq<char>, none: Fault| #[trigger]
            sides_in(dims@, whole, none) == (match r {
                Ok(p) => Ok::<(u32, u32), Fault>(p),
                Err(SideFault::NoMark) => Err(none),
                Err(SideFault::NoNumber) => Err(Fault::InvalidInteger(whole)),
            }),
{
    match split_once(dims, 'x') {
        None => Err(SideFault::NoMark),
        Some((a, b)) => match signed_number(a) {
            None => Err(SideFault::NoNumber),
            Some(w) => match signed_number(b) {
                None => Err(SideFault::NoNumber),
                Some(h) => Ok((w, h)),
            },
        },
    }
}

fn parse_sheet(s: &str) -> (r: Result<(Sheet, bool), ParseError>)
    ensures
        match r {
            Ok(p) => sheet_in(s@) == Ok::<(Sheet, bool), Fault>(p),
            Err(e) => sheet_in(s@) == Err::<(Sheet, bool), Fault>(e@),
        },
{
    let (dims, rotate) = match strip_suffix(s, 'R') {
        Some(d) => (d, true),
        None => match strip_suffix(s, 'F') {
            Some(d) => (d, false),
            None => {
                return Err(ParseError::InvalidSheet(owned(s)));
            },
        },
    };
    match parse_sides(dims) {
        Err(SideFault::NoMark) => Err(ParseError::InvalidSheet(owned(s))),
        Err(SideFault::NoNumber) => Err(ParseError::InvalidInteger(owned(s))),
        Ok((width, height)) => {
            if width == 0 || height == 0 {
                Err(ParseError::InvalidSheet(owned(s)))
            } else {
                Ok((Sheet { width, height }, rotate))
            }
        },
    }
}

fn parse_copies(base: &str) -> (r: (&str, Option<u32>))
    ensures
        (r.0@, r.1) == copies_in(base@),
{
    match split_once(base, '-') {
        Some((d, n)) => (d, signed_number(n)),
        None => match split_once(base, '/') {
            Some((d, n)) => (d, signed_number(n)),
            None => (base, Some(1u32)),
        },
    }
}

fn parse_piece(s: &str, rotate: bool) -> (r: Result<PieceLine, ParseError>)
    ensures
        match r {
            Ok(p) => piece_in(s@, rotate) == Ok::<PieceLine, Fault>(p),
            Err(e) => piece_in(s@, rotate) == Err::<PieceLine, Fault>(e@),
        },
{
    let (base, can_rotate) = match strip_suffix(s, 'r') {
        Some(d) => (d, true),
        None => match strip_suffix(s, 'f') {
            Some(d) => (d, false),
            None => (s, rotate),
        },
    };
    let (dims, count) = parse_copies(base);
    let count: u32 = match count {
        Some(n) => n,
        None => {
            return Err(ParseError::InvalidInteger(owned(s)));
        },
    };
    match parse_sides(dims) {
        Err(SideFault::NoMark) => Err(ParseError::InvalidPiece(owned(s))),
        Err(SideFault::NoNumber) => Err(ParseError::InvalidInteger(owned(s))),
        Ok((width, height)) => {
            if width == 0 || height == 0 || count == 0 {
                Err(ParseError::InvalidPiece(owned(s)))
            } else {
                Ok(PieceLine { width, height, count, can_rotate })
            }
        },
    }
}

/// Parts that are all of the text so far, and the rest of it.
pub proof fn lemma_split_step(s: Seq<char>, c: char)
    ensures
        match split_at_first(s, c) {
            Some(p) => split_all(s, c) == seq![p.0] + split_all(p.1, c) && p.1.len() < s.len(),
            None => split_all(s, c) == seq![s],
        },
{
    crate::reading::lemma_first_at(s, c);
}

fn parse_pieces(s: &str, rotate: bool) -> (r: Result<Vec<PieceLine>, ParseError>)
    ensures
        ({
            let parts = split_all(s@, ',');
            match r {
                Ok(list) => pieces_in(parts, rotate, parts.len()) == Ok::<
                    Seq<PieceLine>,
                    Fault,
                >(list@),
                Err(e) => pieces_in(parts, rotate, parts.len()) == Err::<
                    Seq<PieceLine>,
                    Fault,
                >(e@),
            }
        }),
{
    let ghost parts = split_all(s@, ',');
    let mut list: Vec<PieceLine> = Vec::new();
    let mut rest: &str = s;
    let mut open = true;
    let ghost mut k: nat = 0;
    assert(parts.skip(0) =~= parts);
    while open
        invariant
            parts == split_all(s@, ','),
            k <= parts.len(),
            open ==> parts.skip(k as int) == split_all(rest@, ','),
            open ==> k < parts.len(),
            !open ==> k == parts.len(),
            pieces_in(parts, rotate, k) == Ok::<Seq<PieceLine>, Fault>(list@),
        decreases
            rest@.len(),
            (if open {
                1int
            } else {
                0int
            }),
    {
        proof {
            lemma_split_step(rest@, ',');
        }
        let ghost tail = parts.skip(k as int);
        let part: &str = match split_once(rest, ',') {
            Some((a, b)) => {
                proof {
                    assert(tail[0] == a@);
                    assert(tail.skip(1) =~= split_all(b@, ','));
                    lemma_split_step(b@, ',');
                    assert(split_all(b@, ',').len() > 0);
                    assert(parts.skip(k as int + 1) =~= tail.skip(1));
                }
                rest = b;
                a
            },
            None => {
                assert(tail.len() == 1 && tail[0] == rest@);
                open = false;
                rest
            },
        };
        assert(parts[k as int] == tail[0]);
        match parse_piece(trim(part), rotate) {
            Ok(p) => {
                list.push(p);
            },
            Err(e) => {
                proof {
                    lemma_fault_stays(parts, rotate, k + 1, parts.len());
                }
                return Err(e);
            },
        }
        proof {
            k = k + 1;
        }
    }
    Ok(list)
}

/// The first fault is the fault of the whole.
proof fn lemma_fault_stays(parts: Seq<Seq<char>>, rotate: bool, j: nat, k: nat)
    requires
        j <= k,
        pieces_in(parts, rotate, j) is Err,
    ensures
        pieces_in(parts, rotate, k) == pieces_in(parts, rotate, j),
    decreases k,
{
    if j < k {
        lemma_fault_stays(parts, rotate, j, (k - 1) as nat);
    }
}

/// Reads a problem as it is written.
pub fn read_problem(s: &str) -> (r: Result<(Sheet, u32, Vec<PieceLine>), ParseError>)
    ensures
        match r {
            Ok(p) => problem_in(s@) == Ok::<Lines, Fault>(
                (Lines { sheet: p.0, kerf: p.1, pieces: p.2@ }),
            ),
            Err(e) => problem_in(s@) == Err::<Lines, Fault>(e@),
        },
{
    let (sheet_text, rest) = match split_once(s, ':') {
        Some(p) => p,
        None => {
            return Err(ParseError::MissingSeparator);
        },
    };
    let (kerf_text, pieces_text) = match split_once(rest, ':') {
        Some(p) => p,
        None => {
            return Err(ParseError::MissingKerf);
        },
    };
    let (sheet, rotate) = match parse_sheet(trim(sheet_text)) {
        Ok(p) => p,
        Err(e) => {
            return Err(e);
        },
    };
    let kerf_text = trim(kerf_text);
    let kerf: u32 = match signed_number(kerf_text) {
        Some(v) => v,
        None => {
            return Err(ParseError::InvalidKerf(owned(kerf_text)));
        },
    };
    match parse_pieces(pieces_text, rotate) {
        Ok(pieces) => Ok((sheet, kerf, pieces)),
        Err(e) => Err(e),
    }
}

/// The lines with each repeated as often as it has copies, up to line `k`.
pub open spec fn repeated(lines: Seq<PieceLine>, k: nat) -> Seq<PieceLine>
    decreases k,
{
    if k == 0 {
        Seq::empty()
    } else {
        repeated(lines, (k - 1) as nat) + Seq::new(lines[k - 1].count as nat, |i: int| lines[k - 1])
    }
}

/// A piece of a line, without a name.
pub open spec fn is_piece_of(p: Piece, line: PieceLine) -> bool {
    &&& p.name@.len() == 0
    &&& p.width == line.width
    &&& p.height == line.height
    &&& p.can_rotate == line.can_rotate
}

/// The pieces are those of the lines.
pub open spec fn are_pieces_of(pieces: Seq<Piece>, lines: Seq<PieceLine>) -> bool {
    &&& pieces.len() == lines.len()
    &&& forall|i: int| 0 <= i < pieces.len() ==> is_piece_of(#[trigger] pieces[i], lines[i])
}

/// Reads a flat problem: single pieces, each as often as it has copies.
pub fn parse_problem(s: &str) -> (r: Result<FlatProblem, ParseError>)
    ensures
        match problem_in(s@) {
            Ok(lines) => {
                &&& r is Ok
                &&& r->Ok_0.sheet == lines.sheet
                &&& r->Ok_0.kerf == lines.kerf
                &&& are_pieces_of(
                    r->Ok_0.pieces@,
                    repeated(lines.pieces, lines.pieces.len()),
                )
            },
            Err(f) => r is Err && r->Err_0@ == f,
        },
{
    let (sheet, kerf, lines) = match read_problem(s) {
        Ok(p) => p,
        Err(e) => {
            return Err(e);
        },
    };
    let mut pieces: Vec<Piece> = Vec::new();
    let mut k: usize = 0;
    while k < lines.len()
        invariant
            k <= lines@.len(),
            are_pieces_of(pieces@, repeated(lines@, k as nat)),
        decreases lines@.len() - k,
    {
        let line = lines[k];
        let ghost before = repeated(lines@, k as nat);
        let mut i: u32 = 0;
        assert(before =~= before + Seq::new(0, |j: int| line));
        while i < line.count
            invariant
                i <= line.count,
                are_pieces_of(pieces@, before + Seq::new(i as nat, |j: int| line)),
            decreases line.count - i,
        {
            let ghost old_pieces = pieces@;
            let ghost goal = before + Seq::new(i as nat, |j: int| line);
            pieces.push(
                Piece {
                    name: String::new(),
                    width: line.width,
                    height: line.height,
                    can_rotate: line.can_rotate,
                },
            );
            i += 1;
            proof {
                let next = before + Seq::new(i as nat, |j: int| line);
                assert(next =~= goal.push(line));
                assert forall|j: int| 0 <= j < pieces@.len() implies is_piece_of(
                    #[trigger] pieces@[j],
                    next[j],
                ) by {
                    if j < old_pieces.len() {
                        assert(is_piece_of(old_pieces[j], goal[j]));
                    }
                }
            }
        }
        k += 1;
    }
    Ok(FlatProblem { sheet, kerf, pieces })
}

/// A piece type of a line, without a name.
pub open spec fn is_type_of(t: PieceType, line: PieceLine) -> bool {
    &&& t.name@.len() == 0
    &&& t.width == line.width
    &&& t.height == line.height
    &&& t.count == line.count
    &&& t.can_rotate == line.can_rotate
}

/// The piece types are those of the lines.
pub open spec fn are_types_of(types: Seq<PieceType>, lines: Seq<PieceLine>) -> bool {
    &&& types.len() == lines.len()
    &&& forall|i: int| 0 <= i < types.len() ==> is_type_of(#[trigger] types[i], lines[i])
}

/// Piece types of lines.
pub fn types_of(lines: &Vec<PieceLine>) -> (r: Vec<PieceType>)
    ensures
        are_types_of(r@, lines@),
{
    let mut out: Vec<PieceType> = Vec::new();
    while out.len() < lines.len()
        invariant
            out@.len() <= lines@.len(),
            forall|i: int| 0 <= i < out@.len() ==> is_type_of(#[trigger] out@[i], lines@[i]),
        decreases lines@.len() - out@.len(),
    {
        let line = lines[out.len()];
        out.push(
            PieceType {
                name: String::new(),
                width: line.width,
                height: line.height,
                count: line.count,
                can_rotate: line.can_rotate,
            },
        );
    }
    out
}

/// Reads a problem with piece types, as they are written.
pub fn parse_types(s: &str) -> (r: Result<ProblemSpec, ParseError>)
    ensures
        match problem_in(s@) {
            Ok(lines) => {
                &&& r is Ok
                &&& r->Ok_0.sheet == lines.sheet
                &&& r->Ok_0.kerf == lines.kerf
                &&& r->Ok_0.margin == 0
                &&& are_types_of(r->Ok_0.piece_types@, lines.pieces)
            },
            Err(f) => r is Err && r->Err_0@ == f,
        },
{
    match read_problem(s) {
        Ok((sheet, kerf, lines)) => Ok(
            ProblemSpec { sheet, kerf, margin: 0, piece_types: types_of(&lines) },
        ),
        Err(e) => Err(e),
    }
}

/// The copies of types that are merged can be counted.
pub open spec fn mergeable(pieces: Seq<PieceLine>) -> bool {
    forall|types: Seq<PieceType>| #[trigger]
        are_types_of(types, pieces) ==> countable(merged(types, types.len()))
}

/// Reads a problem with piece types and brings these to normal form.
pub fn parse_spec(s: &str) -> (r: Result<ProblemSpec, ParseError>)
    requires
        problem_in(s@) matches Ok(lines) ==> mergeable(lines.pieces),
    ensures
        match problem_in(s@) {
            Ok(lines) => {
                &&& r is Ok
                &&& r->Ok_0.sheet == lines.sheet
                &&& r->Ok_0.kerf == lines.kerf
                &&& r->Ok_0.margin == 0
                &&& exists|types: Seq<PieceType>| #[trigger]
                    are_types_of(types, lines.pieces) && r->Ok_0.piece_types@ == counted(
                        merged(types, types.len()),
                    )
            },
            Err(f) => r is Err && r->Err_0@ == f,
        },
{
    match parse_types(s) {
        Ok(mut spec) => {
            assert(are_types_of(spec.piece_types@, problem_in(s@)->Ok_0.pieces));
            spec.normalize();
            Ok(spec)
        },
        Err(e) => Err(e),
    }
}

} // verus!
