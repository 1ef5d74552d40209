use vstd::prelude::*;
use vstd::string::StringExecFns;

use crate::cut_tree::{build_cut_tree, sheet_cuttable, uncuttable_message};
use crate::layout::apart;
use crate::text::{append_number, decimal};

verus! {

/// Stock sheet: all sheets of a problem are identical.
#[derive(Debug, Clone, Copy, PartialEq, Eq, Structural)]
pub struct Sheet {
    pub width: u32,
    pub height: u32,
}

/// A piece type: `count` copies of a rectangle to be cut from stock sheets.
/// When `can_rotate` is false a copy must keep its `width` x `height` orientation.
#[derive(Debug, PartialEq, Eq)]
pub struct PieceType {
    pub name: String,
    pub width: u32,
    pub height: u32,
    pub count: u32,
    pub can_rotate: bool,
}

impl Clone for PieceType {
    fn clone(&self) -> (r: Self)
        ensures
            r == *self,
    {
        PieceType {
            name: self.name.clone(),
            width: self.width,
            height: self.height,
            count: self.count,
            can_rotate: self.can_rotate,
        }
    }
}

/// A cutting problem as the user states it: piece types with counts, the width of the saw cut
/// and the margin round the sheet.
#[derive(Debug)]
pub struct ProblemSpec {
    pub sheet: Sheet,
    pub kerf: u32,
    pub margin: u32,
    pub piece_types: Vec<PieceType>,
}

impl Clone for ProblemSpec {
    fn clone(&self) -> (r: Self)
        ensures
            r.sheet == self.sheet,
            r.kerf == self.kerf,
            r.margin == self.margin,
            r.piece_types@ == self.piece_types@,
    {
        let mut piece_types: Vec<PieceType> = Vec::new();
        let mut k: usize = 0;
        while k < self.piece_types.len()
            invariant
                k <= self.piece_types@.len(),
                piece_types@ == self.piece_types@.take(k as int),
            decreases self.piece_types@.len() - k,
        {
            piece_types.push(self.piece_types[k].clone());
            k += 1;
            assert(piece_types@ =~= self.piece_types@.take(k as int));
        }
        assert(self.piece_types@.take(k as int) =~= self.piece_types@);
        ProblemSpec {
            sheet: self.sheet,
            kerf: self.kerf,
            margin: self.margin,
            piece_types,
        }
    }
}

/// Position of a placed piece; `ptype_idx` is an index into `ProblemSpec::piece_types`.
#[derive(Debug, Clone, Copy, PartialEq, Eq, Structural)]
pub struct PlacementSpec {
    pub sheet_idx: usize,
    pub ptype_idx: usize,
    pub x: u32,
    pub y: u32,
    pub rotated: bool,
}

/// A solution in terms of the piece types that the user stated.
#[derive(Debug)]
pub struct SolutionSpec {
    pub placements: Vec<PlacementSpec>,
    pub leftovers: Vec<FreeRect>,
}

impl Clone for SolutionSpec {
    fn clone(&self) -> (r: Self)
        ensures
            r.placements@ == self.placements@,
            r.leftovers@ == self.leftovers@,
    {
        let mut placements: Vec<PlacementSpec> = Vec::new();
        while placements.len() < self.placements.len()
            invariant
                placements@.len() <= self.placements@.len(),
                placements@ == self.placements@.take(placements@.len() as int),
            decreases self.placements@.len() - placements@.len(),
        {
            placements.push(self.placements[placements.len()]);
            assert(placements@ =~= self.placements@.take(placements@.len() as int));
        }
        assert(placements@ =~= self.placements@);
        let mut leftovers: Vec<FreeRect> = Vec::new();
        while leftovers.len() < self.leftovers.len()
            invariant
                leftovers@.len() <= self.leftovers@.len(),
                leftovers@ == self.leftovers@.take(leftovers@.len() as int),
            decreases self.leftovers@.len() - leftovers@.len(),
        {
            leftovers.push(self.leftovers[leftovers.len()]);
            assert(leftovers@ =~= self.leftovers@.take(leftovers@.len() as int));
        }
        assert(leftovers@ =~= self.leftovers@);
        SolutionSpec { placements, leftovers }
    }
}

/// A single physical piece.
/// When `can_rotate` is false it must keep its `width` x `height` orientation.
#[derive(Debug, PartialEq, Eq)]
pub struct Piece {
    pub name: String,
    pub width: u32,
    pub height: u32,
    pub can_rotate: bool,
}

impl Clone for Piece {
    fn clone(&self) -> (r: Self)
        ensures
            r == *self,
    {
        Piece {
            name: self.name.clone(),
            width: self.width,
            height: self.height,
            can_rotate: self.can_rotate,
        }
    }
}

/// Flat cutting problem: one `Piece` per physical copy.
#[derive(Debug)]
pub struct Problem {
    pub sheet: Sheet,
    pub pieces: Vec<Piece>,
}

impl Clone for Problem {
    fn clone(&self) -> (r: Self)
        ensures
            r.sheet == self.sheet,
            r.pieces@ == self.pieces@,
    {
        let mut pieces: Vec<Piece> = Vec::new();
        let mut k: usize = 0;
        while k < self.pieces.len()
            invariant
                k <= self.pieces@.len(),
                pieces@ == self.pieces@.take(k as int),
            decreases self.pieces@.len() - k,
        {
            pieces.push(self.pieces[k].clone());
            k += 1;
            assert(pieces@ =~= self.pieces@.take(k as int));
        }
        assert(self.pieces@.take(k as int) =~= self.pieces@);
        Problem { sheet: self.sheet, pieces }
    }
}

/// Position of a placed piece; `piece_idx` is an index into `Problem::pieces`.
#[derive(Debug, Clone, Copy, PartialEq, Eq, Structural)]
pub struct Placement {
    pub sheet_idx: usize,
    pub piece_idx: usize,
    pub x: u32,
    pub y: u32,
    pub rotated: bool,
}

/// A rectangle of one sheet that holds no piece.
#[derive(Debug, Clone, Copy, PartialEq, Eq, Structural)]
pub struct FreeRect {
    pub sheet_idx: usize,
    pub x: u32,
    pub y: u32,
    pub w: u32,
    pub h: u32,
}

/// Flat solution: one placement per placed piece, and what is left over.
#[derive(Debug)]
pub struct Solution {
    pub placements: Vec<Placement>,
    pub leftovers: Vec<FreeRect>,
}

impl Piece {
    /// Width taken on the sheet in the given orientation.
    pub open spec fn placed_w(self, rotated: bool) -> u32 {
        if rotated {
            self.height
        } else {
            self.width
        }
    }

    /// Height taken on the sheet in the given orientation.
    pub open spec fn placed_h(self, rotated: bool) -> u32 {
        if rotated {
            self.width
        } else {
            self.height
        }
    }

    pub open spec fn area(self) -> int {
        self.width * self.height
    }

    /// Both sides are positive.
    pub open spec fn solid(self) -> bool {
        self.width > 0 && self.height > 0
    }
}

impl FreeRect {
    pub open spec fn right(self) -> int {
        self.x + self.w
    }

    pub open spec fn bottom(self) -> int {
        self.y + self.h
    }

    pub open spec fn area(self) -> int {
        self.w * self.h
    }
}

impl Placement {
    /// The rectangle that the placed piece covers.
    pub open spec fn cell(self, pieces: Seq<Piece>) -> FreeRect {
        let p = pieces[self.piece_idx as int];
        FreeRect {
            sheet_idx: self.sheet_idx,
            x: self.x,
            y: self.y,
            w: p.placed_w(self.rotated),
            h: p.placed_h(self.rotated),
        }
    }
}

/// The rectangles that the placed pieces cover, in placement order.
pub open spec fn cells(pieces: Seq<Piece>, placements: Seq<Placement>) -> Seq<FreeRect> {
    Seq::new(placements.len(), |i: int| placements[i].cell(pieces))
}

/// The whole of sheet number `sheet_idx`.
pub open spec fn sheet_cell(sheet: Sheet, sheet_idx: int) -> FreeRect {
    FreeRect { sheet_idx: sheet_idx as usize, x: 0, y: 0, w: sheet.width, h: sheet.height }
}


/// One more than the greatest sheet index, 0 without placements.
pub open spec fn sheet_count(placements: Seq<Placement>) -> int
    decreases placements.len(),
{
    if placements.len() == 0 {
        0
    } else {
        let rest = sheet_count(placements.drop_last());
        if placements.last().sheet_idx + 1 > rest {
            placements.last().sheet_idx + 1
        } else {
            rest
        }
    }
}

/// Every placement is on a sheet below the count, and the last sheet holds one.
pub proof fn lemma_sheet_count(placements: Seq<Placement>)
    ensures
        sheet_count(placements) >= 0,
        forall|i: int|
            0 <= i < placements.len() ==> (#[trigger] placements[i]).sheet_idx < sheet_count(
                placements,
            ),
        placements.len() > 0 ==> exists|i: int|
            0 <= i < placements.len() && (#[trigger] placements[i]).sheet_idx + 1 == sheet_count(
                placements,
            ),
    decreases placements.len(),
{
    if placements.len() > 0 {
        let rest = placements.drop_last();
        lemma_sheet_count(rest);
        assert forall|i: int| 0 <= i < placements.len() implies (
        #[trigger] placements[i]).sheet_idx < sheet_count(placements) by {
            if i < rest.len() {
                assert(rest[i] == placements[i]);
            }
        }
        if placements.last().sheet_idx + 1 == sheet_count(placements) {
            assert(placements[placements.len() - 1].sheet_idx + 1 == sheet_count(placements));
        } else {
            let i = choose|i: int|
                0 <= i < rest.len() && (#[trigger] rest[i]).sheet_idx + 1 == sheet_count(rest);
            assert(placements[i] == rest[i]);
        }
    }
}

/// Number of sheets that the placements reach.
pub fn count_sheets(placements: &[Placement]) -> (n: usize)
    requires
        forall|i: int|
            0 <= i < placements@.len() ==> (#[trigger] placements@[i]).sheet_idx < usize::MAX,
    ensures
        n == sheet_count(placements@),
{
    let mut n: usize = 0;
    let mut k: usize = 0;
    assert(placements@.take(0) =~= Seq::empty());
    while k < placements.len()
        invariant
            k <= placements@.len(),
            forall|i: int|
                0 <= i < placements@.len() ==> (#[trigger] placements@[i]).sheet_idx < usize::MAX,
            n == sheet_count(placements@.take(k as int)),
        decreases placements@.len() - k,
    {
        assert(placements@.take(k + 1).drop_last() =~= placements@.take(k as int));
        if placements[k].sheet_idx + 1 > n {
            n = placements[k].sheet_idx + 1;
        }
        k += 1;
    }
    assert(placements@.take(k as int) =~= placements@);
    n
}

/// The placed piece does not reach over the sheet.
pub open spec fn in_sheet(problem: Problem, pl: Placement) -> bool {
    pl.cell(problem.pieces@).right() <= problem.sheet.width && pl.cell(problem.pieces@).bottom()
        <= problem.sheet.height
}

/// Every placed piece lies in its sheet, no two share an inner point, and the pieces of
/// every sheet can be cut out by edge-to-edge cuts.
pub open spec fn well_placed(problem: Problem, placements: Seq<Placement>) -> bool {
    &&& forall|i: int| 0 <= i < placements.len() ==> in_sheet(problem, #[trigger] placements[i])
    &&& forall|i: int, j: int|
        0 <= i < j < placements.len() ==> apart(
            (#[trigger] placements[i]).cell(problem.pieces@),
            (#[trigger] placements[j]).cell(problem.pieces@),
        )
    &&& forall|s: int|
        0 <= s < sheet_count(placements) ==> sheet_cuttable(problem, placements, s)
}

/// Size text such as `50x30`, with the multiplication sign.
pub open spec fn size_text(w: u32, h: u32) -> Seq<char> {
    decimal(w as nat) + "\u{d7}"@ + decimal(h as nat)
}

/// Position text such as `10,20`.
pub open spec fn spot_text(x: u32, y: u32) -> Seq<char> {
    decimal(x as nat) + ","@ + decimal(y as nat)
}

/// What is said of placement `i` that reaches over the sheet.
pub open spec fn excess_message(sheet: Sheet, i: int, c: FreeRect) -> Seq<char> {
    "piece["@ + decimal(i as nat) + "] at ("@ + spot_text(c.x, c.y) + ") "@ + size_text(c.w, c.h)
        + " exceeds sheet "@ + size_text(sheet.width, sheet.height)
}

/// What is said of placements `i` and `j` that share an inner point.
pub open spec fn overlap_message(i: int, a: FreeRect, j: int, b: FreeRect) -> Seq<char> {
    "piece["@ + decimal(i as nat) + "] ("@ + spot_text(a.x, a.y) + " "@ + size_text(a.w, a.h)
        + ") overlaps piece["@ + decimal(j as nat) + "] ("@ + spot_text(b.x, b.y) + " "@
        + size_text(b.w, b.h) + ") on sheet "@ + decimal(a.sheet_idx as nat)
}

/// What is said of placement `i` held against the first `n` placements.
pub open spec fn overlap_messages(
    problem: Problem,
    placements: Seq<Placement>,
    i: int,
    n: nat,
) -> Seq<Seq<char>>
    decreases n,
{
    if n == 0 {
        Seq::empty()
    } else {
        let j = n - 1;
        let rest = overlap_messages(problem, placements, i, j as nat);
        let a = placements[i].cell(problem.pieces@);
        let b = placements[j].cell(problem.pieces@);
        if apart(a, b) {
            rest
        } else {
            rest.push(overlap_message(i, a, j, b))
        }
    }
}

/// What is said of the first `n` placements.
pub open spec fn placement_messages(
    problem: Problem,
    placements: Seq<Placement>,
    n: nat,
) -> Seq<Seq<char>>
    decreases n,
{
    if n == 0 {
        Seq::empty()
    } else {
        let i = n - 1;
        let rest = placement_messages(problem, placements, i as nat);
        let own = if in_sheet(problem, placements[i]) {
            rest
        } else {
            rest.push(excess_message(problem.sheet, i, placements[i].cell(problem.pieces@)))
        };
        own + overlap_messages(problem, placements, i, i as nat)
    }
}

/// The first sheet, from `s` on, that cannot be cut by edge-to-edge cuts.
pub open spec fn first_uncuttable(problem: Problem, placements: Seq<Placement>, s: int) -> int
    decreases sheet_count(placements) - s,
{
    if s >= sheet_count(placements) || !sheet_cuttable(problem, placements, s) {
        s
    } else {
        first_uncuttable(problem, placements, s + 1)
    }
}

/// Everything that is wrong with the placements.
pub open spec fn all_messages(problem: Problem, placements: Seq<Placement>) -> Seq<Seq<char>> {
    let s = first_uncuttable(problem, placements, 0);
    let own = placement_messages(problem, placements, placements.len());
    if s < sheet_count(placements) {
        own.push("not guillotine: "@ + uncuttable_message(problem.sheet, s))
    } else {
        own
    }
}

pub open spec fn texts(list: Seq<String>) -> Seq<Seq<char>> {
    Seq::new(list.len(), |i: int| list[i]@)
}

proof fn lemma_first_uncuttable(problem: Problem, placements: Seq<Placement>, s: int, t: int)
    requires
        0 <= s <= t <= sheet_count(placements),
        forall|k: int| s <= k < t ==> sheet_cuttable(problem, placements, k),
        t == sheet_count(placements) || !sheet_cuttable(problem, placements, t),
    ensures
        first_uncuttable(problem, placements, s) == t,
    decreases t - s,
{
    if s < t {
        assert(sheet_cuttable(problem, placements, s));
        lemma_first_uncuttable(problem, placements, s + 1, t);
    }
}

proof fn lemma_no_messages(problem: Problem, placements: Seq<Placement>, n: nat)
    requires
        n <= placements.len(),
    ensures
        placement_messages(problem, placements, n).len() == 0 <==> {
            &&& forall|i: int| 0 <= i < n ==> in_sheet(problem, #[trigger] placements[i])
            &&& forall|i: int, j: int|
                0 <= i < j < n ==> apart(
                    (#[trigger] placements[i]).cell(problem.pieces@),
                    (#[trigger] placements[j]).cell(problem.pieces@),
                )
        },
    decreases n,
{
    if n > 0 {
        lemma_no_messages(problem, placements, (n - 1) as nat);
        lemma_no_overlap_messages(problem, placements, n - 1, (n - 1) as nat);
        let last = placements[n - 1].cell(problem.pieces@);
        if placement_messages(problem, placements, n).len() == 0 {
            assert forall|i: int, j: int| 0 <= i < j < n implies apart(
                (#[trigger] placements[i]).cell(problem.pieces@),
                (#[trigger] placements[j]).cell(problem.pieces@),
            ) by {
                if j == n - 1 {
                    assert(apart(last, placements[i].cell(problem.pieces@)));
                }
            }
        } else if placement_messages(problem, placements, (n - 1) as nat).len() == 0 && in_sheet(
            problem,
            placements[n - 1],
        ) {
            let j = choose|j: int|
                0 <= j < n - 1 && !apart(last, (#[trigger] placements[j]).cell(problem.pieces@));
            assert(!apart(placements[j].cell(problem.pieces@), last));
        }
    }
}

proof fn lemma_no_overlap_messages(problem: Problem, placements: Seq<Placement>, i: int, n: nat)
    requires
        0 <= i < placements.len(),
        n <= i,
    ensures
        overlap_messages(problem, placements, i, n).len() == 0 <==> forall|j: int|
            0 <= j < n ==> apart(
                placements[i].cell(problem.pieces@),
                (#[trigger] placements[j]).cell(problem.pieces@),
            ),
    decreases n,
{
    if n > 0 {
        lemma_no_overlap_messages(problem, placements, i, (n - 1) as nat);
    }
}

fn append_size(out: &mut String, w: u32, h: u32)
    ensures
        final(out)@ == old(out)@ + size_text(w, h),
{
    append_number(out, w as u64);
    out.append("\u{d7}");
    append_number(out, h as u64);
    assert(out@ =~= old(out)@ + size_text(w, h));
}

fn append_spot(out: &mut String, x: u32, y: u32)
    ensures
        final(out)@ == old(out)@ + spot_text(x, y),
{
    append_number(out, x as u64);
    out.append(",");
    append_number(out, y as u64);
    assert(out@ =~= old(out)@ + spot_text(x, y));
}

fn excess_text(sheet: Sheet, i: usize, c: FreeRect) -> (r: String)
    ensures
        r@ == excess_message(sheet, i as int, c),
{
    let mut out = String::from_str("piece[");
    append_number(&mut out, i as u64);
    out.append("] at (");
    append_spot(&mut out, c.x, c.y);
    out.append(") ");
    append_size(&mut out, c.w, c.h);
    out.append(" exceeds sheet ");
    append_size(&mut out, sheet.width, sheet.height);
    out
}

fn overlap_text(i: usize, a: FreeRect, j: usize, b: FreeRect) -> (r: String)
    ensures
        r@ == overlap_message(i as int, a, j as int, b),
{
    let mut out = String::from_str("piece[");
    append_number(&mut out, i as u64);
    out.append("] (");
    append_spot(&mut out, a.x, a.y);
    out.append(" ");
    append_size(&mut out, a.w, a.h);
    out.append(") overlaps piece[");
    append_number(&mut out, j as u64);
    out.append("] (");
    append_spot(&mut out, b.x, b.y);
    out.append(" ");
    append_size(&mut out, b.w, b.h);
    out.append(") on sheet ");
    append_number(&mut out, a.sheet_idx as u64);
    out
}

/// The rectangle that a placed piece covers.
pub fn placement_rect(pl: &Placement, problem: &Problem) -> (r: FreeRect)
    requires
        pl.piece_idx < problem.pieces.len(),
    ensures
        r == pl.cell(problem.pieces@),
{
    let p = &problem.pieces[pl.piece_idx];
    let (w, h) = if pl.rotated {
        (p.height, p.width)
    } else {
        (p.width, p.height)
    };
    FreeRect { sheet_idx: pl.sheet_idx, x: pl.x, y: pl.y, w, h }
}

fn are_apart(a: &FreeRect, b: &FreeRect) -> (r: bool)
    ensures
        r == apart(*a, *b),
{
    a.sheet_idx != b.sheet_idx || a.x as u64 + a.w as u64 <= b.x as u64 || b.x as u64 + b.w as u64
        <= a.x as u64 || a.y as u64 + a.h as u64 <= b.y as u64 || b.y as u64 + b.h as u64
        <= a.y as u64
}

/// Checks that no piece exceeds the sheet, that no two pieces of one sheet overlap, and that
/// every sheet can be cut by edge-to-edge cuts: one message for each fault, none for a
/// layout without fault.
pub fn validate_solution(problem: &Problem, sol: &Solution) -> (errors: Vec<String>)
    requires
        forall|i: int|
            0 <= i < sol.placements@.len() ==> {
                &&& (#[trigger] sol.placements@[i]).piece_idx < problem.pieces.len()
                &&& sol.placements@[i].sheet_idx < usize::MAX
            },
    ensures
        texts(errors@) == all_messages(*problem, sol.placements@),
        errors.len() == 0 <==> well_placed(*problem, sol.placements@),
{
    let mut errors: Vec<String> = Vec::new();
    let pls = &sol.placements;
    let mut i: usize = 0;
    assert(texts(errors@) =~= Seq::empty());
    while i < pls.len()
        invariant
            i <= pls.len(),
            pls@ == sol.placements@,
            forall|k: int|
                0 <= k < pls@.len() ==> (#[trigger] pls@[k]).piece_idx < problem.pieces.len(),
            texts(errors@) == placement_messages(*problem, pls@, i as nat),
        decreases pls.len() - i,
    {
        let a = placement_rect(&pls[i], problem);
        if a.x as u64 + a.w as u64 > problem.sheet.width as u64 || a.y as u64 + a.h as u64
            > problem.sheet.height as u64 {
            let ghost before = errors@;
            errors.push(excess_text(problem.sheet, i, a));
            assert(texts(errors@) =~= texts(before).push(
                excess_message(problem.sheet, i as int, a),
            ));
        }
        let ghost own = texts(errors@);
        let mut j: usize = 0;
        assert(own + overlap_messages(*problem, pls@, i as int, 0) =~= own);
        while j < i
            invariant
                j <= i < pls.len(),
                forall|k: int|
                    0 <= k < pls@.len() ==> (#[trigger] pls@[k]).piece_idx < problem.pieces.len(),
                a == pls@[i as int].cell(problem.pieces@),
                texts(errors@) == own + overlap_messages(*problem, pls@, i as int, j as nat),
            decreases i - j,
        {
            let b = placement_rect(&pls[j], problem);
            if !are_apart(&a, &b) {
                let ghost before = errors@;
                errors.push(overlap_text(i, a, j, b));
                assert(texts(errors@) =~= texts(before).push(
                    overlap_message(i as int, a, j as int, b),
                ));
                assert(texts(errors@) =~= own + overlap_messages(
                    *problem,
                    pls@,
                    i as int,
                    (j + 1) as nat,
                ));
            }
            j += 1;
        }
        i += 1;
    }
    let ghost own = placement_messages(*problem, pls@, pls@.len());
    proof {
        lemma_no_messages(*problem, pls@, pls@.len());
        lemma_sheet_count(pls@);
    }
    match build_cut_tree(problem, pls.as_slice()) {
        Ok(_) => {
            proof {
                lemma_first_uncuttable(*problem, pls@, 0, sheet_count(pls@));
            }
        },
        Err(message) => {
            let ghost s = choose|s: int|
                {
                    &&& 0 <= s < sheet_count(pls@)
                    &&& !sheet_cuttable(*problem, pls@, s)
                    &&& forall|k: int| 0 <= k < s ==> sheet_cuttable(*problem, pls@, k)
                    &&& message@ == #[trigger] uncuttable_message(problem.sheet, s)
                };
            proof {
                lemma_first_uncuttable(*problem, pls@, 0, s);
            }
            let mut text = String::from_str("not guillotine: ");
            text.append(message.as_str());
            errors.push(text);
            assert(texts(errors@) =~= own.push(
                "not guillotine: "@ + uncuttable_message(problem.sheet, s),
            ));
        },
    }
    errors
}

} // verus!
