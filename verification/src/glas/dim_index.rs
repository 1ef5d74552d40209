//! Piece types by the sides of their pieces.

use std::collections::HashMap;

use vstd::prelude::*;

use crate::expand::copies;
use crate::model::{Piece, PieceType, Problem, ProblemSpec};

verus! {

/// A piece type with a given side.
#[derive(Debug, Clone, Copy, PartialEq, Eq, Structural)]
pub struct TypeMatch {
    /// Index into `ProblemSpec::piece_types`.
    pub type_idx: usize,
    /// The piece has to be rotated to have that side.
    pub rotated: bool,
}

/// The piece types of which a piece, as it is or rotated, has a given width or a given height.
/// Sides have the width of the saw cut included.
pub struct DimIndex {
    pub by_w: HashMap<u32, Vec<TypeMatch>>,
    pub by_h: HashMap<u32, Vec<TypeMatch>>,
    pub none: Vec<TypeMatch>,
}

/// What is listed under a side.
pub open spec fn listed(map: Map<u32, Vec<TypeMatch>>, side: u32) -> Seq<TypeMatch> {
    if map.dom().contains(side) {
        map[side]@
    } else {
        Seq::empty()
    }
}

/// A list with one more match where a side is the one asked for.
pub open spec fn added(
    list: Seq<TypeMatch>,
    side: u32,
    asked: u32,
    type_idx: int,
    rotated: bool,
) -> Seq<TypeMatch> {
    if side == asked {
        list.push(TypeMatch { type_idx: type_idx as usize, rotated })
    } else {
        list
    }
}

/// The matches for a width (a height where `upright` is false) among the first `k` types. The
/// first copy of a type stands for all; a piece that may rotate and is not square counts in both
/// orientations.
pub open spec fn matches_for(
    types: Seq<PieceType>,
    problem: Problem,
    asked: u32,
    upright: bool,
    k: nat,
) -> Seq<TypeMatch>
    decreases k,
{
    if k == 0 {
        Seq::empty()
    } else {
        let rest = matches_for(types, problem, asked, upright, (k - 1) as nat);
        let p = problem.pieces@[copies(types, (k - 1) as nat) as int];
        let (a, b) = if upright {
            (p.width, p.height)
        } else {
            (p.height, p.width)
        };
        let one = added(rest, a, asked, k - 1, false);
        if p.can_rotate && p.width != p.height {
            added(one, b, asked, k - 1, true)
        } else {
            one
        }
    }
}

fn add_match(map: &mut HashMap<u32, Vec<TypeMatch>>, side: u32, type_idx: usize, rotated: bool)
    ensures
        forall|v: u32| #[trigger]
            listed(final(map)@, v) == added(
                listed(old(map)@, v),
                side,
                v,
                type_idx as int,
                rotated,
            ),
{
    broadcast use vstd::std_specs::hash::group_hash_axioms;

    let ghost before = map@;
    let mut list: Vec<TypeMatch> = match map.remove(&side) {
        Some(list) => list,
        None => Vec::new(),
    };
    assert(list@ == listed(before, side));
    list.push(TypeMatch { type_idx, rotated });
    let _ = map.insert(side, list);
    assert forall|v: u32| #[trigger] listed(map@, v) == added(
        listed(before, v),
        side,
        v,
        type_idx as int,
        rotated,
    ) by {}
}

impl DimIndex {
    /// Lists the piece types of a problem by the sides of their pieces.
    pub fn build(spec: &ProblemSpec, problem: &Problem) -> (r: Self)
        requires
            forall|t: int|
                0 <= t < spec.piece_types@.len() ==> #[trigger] copies(
                    spec.piece_types@,
                    t as nat,
                ) < problem.pieces@.len(),
        ensures
            forall|w: u32| #[trigger]
                listed(r.by_w@, w) == matches_for(
                    spec.piece_types@,
                    *problem,
                    w,
                    true,
                    spec.piece_types@.len(),
                ),
            forall|h: u32| #[trigger]
                listed(r.by_h@, h) == matches_for(
                    spec.piece_types@,
                    *problem,
                    h,
                    false,
                    spec.piece_types@.len(),
                ),
            r.none@.len() == 0,
    {
        broadcast use vstd::std_specs::hash::group_hash_axioms;

        let ghost types = spec.piece_types@;
        let mut by_w: HashMap<u32, Vec<TypeMatch>> = HashMap::new();
        let mut by_h: HashMap<u32, Vec<TypeMatch>> = HashMap::new();
        let mut offset: usize = 0;
        let mut k: usize = 0;
        while k < spec.piece_types.len()
            invariant
                k <= types.len(),
                types == spec.piece_types@,
                forall|t: int|
                    0 <= t < types.len() ==> #[trigger] copies(types, t as nat)
                        < problem.pieces@.len(),
                k < types.len() ==> offset == copies(types, k as nat),
                forall|w: u32| #[trigger]
                    listed(by_w@, w) == matches_for(types, *problem, w, true, k as nat),
                forall|h: u32| #[trigger]
                    listed(by_h@, h) == matches_for(types, *problem, h, false, k as nat),
            decreases types.len() - k,
        {
            let ghost (w0, h0) = (by_w@, by_h@);
            let ghost t = k as int;
            assert(copies(types, t as nat) < problem.pieces@.len());
            let p = &problem.pieces[offset];
            add_match(&mut by_w, p.width, k, false);
            add_match(&mut by_h, p.height, k, false);
            if p.can_rotate && p.width != p.height {
                let ghost (w1, h1) = (by_w@, by_h@);
                add_match(&mut by_w, p.height, k, true);
                add_match(&mut by_h, p.width, k, true);
                assert forall|v: u32| #[trigger] listed(by_w@, v) == matches_for(
                    types,
                    *problem,
                    v,
                    true,
                    (k + 1) as nat,
                ) by {
                    assert(listed(w1, v) == added(listed(w0, v), p.width, v, k as int, false));
                }
                assert forall|v: u32| #[trigger] listed(by_h@, v) == matches_for(
                    types,
                    *problem,
                    v,
                    false,
                    (k + 1) as nat,
                ) by {
                    assert(listed(h1, v) == added(listed(h0, v), p.height, v, k as int, false));
                }
            }
            if k + 1 < spec.piece_types.len() {
                let ghost u = k + 1;
                assert(problem.pieces.len() == problem.pieces@.len());
                assert(copies(types, u as nat) < problem.pieces@.len());
                offset = offset + spec.piece_types[k].count as usize;
            }
            k += 1;
        }
        DimIndex { by_w, by_h, none: Vec::new() }
    }

    /// The piece types of which a piece has the width `w`.
    pub fn by_width(&self, w: u32) -> (r: &[TypeMatch])
        requires
            self.none@.len() == 0,
        ensures
            r@ == listed(self.by_w@, w),
    {
        broadcast use vstd::std_specs::hash::group_hash_axioms;

        match self.by_w.get(&w) {
            Some(list) => list.as_slice(),
            None => {
                assert(self.none@ =~= Seq::empty());
                self.none.as_slice()
            },
        }
    }

    /// The piece types of which a piece has the height `h`.
    pub fn by_height(&self, h: u32) -> (r: &[TypeMatch])
        requires
            self.none@.len() == 0,
        ensures
            r@ == listed(self.by_h@, h),
    {
        broadcast use vstd::std_specs::hash::group_hash_axioms;

        match self.by_h.get(&h) {
            Some(list) => list.as_slice(),
            None => {
                assert(self.none@ =~= Seq::empty());
                self.none.as_slice()
            },
        }
    }
}

/// The piece of a type lies with the asked width, or height, turned or not. A square counts as it
/// is only.
pub open spec fn lies_with(p: Piece, asked: u32, upright: bool, rotated: bool) -> bool {
    &&& rotated ==> p.can_rotate && p.width != p.height
    &&& asked == if upright != rotated {
        p.width
    } else {
        p.height
    }
}

/// Under a side are listed the types, and the orientations, in which a piece has it; each once,
/// in the order of the types, not turned before turned.
pub proof fn law_listed_by_side(
    types: Seq<PieceType>,
    problem: Problem,
    asked: u32,
    upright: bool,
    k: nat,
)
    requires
        k <= types.len() <= usize::MAX,
    ensures
        ({
            let list = matches_for(types, problem, asked, upright, k);
            &&& forall|i: int|
                0 <= i < list.len() ==> {
                    let m = #[trigger] list[i];
                    m.type_idx < k && lies_with(
                        problem.pieces@[copies(types, m.type_idx as nat) as int],
                        asked,
                        upright,
                        m.rotated,
                    )
                }
            &&& forall|i: int, j: int|
                0 <= i < j < list.len() ==> {
                    let a = #[trigger] list[i];
                    let b = #[trigger] list[j];
                    a.type_idx < b.type_idx || (a.type_idx == b.type_idx && !a.rotated
                        && b.rotated)
                }
            &&& forall|m: TypeMatch|
                m.type_idx < k && lies_with(
                    problem.pieces@[copies(types, m.type_idx as nat) as int],
                    asked,
                    upright,
                    m.rotated,
                ) ==> #[trigger] list.contains(m)
        }),
    decreases k,
{
    if k > 0 {
        let n = (k - 1) as nat;
        law_listed_by_side(types, problem, asked, upright, n);
        let rest = matches_for(types, problem, asked, upright, n);
        let list = matches_for(types, problem, asked, upright, k);
        let p = problem.pieces@[copies(types, n) as int];
        assert forall|i: int| 0 <= i < rest.len() implies #[trigger] list[i] == rest[i] by {}
        assert forall|i: int| 0 <= i < list.len() implies ({
            let m = #[trigger] list[i];
            m.type_idx < k && lies_with(
                problem.pieces@[copies(types, m.type_idx as nat) as int],
                asked,
                upright,
                m.rotated,
            )
        }) by {
            if i < rest.len() {
                assert(rest[i].type_idx < n);
            }
        }
        assert forall|i: int, j: int| 0 <= i < j < list.len() implies ({
            let a = #[trigger] list[i];
            let b = #[trigger] list[j];
            a.type_idx < b.type_idx || (a.type_idx == b.type_idx && !a.rotated && b.rotated)
        }) by {
            if i < rest.len() {
                assert(rest[i].type_idx < n);
                if j < rest.len() {
                    assert(list[j] == rest[j]);
                }
            }
        }
        assert forall|m: TypeMatch|
            m.type_idx < k && lies_with(
                problem.pieces@[copies(types, m.type_idx as nat) as int],
                asked,
                upright,
                m.rotated,
            ) implies #[trigger] list.contains(m) by {
            if m.type_idx < n {
                assert(rest.contains(m));
                let i = choose|i: int| 0 <= i < rest.len() && rest[i] == m;
                assert(list[i] == m);
            } else if m.rotated {
                assert(list[list.len() - 1] == m);
            } else {
                assert(list[rest.len() as int] == m);
            }
        }
    }
}

} // verus!
