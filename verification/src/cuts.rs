//! Cutting a length at random into equal parts and a last one.

use rand_xoshiro::Xoshiro256StarStar;
use vstd::prelude::*;

use crate::rng::{after, after_draw, draw_between, drawn_from, next_of, next_u64};

verus! {

/// Sum of the first `k` weights.
pub open spec fn weight_sum(weights: Seq<u32>, k: nat) -> int
    decreases k,
{
    if k == 0 {
        0
    } else {
        weight_sum(weights, (k - 1) as nat) + weights[k - 1]
    }
}

/// The first index at which `part` in 2^24 of all weights is reached, from `k` on.
pub open spec fn reached_at(weights: Seq<u32>, part: int, k: nat) -> int
    decreases weights.len() - k,
{
    if k + 1 >= weights.len() {
        weights.len() - 1
    } else if part * weight_sum(weights, weights.len()) <= 0x100_0000 * weight_sum(
        weights,
        k + 1,
    ) {
        k as int
    } else {
        reached_at(weights, part, k + 1)
    }
}

/// An index drawn in proportion to the weights: the upper 24 bits drawn are a part of the whole.
pub open spec fn weighted_index(weights: Seq<u32>, rng: Xoshiro256StarStar) -> int {
    reached_at(weights, next_of(rng) as int / 0x100_0000_0000, 0)
}

proof fn lemma_weight_sum(weights: Seq<u32>, j: nat, k: nat)
    requires
        j <= k <= weights.len(),
    ensures
        0 <= weight_sum(weights, j) <= weight_sum(weights, k) <= k * 0xffff_ffff,
    decreases k,
{
    if k > 0 {
        if j < k {
            lemma_weight_sum(weights, j, (k - 1) as nat);
        } else {
            lemma_weight_sum(weights, (k - 1) as nat, (k - 1) as nat);
        }
    }
}

/// Draws an index in proportion to the weights.
pub fn weighted_sample(weights: &Vec<u32>, rng: &mut Xoshiro256StarStar) -> (r: usize)
    requires
        0 < weights@.len() <= u32::MAX,
        weight_sum(weights@, weights@.len()) > 0,
    ensures
        r == weighted_index(weights@, *old(rng)),
        r < weights@.len(),
        *final(rng) == after(*old(rng)),
{
    let n: usize = weights.len();
    let mut total: u128 = 0;
    let mut k: usize = 0;
    while k < n
        invariant
            k <= n,
            n == weights@.len(),
            n <= u32::MAX,
            total == weight_sum(weights@, k as nat),
            total <= k * 0xffff_ffff,
        decreases n - k,
    {
        total = total + weights[k] as u128;
        k += 1;
    }
    let part: u64 = next_u64(rng) / 0x100_0000_0000;
    assert(part < 0x100_0000);
    assert(part * total <= 0x100_0000 * (0xffff_ffff * 0xffff_ffff)) by (nonlinear_arith)
        requires
            0 <= part < 0x100_0000,
            0 <= total <= 0xffff_ffff * 0xffff_ffff,
    ;
    let goal: u128 = part as u128 * total;
    let mut sum: u128 = 0;
    let mut i: usize = 0;
    while i + 1 < n
        invariant
            i < n,
            n == weights@.len(),
            n <= u32::MAX,
            part == next_of(*old(rng)) / 0x100_0000_0000,
            *rng == after(*old(rng)),
            sum == weight_sum(weights@, i as nat),
            sum <= i * 0xffff_ffff,
            goal == part * weight_sum(weights@, n as nat),
            reached_at(weights@, part as int, 0) == reached_at(weights@, part as int, i as nat),
        decreases n - i,
    {
        sum = sum + weights[i] as u128;
        if goal <= 0x100_0000 * sum {
            return i;
        }
        i += 1;
    }
    n - 1
}

/// The largest equal part for `k` cuts, none where the parts would be too small.
pub open spec fn largest_part(extent: u32, min_size: u32, kerf: u32, k: int) -> Option<int> {
    if k == 0 {
        Some(extent as int)
    } else if extent < k * kerf + min_size {
        None
    } else {
        let a = (extent - k * kerf - min_size) / k;
        if a < min_size {
            None
        } else {
            Some(a)
        }
    }
}

/// The most cuts, `k` at most, that leave no part too small.
pub open spec fn most_cuts(extent: u32, min_size: u32, kerf: u32, k: nat) -> nat
    decreases k,
{
    if k == 0 || largest_part(extent, min_size, kerf, k as int) is Some {
        k
    } else {
        most_cuts(extent, min_size, kerf, (k - 1) as nat)
    }
}

/// `k` parts of length `a` and a last one.
pub open spec fn parts_of(extent: u32, kerf: u32, k: nat, a: u32) -> Seq<u32> {
    if k == 0 {
        seq![a]
    } else {
        Seq::new(k, |i: int| a).push((extent - k * (a + kerf)) as u32)
    }
}

/// The parts of a length, and the generator afterwards: a number of cuts by the weights, or the
/// next smaller one that leaves no part too small, and the length of the equal parts between the
/// least and the largest possible.
pub open spec fn cut_of(
    extent: u32,
    min_size: u32,
    kerf: u32,
    weights: Seq<u32>,
    rng: Xoshiro256StarStar,
) -> (Seq<u32>, Xoshiro256StarStar) {
    let k = most_cuts(extent, min_size, kerf, (weighted_index(weights, rng) + 1) as nat);
    let lo = if k == 0 {
        extent
    } else {
        min_size
    };
    let hi = largest_part(extent, min_size, kerf, k as int)->0 as u32;
    (
        parts_of(extent, kerf, k, drawn_from(after(rng), lo, hi)),
        after_draw(after(rng), lo, hi),
    )
}

/// Sum of the parts.
pub open spec fn part_sum(parts: Seq<u32>) -> int
    decreases parts.len(),
{
    if parts.len() == 0 {
        0
    } else {
        part_sum(parts.drop_last()) + parts.last()
    }
}

/// The parts are no smaller than they may be, all but the last are equal, and with the cuts
/// between them they make up the whole length.
pub open spec fn well_cut(extent: u32, min_size: u32, kerf: u32, parts: Seq<u32>) -> bool {
    &&& parts.len() >= 1
    &&& forall|i: int| 0 <= i < parts.len() ==> min_size <= #[trigger] parts[i]
    &&& forall|i: int, j: int|
        0 <= i < j < parts.len() - 1 ==> #[trigger] parts[i] == #[trigger] parts[j]
    &&& part_sum(parts) + (parts.len() - 1) * kerf == extent
}

proof fn lemma_equal_parts(k: nat, a: u32)
    ensures
        part_sum(Seq::new(k, |i: int| a)) == k * a,
    decreases k,
{
    let s = Seq::new(k, |i: int| a);
    if k > 0 {
        lemma_equal_parts((k - 1) as nat, a);
        assert(s.drop_last() =~= Seq::new((k - 1) as nat, |i: int| a));
        assert(k * a == (k - 1) * a + a) by (nonlinear_arith);
    } else {
        assert(k * a == 0) by (nonlinear_arith)
            requires
                k == 0,
        ;
    }
}

/// Parts made with an equal part in range are well cut.
pub proof fn lemma_parts(extent: u32, min_size: u32, kerf: u32, k: nat, a: u32)
    requires
        min_size <= extent,
        largest_part(extent, min_size, kerf, k as int) is Some,
        k == 0 ==> a == extent,
        k > 0 ==> min_size <= a <= largest_part(extent, min_size, kerf, k as int)->0,
    ensures
        well_cut(extent, min_size, kerf, parts_of(extent, kerf, k, a)),
        0 <= k * (a + kerf) <= extent || k == 0,
{
    let s = parts_of(extent, kerf, k, a);
    if k == 0 {
        reveal_with_fuel(part_sum, 2);
        assert(s.drop_last() =~= Seq::empty());
        assert((s.len() - 1) * kerf == 0) by (nonlinear_arith)
            requires
                s.len() == 1,
        ;
    } else {
        let room = extent - k * kerf - min_size;
        let most = room / (k as int);
        vstd::arithmetic::div_mod::lemma_fundamental_div_mod(room, k as int);
        vstd::arithmetic::div_mod::lemma_mod_bound(room, k as int);
        assert(k * a <= k * most) by (nonlinear_arith)
            requires
                a <= most,
                k >= 0,
        ;
        assert(k * (a + kerf) == k * a + k * kerf) by (nonlinear_arith);
        assert(k * a >= 0 && k * kerf >= 0) by (nonlinear_arith)
            requires
                k >= 0,
                a >= 0,
                kerf >= 0,
        ;
        let e = Seq::new(k, |i: int| a);
        lemma_equal_parts(k, a);
        assert(s.drop_last() =~= e);
        assert(s.last() >= min_size);
        assert((s.len() - 1) * kerf == k * kerf);
    }
}

proof fn lemma_most_cuts(extent: u32, min_size: u32, kerf: u32, k: nat)
    ensures
        most_cuts(extent, min_size, kerf, k) <= k,
        largest_part(
            extent,
            min_size,
            kerf,
            most_cuts(extent, min_size, kerf, k) as int,
        ) is Some,
    decreases k,
{
    if k > 0 {
        lemma_most_cuts(extent, min_size, kerf, (k - 1) as nat);
    }
}

/// Cuts a length at random. `weights[i]` is the chance of `i + 1` cuts, compared with the other
/// weights; where so many leave a part too small, fewer are made.
pub fn cut_pieces(
    extent: u32,
    min_size: u32,
    kerf: u32,
    weights: &Vec<u32>,
    rng: &mut Xoshiro256StarStar,
) -> (r: Vec<u32>)
    requires
        0 < weights@.len() < u32::MAX,
        weight_sum(weights@, weights@.len()) > 0,
        min_size <= extent,
    ensures
        (r@, *final(rng)) == cut_of(extent, min_size, kerf, weights@, *old(rng)),
        well_cut(extent, min_size, kerf, r@),
{
    let idx: usize = weighted_sample(weights, rng);
    let ghost desired = (weighted_index(weights@, *old(rng)) + 1) as nat;
    let mut k: u32 = idx as u32 + 1;
    let mut hi: u32 = extent;
    let mut searching = true;
    while searching
        invariant
            k <= desired,
            searching ==> most_cuts(extent, min_size, kerf, k as nat) == most_cuts(
                extent,
                min_size,
                kerf,
                desired,
            ),
            !searching ==> {
                &&& k == most_cuts(extent, min_size, kerf, desired)
                &&& largest_part(extent, min_size, kerf, k as int) == Some(hi as int)
            },
        decreases
            k,
            (if searching {
                1int
            } else {
                0int
            }),
    {
        if k == 0 {
            hi = extent;
            searching = false;
        } else {
            assert(k * kerf <= 0xffff_ffff * 0xffff_ffff) by (nonlinear_arith)
                requires
                    0 <= k <= 0xffff_ffff,
                    0 <= kerf <= 0xffff_ffff,
            ;
            let used: u64 = k as u64 * kerf as u64;
            assert(used <= 0xffff_fffe_0000_0001);
            if extent as u64 >= used && extent as u64 - used >= min_size as u64 {
                let a: u64 = (extent as u64 - used - min_size as u64) / k as u64;
                proof {
                    let (x, d) = ((extent - used - min_size) as int, k as int);
                    assert(0 <= x / d <= x) by (nonlinear_arith)
                        requires
                            x >= 0,
                            d >= 1,
                    ;
                }
                if a >= min_size as u64 {
                    hi = a as u32;
                    searching = false;
                } else {
                    k = k - 1;
                }
            } else {
                k = k - 1;
            }
        }
    }
    let lo: u32 = if k == 0 {
        extent
    } else {
        min_size
    };
    let a: u32 = draw_between(rng, lo, hi);
    proof {
        lemma_parts(extent, min_size, kerf, k as nat, a);
    }
    let mut out: Vec<u32> = Vec::new();
    if k == 0 {
        out.push(a);
        assert(out@ =~= parts_of(extent, kerf, 0, a));
        return out;
    }
    let mut i: u32 = 0;
    while i < k
        invariant
            i <= k,
            out@ =~= Seq::new(i as nat, |j: int| a),
        decreases k - i,
    {
        out.push(a);
        i += 1;
    }
    proof {
        assert(k * (a + kerf) <= extent);
        assert(a + kerf <= k * (a + kerf)) by (nonlinear_arith)
            requires
                k >= 1,
                a + kerf >= 0,
        ;
    }
    out.push(extent - k * (a + kerf));
    assert(out@ =~= parts_of(extent, kerf, k as nat, a));
    out
}

/// An index is drawn by weight: of the part of the whole that was drawn, the weights in front of
/// it fall short, and with its own they do not, unless it is the last.
pub proof fn law_index_drawn_by_weight(weights: Seq<u32>, rng: Xoshiro256StarStar)
    requires
        weights.len() > 0,
    ensures
        ({
            let i = weighted_index(weights, rng);
            let part = next_of(rng) as int / 0x100_0000_0000;
            let all = weight_sum(weights, weights.len());
            &&& 0 <= i < weights.len()
            &&& i > 0 ==> 0x100_0000 * weight_sum(weights, i as nat) < part * all
            &&& i < weights.len() - 1 ==> part * all <= 0x100_0000 * weight_sum(
                weights,
                (i + 1) as nat,
            )
        }),
{
    lemma_reached_at(weights, next_of(rng) as int / 0x100_0000_0000, 0);
}

proof fn lemma_reached_at(weights: Seq<u32>, part: int, k: nat)
    requires
        k < weights.len(),
        k > 0 ==> 0x100_0000 * weight_sum(weights, k) < part * weight_sum(weights, weights.len()),
    ensures
        ({
            let i = reached_at(weights, part, k);
            let all = weight_sum(weights, weights.len());
            &&& k <= i < weights.len()
            &&& i > 0 ==> 0x100_0000 * weight_sum(weights, i as nat) < part * all
            &&& i < weights.len() - 1 ==> part * all <= 0x100_0000 * weight_sum(
                weights,
                (i + 1) as nat,
            )
        }),
    decreases weights.len() - k,
{
    if k + 1 < weights.len() && part * weight_sum(weights, weights.len()) > 0x100_0000 * weight_sum(
        weights,
        k + 1,
    ) {
        lemma_reached_at(weights, part, k + 1);
    }
}

/// `k` equal parts of length `a`, each with a cut behind it, leave a last part that is not too
/// small, and are not too small themselves.
pub open spec fn leaves_enough(extent: u32, min_size: u32, kerf: u32, k: int, a: int) -> bool {
    min_size <= a && k * (a + kerf) + min_size <= extent
}

/// The largest equal part for some cuts is the largest that leaves enough; there is none where
/// not even the least part does.
pub proof fn law_largest_part_leaves_enough(
    extent: u32,
    min_size: u32,
    kerf: u32,
    k: int,
    a: int,
)
    requires
        k >= 1,
        a >= 0,
    ensures
        match largest_part(extent, min_size, kerf, k) {
            Some(m) => leaves_enough(extent, min_size, kerf, k, m) && (leaves_enough(
                extent,
                min_size,
                kerf,
                k,
                a,
            ) ==> a <= m),
            None => !leaves_enough(extent, min_size, kerf, k, a),
        },
{
    let room = extent - k * kerf - min_size;
    assert(k * (a + kerf) == k * a + k * kerf) by (nonlinear_arith);
    assert(k * a >= 0) by (nonlinear_arith)
        requires
            k >= 1,
            a >= 0,
    ;
    if room >= 0 {
        let m = room / k;
        vstd::arithmetic::div_mod::lemma_fundamental_div_mod(room, k);
        vstd::arithmetic::div_mod::lemma_mod_bound(room, k);
        assert(k * (m + kerf) == k * m + k * kerf) by (nonlinear_arith);
        if k * a <= room {
            assert(a <= m) by (nonlinear_arith)
                requires
                    k * a <= k * m + room % k,
                    room % k < k,
                    k >= 1,
            ;
        }
    }
}

/// As many cuts are made as are wished, or the next smaller number that leaves no part too small.
pub proof fn law_no_more_cuts_leave_enough(
    extent: u32,
    min_size: u32,
    kerf: u32,
    wished: nat,
    j: nat,
)
    ensures
        ({
            let k = most_cuts(extent, min_size, kerf, wished);
            &&& k <= wished
            &&& k > 0 ==> leaves_enough(extent, min_size, kerf, k as int, min_size as int)
            &&& k < j <= wished ==> !leaves_enough(
                extent,
                min_size,
                kerf,
                j as int,
                min_size as int,
            )
        }),
    decreases wished,
{
    if wished > 0 {
        law_largest_part_leaves_enough(extent, min_size, kerf, wished as int, min_size as int);
        if let Some(m) = largest_part(extent, min_size, kerf, wished as int) {
            let w = wished as int;
            assert(w * (min_size + kerf) <= w * (m + kerf)) by (nonlinear_arith)
                requires
                    min_size <= m,
                    w >= 1,
            ;
        } else {
            law_no_more_cuts_leave_enough(extent, min_size, kerf, (wished - 1) as nat, j);
        }
    }
}

} // verus!
