//! The relaxation formula of one cell.

use vstd::prelude::*;
use crate::fixed::{LEVEL_LIMIT, ONE};

verus! {

/// The smallest of five levels.
pub open spec fn least(a: int, b: int, c: int, d: int, e: int) -> int {
    let ab = if a <= b { a } else { b };
    let cd = if c <= d { c } else { d };
    let abcd = if ab <= cd { ab } else { cd };
    if abcd <= e { abcd } else { e }
}

/// The largest of five levels.
pub open spec fn greatest(a: int, b: int, c: int, d: int, e: int) -> int {
    let ab = if a >= b { a } else { b };
    let cd = if c >= d { c } else { d };
    let abcd = if ab >= cd { ab } else { cd };
    if abcd >= e { abcd } else { e }
}

/// The relaxed level of a cell: with `K = strength / 2^32`, the value
/// `(own + K * (right + left + up + down) / 4) / (1 + K)`, rounded down to the
/// next stored level.
///
/// The cell keeps the weight `1 / (1 + K)` and each of the four neighbours
/// gets `K / (4 * (1 + K))`; the five weights add up to one.
pub open spec fn blend(own: int, right: int, left: int, up: int, down: int, strength: int) -> int {
    (4 * ONE * own + strength * (right + left + up + down)) / (4 * (ONE + strength))
}

/// The relaxed level lies between the smallest and the largest of the five
/// levels it is computed from, for every strength that is not negative.
pub proof fn lemma_blend_within_inputs(
    own: int,
    right: int,
    left: int,
    up: int,
    down: int,
    strength: int,
)
    requires
        strength >= 0,
    ensures
        least(own, right, left, up, down) <= blend(own, right, left, up, down, strength),
        blend(own, right, left, up, down, strength) <= greatest(own, right, left, up, down),
{
    let lo = least(own, right, left, up, down);
    let hi = greatest(own, right, left, up, down);
    let sum = right + left + up + down;
    let own_weight = 4 * ONE;
    let num = own_weight * own + strength * sum;
    let den = own_weight + 4 * strength;
    assert(den * lo <= num <= den * hi) by (nonlinear_arith)
        requires
            own_weight > 0,
            strength >= 0,
            lo <= own <= hi,
            4 * lo <= sum <= 4 * hi,
            num == own_weight * own + strength * sum,
            den == own_weight + 4 * strength,
    ;
    assert(lo <= num / den <= hi) by (nonlinear_arith)
        requires
            den > 0,
            den * lo <= num <= den * hi,
    ;
}

/// Computes the relaxed level of one cell from its own level, the levels of
/// its four neighbours and the diffusion strength. No level is above
/// `LEVEL_LIMIT`.
pub fn relax_cell(own: u64, right: u64, left: u64, up: u64, down: u64, strength: u64) -> (next: u64)
    requires
        own <= LEVEL_LIMIT,
        right <= LEVEL_LIMIT,
        left <= LEVEL_LIMIT,
        up <= LEVEL_LIMIT,
        down <= LEVEL_LIMIT,
    ensures
        next == blend(own as int, right as int, left as int, up as int, down as int, strength as int),
        least(own as int, right as int, left as int, up as int, down as int) <= next,
        next <= greatest(own as int, right as int, left as int, up as int, down as int),
{
    let sum: u128 = right as u128 + left as u128 + up as u128 + down as u128;
    let own_weight: u128 = 4 * (ONE as u128);
    assert(own_weight * own <= 0x4_0000_0000 * 0x2000_0000_0000_0000) by (nonlinear_arith)
        requires
            own_weight == 0x4_0000_0000,
            own <= 0x2000_0000_0000_0000,
    ;
    assert(strength * sum <= 0xffff_ffff_ffff_ffff * 0x8000_0000_0000_0000) by (nonlinear_arith)
        requires
            strength <= 0xffff_ffff_ffff_ffff,
            sum <= 0x8000_0000_0000_0000,
    ;
    let num: u128 = own_weight * (own as u128) + (strength as u128) * sum;
    let den: u128 = own_weight + 4 * (strength as u128);
    let next: u128 = num / den;
    proof {
        lemma_blend_within_inputs(
            own as int,
            right as int,
            left as int,
            up as int,
            down as int,
            strength as int,
        );
    }
    next as u64
}

} // verus!
