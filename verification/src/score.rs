//! Path-score comparison.
//!
//! A found route is scored as `acc / len^p`, where `acc` is the accumulated
//! army gain, `len` the path length and `p` the configured score power.
//! Scores are only ever compared, never stored, so the comparisons are done
//! exactly on integers by cross-multiplying with the positive quantities
//! `len^p`, instead of dividing.

use vstd::prelude::*;
use vstd::arithmetic::power::pow;

verus! {

/// Upper bound on the magnitude of an accumulated path score:
/// `(MAX_TILES + 1) * (MAX_AMOUNT + 1)`.
pub const ACC_MAX: i64 = 4097004097;

/// `MAX_TILES` to the fourth power, the largest length power used.
pub const POW_MAX: i64 = 281474976710656;

/// `a1 / l1^p > a2 / l2^p`, stated without division by cross-multiplying
/// with the positive quantities `l1^p` and `l2^p`.
pub open spec fn score_gt(a1: int, l1: int, a2: int, l2: int, p: nat) -> bool
    recommends
        l1 >= 1,
        l2 >= 1,
{
    a1 * pow(l2, p) > a2 * pow(l1, p)
}

/// `a1 / l1^p < (a2 / l2^p) / 2`, cross-multiplied likewise.
pub open spec fn score_twice_lt(a1: int, l1: int, a2: int, l2: int, p: nat) -> bool
    recommends
        l1 >= 1,
        l2 >= 1,
{
    2 * a1 * pow(l2, p) < a2 * pow(l1, p)
}

/// `l` to the power `p`, for path lengths.
pub fn pow_len(l: usize, p: u32) -> (r: i64)
    requires
        1 <= l <= crate::map::MAX_TILES,
        1 <= p <= 4,
    ensures
        r == pow(l as int, p as nat),
        1 <= r <= POW_MAX,
{
    proof {
        reveal_with_fuel(vstd::arithmetic::power::pow, 6);
    }
    let li: i64 = l as i64;
    if p == 1 {
        li
    } else if p == 2 {
        proof {
            assert(1 <= li * li <= 4096 * 4096) by (nonlinear_arith)
                requires
                    1 <= li <= 4096,
            ;
            assert(pow(li as int, 2) == li * (li * 1));
        }
        li * li
    } else if p == 3 {
        proof {
            assert(1 <= li * li <= 4096 * 4096) by (nonlinear_arith)
                requires
                    1 <= li <= 4096,
            ;
            assert(1 <= (li * li) * li <= (4096 * 4096) * 4096) by (nonlinear_arith)
                requires
                    1 <= li <= 4096,
                    1 <= li * li <= 4096 * 4096,
            ;
            assert(li * (li * (li * 1)) == (li * li) * li) by (nonlinear_arith);
            assert(pow(li as int, 3) == li * (li * (li * 1)));
        }
        li * li * li
    } else {
        proof {
            assert(1 <= li * li <= 4096 * 4096) by (nonlinear_arith)
                requires
                    1 <= li <= 4096,
            ;
            assert(1 <= (li * li) * (li * li) <= (4096 * 4096) * (4096 * 4096))
                by (nonlinear_arith)
                requires
                    1 <= li * li <= 4096 * 4096,
            ;
            assert(li * (li * (li * (li * 1))) == (li * li) * (li * li)) by (nonlinear_arith);
            assert(pow(li as int, 4) == li * (li * (li * (li * 1))));
        }
        let s = li * li;
        s * s
    }
}

/// Decide `a1 / l1^p > a2 / l2^p` exactly.
pub fn cand_better(a1: i64, l1: usize, a2: i64, l2: usize, p: u32) -> (r: bool)
    requires
        -ACC_MAX <= a1 <= ACC_MAX,
        -ACC_MAX <= a2 <= ACC_MAX,
        1 <= l1 <= crate::map::MAX_TILES,
        1 <= l2 <= crate::map::MAX_TILES,
        1 <= p <= 4,
    ensures
        r == score_gt(a1 as int, l1 as int, a2 as int, l2 as int, p as nat),
{
    let p1 = pow_len(l1, p);
    let p2 = pow_len(l2, p);
    proof {
        assert(-(ACC_MAX as int) * (POW_MAX as int) <= (a1 as int) * (p2 as int) <= (ACC_MAX
            as int) * (POW_MAX as int)) by (nonlinear_arith)
            requires
                -ACC_MAX <= a1 <= ACC_MAX,
                1 <= p2 <= POW_MAX,
        ;
        assert(-(ACC_MAX as int) * (POW_MAX as int) <= (a2 as int) * (p1 as int) <= (ACC_MAX
            as int) * (POW_MAX as int)) by (nonlinear_arith)
            requires
                -ACC_MAX <= a2 <= ACC_MAX,
                1 <= p1 <= POW_MAX,
        ;
    }
    let lhs: i128 = (a1 as i128) * (p2 as i128);
    let rhs: i128 = (a2 as i128) * (p1 as i128);
    lhs > rhs
}

/// Decide `a1 / l1^p < (a2 / l2^p) / 2` exactly.
pub fn cand_twice_lt(a1: i64, l1: usize, a2: i64, l2: usize, p: u32) -> (r: bool)
    requires
        -ACC_MAX <= a1 <= ACC_MAX,
        -ACC_MAX <= a2 <= ACC_MAX,
        1 <= l1 <= crate::map::MAX_TILES,
        1 <= l2 <= crate::map::MAX_TILES,
        1 <= p <= 4,
    ensures
        r == score_twice_lt(a1 as int, l1 as int, a2 as int, l2 as int, p as nat),
{
    let p1 = pow_len(l1, p);
    let p2 = pow_len(l2, p);
    proof {
        assert(-2 * (ACC_MAX as int) * (POW_MAX as int) <= 2 * (a1 as int) * (p2 as int) <= 2 * (
        ACC_MAX as int) * (POW_MAX as int)) by (nonlinear_arith)
            requires
                -ACC_MAX <= a1 <= ACC_MAX,
                1 <= p2 <= POW_MAX,
        ;
        assert(-(ACC_MAX as int) * (POW_MAX as int) <= (a2 as int) * (p1 as int) <= (ACC_MAX
            as int) * (POW_MAX as int)) by (nonlinear_arith)
            requires
                -ACC_MAX <= a2 <= ACC_MAX,
                1 <= p1 <= POW_MAX,
        ;
    }
    let lhs: i128 = 2 * (a1 as i128) * (p2 as i128);
    let rhs: i128 = (a2 as i128) * (p1 as i128);
    lhs < rhs
}

} // verus!
