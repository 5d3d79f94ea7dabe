//! Candidate scoring: inverse linear interpolation over the word-length
//! envelope, and exact fraction arithmetic for comparing candidate scores.
//! Scores are kept as exact non-negative rationals so that comparisons are
//! free of rounding.

use vstd::arithmetic::div_mod::lemma_fundamental_div_mod;
use vstd::prelude::*;

verus! {

/// An exact non-negative fraction with a positive denominator.
pub struct Frac {
    pub num: u64,
    pub den: u64,
}

/// The value of `inverse_lerp` as an exact fraction `(numerator, denominator)`:
/// how far `point` sits between `left` and `right`, and 1 when the interval
/// is empty.
pub open spec fn inverse_lerp_spec(left: int, right: int, point: int) -> (int, int) {
    if right == left {
        (1, 1)
    } else {
        (point - left, right - left)
    }
}

/// `a/b <= c/d` for positive denominators.
pub open spec fn frac_le(a: int, b: int, c: int, d: int) -> bool {
    a * d <= c * b
}

/// Find the relative position of a point in an interval: the inverse of
/// linear interpolation. The point must lie inside the interval.
pub fn inverse_lerp(left: usize, right: usize, point: usize) -> (r: Frac)
    requires
        left <= point,
        point <= right,
    ensures
        r.den > 0,
        r.num <= r.den,
        (r.num as int, r.den as int) == inverse_lerp_spec(left as int, right as int, point as int),
{
    if right == left {
        Frac { num: 1, den: 1 }
    } else {
        Frac { num: (point - left) as u64, den: (right - left) as u64 }
    }
}

/// The inverse interpolation is 0 at the left endpoint (1 when the interval
/// is empty), and 1 at the right endpoint.
pub proof fn lemma_inverse_lerp_endpoints(left: int, right: int)
    requires
        left <= right,
    ensures
        left < right ==> inverse_lerp_spec(left, right, left).0 == 0,
        left == right ==> inverse_lerp_spec(left, right, left) == (1int, 1int),
        inverse_lerp_spec(left, right, right).0 == inverse_lerp_spec(left, right, right).1,
{
}

/// The inverse interpolation is monotone non-decreasing in the point.
pub proof fn lemma_inverse_lerp_monotone(left: int, right: int, x: int, y: int)
    requires
        left <= x,
        x <= y,
        y <= right,
    ensures
        frac_le(
            inverse_lerp_spec(left, right, x).0,
            inverse_lerp_spec(left, right, x).1,
            inverse_lerp_spec(left, right, y).0,
            inverse_lerp_spec(left, right, y).1,
        ),
{
    if left < right {
        assert((x - left) * (right - left) <= (y - left) * (right - left)) by (nonlinear_arith)
            requires
                x <= y,
                left < right,
        ;
    }
}

/// A candidate's score: an exact non-negative fraction with a positive
/// denominator.
pub struct Score {
    pub num: u128,
    pub den: u128,
}

/// Strict order on scores as mathematical fractions.
pub open spec fn score_gt_spec(a: Score, b: Score) -> bool {
    (a.num as int) * (b.den as int) > (b.num as int) * (a.den as int)
}

/// The score of a length-acceptable candidate: the closeness fraction plus
/// the matched pattern's termination probability `tw / last` (0 when the
/// pattern's weight total is 0), over the common denominator.
pub open spec fn combined_score(cn: int, cd: int, tw: int, last: int) -> (int, int) {
    let d2 = if last > 0 {
        last
    } else {
        1
    };
    let n2 = if last > 0 {
        tw
    } else {
        0
    };
    (cn * d2 + n2 * cd, cd * d2)
}

/// Add a pattern's termination probability to a closeness fraction.
pub fn score_of(closeness: Frac, termination_weight: u32, last: u32) -> (s: Score)
    requires
        closeness.den > 0,
        closeness.num <= closeness.den,
        closeness.den <= u32::MAX,
        termination_weight <= last,
    ensures
        s.den > 0,
        (s.num as int, s.den as int) == combined_score(
            closeness.num as int,
            closeness.den as int,
            termination_weight as int,
            last as int,
        ),
{
    let d2: u128 = if last > 0 {
        last as u128
    } else {
        1
    };
    let n2: u128 = if last > 0 {
        termination_weight as u128
    } else {
        0
    };
    let cn = closeness.num as u128;
    let cd = closeness.den as u128;
    proof {
        assert(cn * d2 <= 0xffff_ffff * 0x1_0000_0000) by (nonlinear_arith)
            requires
                cn <= 0xffff_ffff,
                d2 <= 0x1_0000_0000,
        ;
        assert(n2 * cd <= 0xffff_ffff * 0x1_0000_0000) by (nonlinear_arith)
            requires
                n2 <= 0xffff_ffff,
                cd <= 0x1_0000_0000,
        ;
        assert(cd * d2 <= 0x1_0000_0000 * 0x1_0000_0000) by (nonlinear_arith)
            requires
                cd <= 0x1_0000_0000,
                d2 <= 0x1_0000_0000,
        ;
        assert(cd * d2 > 0) by (nonlinear_arith)
            requires
                cd > 0,
                d2 > 0,
        ;
    }
    Score { num: cn * d2 + n2 * cd, den: cd * d2 }
}

/// Comparing numerators against denominators splits into comparing the
/// integer parts and then the remainders.
proof fn lemma_div_parts(n1: int, d1: int, n2: int, d2: int, q1: int, r1: int, q2: int, r2: int)
    by (nonlinear_arith)
    requires
        d1 > 0,
        d2 > 0,
        n1 == q1 * d1 + r1,
        0 <= r1 < d1,
        n2 == q2 * d2 + r2,
        0 <= r2 < d2,
    ensures
        (n1 * d2 > n2 * d1) == (q1 > q2 || (q1 == q2 && r1 * d2 > r2 * d1)),
{
}

/// Decide `n1/d1 > n2/d2` exactly, without overflowing: compare integer
/// parts, then recurse on the inverted remainders, as in Euclid's algorithm.
fn frac_gt_exec(n1: u128, d1: u128, n2: u128, d2: u128) -> (r: bool)
    requires
        d1 > 0,
        d2 > 0,
    ensures
        r == ((n1 as int) * (d2 as int) > (n2 as int) * (d1 as int)),
    decreases d1 + d2,
{
    let q1 = n1 / d1;
    let r1 = n1 % d1;
    let q2 = n2 / d2;
    let r2 = n2 % d2;
    proof {
        lemma_fundamental_div_mod(n1 as int, d1 as int);
        lemma_fundamental_div_mod(n2 as int, d2 as int);
        lemma_div_parts(
            n1 as int,
            d1 as int,
            n2 as int,
            d2 as int,
            q1 as int,
            r1 as int,
            q2 as int,
            r2 as int,
        );
    }
    if q1 != q2 {
        proof {
            assert((q1 > q2) == ((n1 as int) * (d2 as int) > (n2 as int) * (d1 as int)));
        }
        q1 > q2
    } else if r1 == 0 {
        proof {
            assert((r2 as int) * (d1 as int) >= 0) by (nonlinear_arith)
                requires
                    r2 >= 0,
                    d1 > 0,
            ;
            assert((r1 as int) == 0);
            assert((r1 as int) * (d2 as int) == 0) by (nonlinear_arith)
                requires
                    (r1 as int) == 0,
            ;
            assert(false == ((n1 as int) * (d2 as int) > (n2 as int) * (d1 as int)));
        }
        false
    } else if r2 == 0 {
        proof {
            assert((r1 as int) * (d2 as int) > 0) by (nonlinear_arith)
                requires
                    r1 > 0,
                    d2 > 0,
            ;
            assert((r2 as int) == 0);
            assert((r2 as int) * (d1 as int) == 0) by (nonlinear_arith)
                requires
                    (r2 as int) == 0,
            ;
            assert(true == ((n1 as int) * (d2 as int) > (n2 as int) * (d1 as int)));
        }
        true
    } else {
        let r = frac_gt_exec(d2, r2, d1, r1);
        proof {
            assert(((d2 as int) * (r1 as int) > (d1 as int) * (r2 as int)) == ((r1 as int) * (d2
                as int) > (r2 as int) * (d1 as int))) by (nonlinear_arith);
            assert(r == ((n1 as int) * (d2 as int) > (n2 as int) * (d1 as int)));
        }
        r
    }
}

/// Decide whether one score strictly exceeds another.
pub fn score_gt(a: &Score, b: &Score) -> (r: bool)
    requires
        a.den > 0,
        b.den > 0,
    ensures
        r == score_gt_spec(*a, *b),
{
    frac_gt_exec(a.num, a.den, b.num, b.den)
}

} // verus!
