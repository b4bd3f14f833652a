//! Integer square root, used for window energy, feature distances and the
//! root-mean-square level. All acoustic magnitudes in this crate are fixed
//! point, so their square roots are taken over the integers: `isqrt(x)` is
//! the largest `r` with `r * r <= x`.

use vstd::prelude::*;

verus! {

/// The integer square root of `x`: the largest `r` with `r * r <= x`.
pub open spec fn isqrt_spec(x: nat) -> nat
    decreases x,
{
    if x == 0 {
        0
    } else {
        let r = isqrt_spec((x - 1) as nat);
        if (r + 1) * (r + 1) <= x {
            r + 1
        } else {
            r
        }
    }
}

/// `isqrt_spec(x)` squares to at most `x`, and is the largest such number.
pub proof fn lemma_isqrt_bounds(x: nat)
    ensures
        isqrt_spec(x) * isqrt_spec(x) <= x,
        x < (isqrt_spec(x) + 1) * (isqrt_spec(x) + 1),
    decreases x,
{
    if x == 0 {
        assert(isqrt_spec(0) == 0);
        assert(isqrt_spec(x) * isqrt_spec(x) <= x);
        assert(x < (isqrt_spec(x) + 1) * (isqrt_spec(x) + 1)) by (nonlinear_arith)
            requires
                x == 0,
                isqrt_spec(x) == 0,
        ;
    } else {
        lemma_isqrt_bounds((x - 1) as nat);
        let r = isqrt_spec((x - 1) as nat);
        assert(r * r <= x - 1 < (r + 1) * (r + 1));
        if (r + 1) * (r + 1) <= x {
            assert(x < (r + 2) * (r + 2)) by (nonlinear_arith)
                requires
                    x - 1 < (r + 1) * (r + 1),
                    (r + 1) * (r + 1) <= x,
            ;
            assert(isqrt_spec(x) == r + 1);
            assert(isqrt_spec(x) * isqrt_spec(x) <= x);
            assert(x < (isqrt_spec(x) + 1) * (isqrt_spec(x) + 1));
        } else {
            assert(isqrt_spec(x) == r);
            assert(isqrt_spec(x) * isqrt_spec(x) <= x);
            assert(x < (isqrt_spec(x) + 1) * (isqrt_spec(x) + 1));
        }
    }
}

/// Any `r` whose square brackets `x` is the integer square root of `x`.
pub proof fn lemma_isqrt_unique(x: nat, r: nat)
    requires
        r * r <= x,
        x < (r + 1) * (r + 1),
    ensures
        r == isqrt_spec(x),
{
    lemma_isqrt_bounds(x);
    let s = isqrt_spec(x);
    if r < s {
        assert(false) by (nonlinear_arith)
            requires
                r < s,
                s * s <= x,
                x < (r + 1) * (r + 1),
            ;
    }
    if s < r {
        assert(false) by (nonlinear_arith)
            requires
                s < r,
                r * r <= x,
                x < (s + 1) * (s + 1),
            ;
    }
}

/// A square below `b * b` has a root below `b`.
pub proof fn lemma_isqrt_lt(x: nat, b: nat)
    requires
        x < b * b,
    ensures
        isqrt_spec(x) < b,
{
    lemma_isqrt_bounds(x);
    let s = isqrt_spec(x);
    if s >= b {
        assert(false) by (nonlinear_arith)
            requires
                b <= s,
                s * s <= x,
                x < b * b,
            ;
    }
}

/// A quotient of a value at most `d * b` by `d` is at most `b`.
pub proof fn lemma_div_le_bound(x: int, b: int, d: int)
    requires
        0 <= x,
        x <= d * b,
        1 <= d,
        0 <= b,
    ensures
        0 <= x / d <= b,
{
    vstd::arithmetic::div_mod::lemma_div_is_ordered(x, d * b, d);
    assert(d * b / d == b) by (nonlinear_arith)
        requires
            1 <= d,
    ;
    vstd::arithmetic::div_mod::lemma_div_pos_is_pos(x, d);
}

/// Computes the integer square root by binary search.
pub fn isqrt(x: u128) -> (r: u128)
    ensures
        r == isqrt_spec(x as nat),
        r * r <= x < (r + 1) * (r + 1),
{
    let mut lo: u128 = 0;
    let mut hi: u128 = 1u128 << 64;
    proof {
        assert((1u128 << 64) == 0x1_0000_0000_0000_0000u128) by (bit_vector);
        assert(x < 0x1_0000_0000_0000_0000 * 0x1_0000_0000_0000_0000) by (nonlinear_arith)
            requires
                x <= u128::MAX,
        ;
    }
    while lo + 1 < hi
        invariant
            lo < hi <= 0x1_0000_0000_0000_0000,
            lo * lo <= x,
            x < hi * hi,
        decreases hi - lo,
    {
        let mid: u128 = lo + (hi - lo) / 2;
        proof {
            assert(mid * mid <= 0xffff_ffff_ffff_ffff * 0xffff_ffff_ffff_ffff)
                by (nonlinear_arith)
                requires
                    mid <= 0xffff_ffff_ffff_ffff,
            ;
        }
        if mid * mid <= x {
            lo = mid;
        } else {
            hi = mid;
        }
    }
    proof {
        lemma_isqrt_unique(x as nat, lo as nat);
    }
    lo
}

} // verus!
