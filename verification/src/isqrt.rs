//! Integer square root, the numeric core of the per-edge distance.
//!
//! Each edge of a tour contributes the Euclidean distance between its two
//! endpoints truncated to an integer, i.e. the floor of the square root of
//! `dx^2 + dy^2`.

use vstd::prelude::*;

verus! {

/// Floor of the square root of `v`, defined by digit-by-digit recursion.
pub open spec fn isqrt_spec(v: nat) -> nat
    decreases v,
{
    if v == 0 {
        0
    } else {
        let r = 2 * isqrt_spec(v / 4);
        if (r + 1) * (r + 1) <= v {
            r + 1
        } else {
            r
        }
    }
}

/// `isqrt_spec(v)` really is the floor of the square root:
/// its square is at most `v`, and the next square is above `v`.
pub proof fn lemma_isqrt_spec(v: nat)
    ensures
        (isqrt_spec(v) as int) * (isqrt_spec(v) as int) <= v as int,
        (isqrt_spec(v) as int + 1) * (isqrt_spec(v) as int + 1) > v as int,
    decreases v,
{
    if v == 0 {
        assert(isqrt_spec(v) == 0);
        assert((isqrt_spec(v) as int) * (isqrt_spec(v) as int) == 0);
        assert((isqrt_spec(v) as int + 1) * (isqrt_spec(v) as int + 1) == 1);
    } else {
        lemma_isqrt_spec(v / 4);
        let s = isqrt_spec(v / 4) as int;
        let q = (v / 4) as int;
        let vi = v as int;
        let rn = 2 * isqrt_spec(v / 4);
        let r = 2 * s;
        assert(4 * q <= vi && vi < 4 * q + 4) by (nonlinear_arith)
            requires
                q == (v / 4) as int,
                vi == v as int,
        ;
        assert(r * r <= vi) by (nonlinear_arith)
            requires
                s * s <= q,
                r == 2 * s,
                4 * q <= vi,
        ;
        assert((r + 2) * (r + 2) > vi) by (nonlinear_arith)
            requires
                (s + 1) * (s + 1) > q,
                0 <= s,
                r == 2 * s,
                vi < 4 * q + 4,
        ;
        // The comparison in the body of `isqrt_spec` is over naturals; its
        // product never clips to zero because squares are non-negative.
        assert((r + 1) * (r + 1) >= 0) by (nonlinear_arith);
        assert(rn as int == r);
        if (rn + 1) * (rn + 1) <= v {
            assert(isqrt_spec(v) == rn + 1);
            assert((isqrt_spec(v) as int + 1) * (isqrt_spec(v) as int + 1) == (r + 2) * (r + 2));
        } else {
            assert(isqrt_spec(v) == rn);
            assert((r + 1) * (r + 1) > vi);
        }
    }
}

/// Any non-negative `r` whose square is at most `v` while `(r + 1)^2` is
/// above `v` equals `isqrt_spec(v)`: the floor square root is unique.
pub proof fn lemma_isqrt_unique(v: nat, r: int)
    requires
        0 <= r,
        r * r <= v as int,
        (r + 1) * (r + 1) > v as int,
    ensures
        r == isqrt_spec(v),
{
    let s = isqrt_spec(v) as int;
    lemma_isqrt_spec(v);
    assert(!(r < s) && !(s < r)) by (nonlinear_arith)
        requires
            0 <= r,
            0 <= s,
            r * r <= v as int,
            (r + 1) * (r + 1) > v as int,
            s * s <= v as int,
            (s + 1) * (s + 1) > v as int,
    ;
}

/// Computes the floor of the square root of `v` by binary search.
pub fn isqrt(v: u64) -> (r: u64)
    ensures
        r == isqrt_spec(v as nat),
        (r as int) * (r as int) <= v as int,
{
    let mut lo: u64 = 0;
    let mut hi: u64 = 4_294_967_296;
    proof {
        assert((hi as int) * (hi as int) > v as int) by (nonlinear_arith)
            requires
                hi == 4_294_967_296u64,
                v <= 0xffff_ffff_ffff_ffffu64,
        ;
    }
    while lo + 1 < hi
        invariant
            lo < hi,
            hi <= 4_294_967_296u64,
            (lo as int) * (lo as int) <= v as int,
            (hi as int) * (hi as int) > v as int,
        decreases hi - lo,
    {
        let mid: u64 = lo + (hi - lo) / 2;
        proof {
            assert((mid as int) * (mid as int) <= 0x1_0000_0000_0000_0000int) by (nonlinear_arith)
                requires
                    mid <= 4_294_967_296u64,
            ;
        }
        if (mid as u128) * (mid as u128) <= v as u128 {
            lo = mid;
        } else {
            hi = mid;
        }
    }
    proof {
        lemma_isqrt_unique(v as nat, lo as int);
    }
    lo
}

} // verus!
