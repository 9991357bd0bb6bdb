use vstd::prelude::*;

use crate::graph::{MAX_WEIGHT, POS_MAX};

verus! {

/// The square of an integer.
pub open spec fn sq(x: int) -> int {
    x * x
}

/// Squared straight-line distance between two points.
pub open spec fn euclid_sq(p: (u32, u32), q: (u32, u32)) -> int {
    sq(p.0 as int - q.0 as int) + sq(p.1 as int - q.1 as int)
}

/// Taxicab distance between two points.
pub open spec fn taxicab(p: (u32, u32), q: (u32, u32)) -> int {
    (if p.0 >= q.0 {
        p.0 - q.0
    } else {
        q.0 - p.0
    }) + (if p.1 >= q.1 {
        p.1 - q.1
    } else {
        q.1 - p.1
    })
}

/// Integer square root, rounded down.
pub fn isqrt(n: u64) -> (r: u64)
    ensures
        sq(r as int) <= n as int && (n as int) < sq(r as int + 1),
        r <= 0xFFFF_FFFF,
{
    let mut lo: u64 = 0;
    let mut hi: u64 = 0x1_0000_0000;
    proof {
        assert(sq(0x1_0000_0000int) > u64::MAX as int) by (nonlinear_arith);
    }
    while lo + 1 < hi
        invariant
            lo < hi <= 0x1_0000_0000,
            sq(lo as int) <= n as int,
            (n as int) < sq(hi as int),
        decreases hi - lo,
    {
        let mid = lo + (hi - lo) / 2;
        proof {
            assert(lo < mid && mid < hi);
            assert(sq(mid as int) <= sq(0xFFFF_FFFFint)) by (nonlinear_arith)
                requires
                    0 <= mid as int <= 0xFFFF_FFFFint,
            ;
            assert(sq(0xFFFF_FFFFint) <= u64::MAX as int) by (nonlinear_arith);
        }
        if mid * mid <= n {
            lo = mid;
        } else {
            hi = mid;
        }
    }
    lo
}

/// Straight-line distance between two bounded points, rounded down. Used as
/// the admissible search heuristic.
pub fn euclid_floor(p: (u32, u32), q: (u32, u32)) -> (r: u64)
    requires
        p.0 <= POS_MAX,
        p.1 <= POS_MAX,
        q.0 <= POS_MAX,
        q.1 <= POS_MAX,
    ensures
        sq(r as int) <= euclid_sq(p, q) && euclid_sq(p, q) < sq(r as int + 1),
        r <= MAX_WEIGHT,
{
    let dx = (if p.0 >= q.0 {
        p.0 - q.0
    } else {
        q.0 - p.0
    }) as u64;
    let dy = (if p.1 >= q.1 {
        p.1 - q.1
    } else {
        q.1 - p.1
    }) as u64;
    proof {
        assert(sq(dx as int) + sq(dy as int) <= 2 * sq(POS_MAX as int)) by (nonlinear_arith)
            requires
                0 <= dx as int <= POS_MAX as int,
                0 <= dy as int <= POS_MAX as int,
        ;
        assert(2 * sq(POS_MAX as int) < u64::MAX as int) by (nonlinear_arith);
        assert(sq(dx as int) == dx as int * dx as int);
        assert(sq(dy as int) == dy as int * dy as int);
        assert(sq(p.0 as int - q.0 as int) == sq(dx as int)) by (nonlinear_arith)
            requires
                dx as int == p.0 as int - q.0 as int || dx as int == q.0 as int - p.0 as int,
        ;
        assert(sq(p.1 as int - q.1 as int) == sq(dy as int)) by (nonlinear_arith)
            requires
                dy as int == p.1 as int - q.1 as int || dy as int == q.1 as int - p.1 as int,
        ;
        assert(euclid_sq(p, q) == sq(dx as int) + sq(dy as int));
    }
    let s = dx * dx + dy * dy;
    let r = isqrt(s);
    proof {
        if r > MAX_WEIGHT {
            assert(sq(r as int) >= sq(MAX_WEIGHT as int + 1)) by (nonlinear_arith)
                requires
                    r as int >= MAX_WEIGHT as int + 1,
            ;
            assert(sq(MAX_WEIGHT as int + 1) > 2 * sq(POS_MAX as int)) by (nonlinear_arith);
        }
    }
    r
}

/// Straight-line distance between two bounded points, rounded up. Used as the
/// edge weight of the 2D generator, so that the floor heuristic never
/// overestimates a path cost.
pub fn euclid_ceil(p: (u32, u32), q: (u32, u32)) -> (r: u64)
    requires
        p.0 <= POS_MAX,
        p.1 <= POS_MAX,
        q.0 <= POS_MAX,
        q.1 <= POS_MAX,
    ensures
        euclid_sq(p, q) <= sq(r as int),
        (r as int) > 0 ==> sq(r as int - 1) < euclid_sq(p, q),
        r <= MAX_WEIGHT,
{
    let dx = (if p.0 >= q.0 {
        p.0 - q.0
    } else {
        q.0 - p.0
    }) as u64;
    let dy = (if p.1 >= q.1 {
        p.1 - q.1
    } else {
        q.1 - p.1
    }) as u64;
    proof {
        assert(sq(dx as int) + sq(dy as int) <= 2 * sq(POS_MAX as int)) by (nonlinear_arith)
            requires
                0 <= dx as int <= POS_MAX as int,
                0 <= dy as int <= POS_MAX as int,
        ;
        assert(2 * sq(POS_MAX as int) < u64::MAX as int) by (nonlinear_arith);
        assert(sq(dx as int) == dx as int * dx as int);
        assert(sq(dy as int) == dy as int * dy as int);
        assert(sq(p.0 as int - q.0 as int) == sq(dx as int)) by (nonlinear_arith)
            requires
                dx as int == p.0 as int - q.0 as int || dx as int == q.0 as int - p.0 as int,
        ;
        assert(sq(p.1 as int - q.1 as int) == sq(dy as int)) by (nonlinear_arith)
            requires
                dy as int == p.1 as int - q.1 as int || dy as int == q.1 as int - p.1 as int,
        ;
        assert(euclid_sq(p, q) == sq(dx as int) + sq(dy as int));
    }
    let s = dx * dx + dy * dy;
    let f = isqrt(s);
    proof {
        if f >= MAX_WEIGHT {
            assert(sq(f as int) >= sq(MAX_WEIGHT as int)) by (nonlinear_arith)
                requires
                    f as int >= MAX_WEIGHT as int,
            ;
            assert(sq(MAX_WEIGHT as int) > 2 * sq(POS_MAX as int)) by (nonlinear_arith);
        }
        assert(sq(f as int) <= sq(0xFFFF_FFFFint)) by (nonlinear_arith)
            requires
                0 <= f as int <= 0xFFFF_FFFFint,
        ;
        assert(sq(0xFFFF_FFFFint) <= u64::MAX as int) by (nonlinear_arith);
        assert(f as int * f as int == sq(f as int));
    }
    let ff = f * f;
    if ff == s {
        proof {
            if f > 0 {
                assert(sq(f as int - 1) < sq(f as int)) by (nonlinear_arith)
                    requires
                        f as int >= 1,
                ;
            }
        }
        f
    } else {
        f + 1
    }
}

/// Taxicab distance between two bounded points; exact in integers.
pub fn taxicab_dist(p: (u32, u32), q: (u32, u32)) -> (r: u64)
    requires
        p.0 <= POS_MAX,
        p.1 <= POS_MAX,
        q.0 <= POS_MAX,
        q.1 <= POS_MAX,
    ensures
        r as int == taxicab(p, q),
        r <= MAX_WEIGHT,
{
    let dx = (if p.0 >= q.0 {
        p.0 - q.0
    } else {
        q.0 - p.0
    }) as u64;
    let dy = (if p.1 >= q.1 {
        p.1 - q.1
    } else {
        q.1 - p.1
    }) as u64;
    dx + dy
}

} // verus!
