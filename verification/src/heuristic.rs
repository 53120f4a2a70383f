//! The default heuristic: the floor of the Euclidean distance between two
//! cells, computed with integer arithmetic.

use vstd::prelude::*;
use crate::grid::{Point, abs_diff};
use vstd::arithmetic::div_mod::lemma_fundamental_div_mod;

verus! {

/// The squared Euclidean distance between two cells.
pub open spec fn sq_dist(a: Point, b: Point) -> int {
    abs_diff(a.x as int, b.x as int) * abs_diff(a.x as int, b.x as int) + abs_diff(
        a.y as int,
        b.y as int,
    ) * abs_diff(a.y as int, b.y as int)
}

/// The floor of the square root: the greatest `r` with `r * r <= s`.
pub fn isqrt(s: usize) -> (r: usize)
    ensures
        r * r <= s,
        s < (r + 1) * (r + 1),
{
    let mut r: usize = 0;
    while r + 1 <= s / (r + 1)
        invariant
            r * r <= s,
            r < usize::MAX,
        decreases s - r,
    {
        let ghost d = (r + 1) as int;
        let ghost q = s as int / d;
        let ghost m = s as int % d;
        proof {
            lemma_fundamental_div_mod(s as int, d);
            assert(d <= q);
            assert(d * d <= d * q) by (nonlinear_arith)
                requires
                    1 <= d,
                    d <= q,
            ;
            assert(d <= d * d) by (nonlinear_arith)
                requires
                    1 <= d,
            ;
            assert((r + 1) * (r + 1) <= s);
            assert(r + 1 <= s);
            assert(r + 1 < usize::MAX) by (nonlinear_arith)
                requires
                    (r + 1) * (r + 1) <= usize::MAX,
                    1 <= r + 1,
            ;
        }
        r = r + 1;
    }
    proof {
        let d = (r + 1) as int;
        let q = s as int / d;
        let m = s as int % d;
        lemma_fundamental_div_mod(s as int, d);
        assert(q <= r);
        assert(d * q + m < d * d) by (nonlinear_arith)
            requires
                1 <= d,
                q + 1 <= d,
                0 <= m < d,
        ;
    }
    r
}

/// The floor of the Euclidean distance between two cells: the reference
/// heuristic for the search. The result `r` is pinned exactly:
/// `r * r <= sq_dist(a, b) < (r + 1) * (r + 1)`.
pub fn euclidean_floor(a: Point, b: Point) -> (r: usize)
    requires
        sq_dist(a, b) <= usize::MAX,
    ensures
        r * r <= sq_dist(a, b),
        sq_dist(a, b) < (r + 1) * (r + 1),
{
    let dx = if a.x >= b.x {
        a.x - b.x
    } else {
        b.x - a.x
    };
    let dy = if a.y >= b.y {
        a.y - b.y
    } else {
        b.y - a.y
    };
    proof {
        assert(dx * dx >= 0 && dy * dy >= 0) by (nonlinear_arith);
    }
    let s = dx * dx + dy * dy;
    isqrt(s)
}

} // verus!
