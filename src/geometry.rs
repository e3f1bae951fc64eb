use vstd::prelude::*;

verus! {

/// A vertex in buffer space: column `x`, row `y`, origin at the top left.
#[derive(Clone, Copy, PartialEq, Eq, Structural, Debug)]
pub struct Point {
    pub x: i32,
    pub y: i32,
}

impl Point {
    pub fn new(x: i32, y: i32) -> (p: Point)
        ensures
            p == (Point { x, y }),
    {
        Point { x, y }
    }
}

/// `floor(n / d)` for a positive `d`, with its size bounded by that of `n`.
pub fn floor_div(n: i128, d: i128) -> (q: i128)
    requires
        d > 0,
        n > i128::MIN,
    ensures
        q == n / d,
        n >= 0 ==> 0 <= q <= n,
        n < 0 ==> n <= q < 0,
{
    if n >= 0 {
        let q = n / d;
        proof {
            assert(0 <= q <= n) by (nonlinear_arith)
                requires q == n / d, n >= 0, d > 0;
        }
        q
    } else {
        let m: i128 = -n - 1;
        let q0 = m / d;
        proof {
            let r0 = m % d;
            vstd::arithmetic::div_mod::lemma_fundamental_div_mod(m as int, d as int);
            assert(0 <= q0 <= m) by (nonlinear_arith)
                requires q0 == m / d, m >= 0, d > 0;
            assert(n == d * (-q0 - 1) + (d - r0 - 1)) by (nonlinear_arith)
                requires m == d * q0 + r0, n == -m - 1;
            vstd::arithmetic::div_mod::lemma_fundamental_div_mod_converse(
                n as int,
                d as int,
                -q0 - 1,
                d - r0 - 1,
            );
        }
        -q0 - 1
    }
}

} // verus!
