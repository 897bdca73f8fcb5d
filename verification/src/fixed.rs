//! Fixed-point scalars: a sample is a 64-bit integer that counts units of 2^-32.

use vstd::arithmetic::div_mod::{
    lemma_fundamental_div_mod, lemma_fundamental_div_mod_converse, lemma_mod_bound,
};
use vstd::prelude::*;

verus! {

/// Raw value of the number one: samples carry 32 fractional bits.
pub const SCALE: i64 = 4294967296;

/// The raw value nearest to `x` that a sample can hold.
pub open spec fn saturate(x: int) -> int {
    if x < i64::MIN {
        i64::MIN as int
    } else if x > i64::MAX {
        i64::MAX as int
    } else {
        x
    }
}

/// The quotient `n / d` rounded toward minus infinity, for `d != 0`.
pub open spec fn floor_div(n: int, d: int) -> int
    recommends
        d != 0,
{
    if d > 0 {
        n / d
    } else {
        (-n) / (-d)
    }
}

/// `floor_div(n, d)` is the largest integer that does not exceed the exact
/// quotient of `n` by `d`.
pub proof fn lemma_floor_div_is_floor(n: int, d: int)
    requires
        d != 0,
    ensures
        d > 0 ==> floor_div(n, d) * d <= n < (floor_div(n, d) + 1) * d,
        d < 0 ==> floor_div(n, d) * d >= n > (floor_div(n, d) + 1) * d,
{
    let (a, b) = if d > 0 {
        (n, d)
    } else {
        (-n, -d)
    };
    let q = a / b;
    let r = a % b;
    lemma_fundamental_div_mod(a, b);
    lemma_mod_bound(a, b);
    assert(q * b <= a < (q + 1) * b) by (nonlinear_arith)
        requires
            a == b * q + r,
            0 <= r < b,
    ;
    if d < 0 {
        assert(q * d >= n > (q + 1) * d) by (nonlinear_arith)
            requires
                q * b <= a < (q + 1) * b,
                a == -n,
                b == -d,
        ;
    }
}

/// A real number held as `raw / 2^32`.
#[derive(Clone, Copy, PartialEq, Eq, Debug, Structural)]
pub struct Fixed {
    pub raw: i64,
}

impl View for Fixed {
    type V = int;

    /// The raw value: the number of 2^-32 units.
    open spec fn view(&self) -> int {
        self.raw as int
    }
}

impl Fixed {
    /// The sample that stands for the whole number `n`.
    pub fn from_int(n: i32) -> (r: Fixed)
        ensures
            r@ == n * SCALE,
    {
        Fixed { raw: (n as i64) * SCALE }
    }

    /// The sample nearest to the wide raw value `x`.
    pub fn saturating_from(x: i128) -> (r: Fixed)
        ensures
            r@ == saturate(x as int),
    {
        if x < i64::MIN as i128 {
            Fixed { raw: i64::MIN }
        } else if x > i64::MAX as i128 {
            Fixed { raw: i64::MAX }
        } else {
            Fixed { raw: x as i64 }
        }
    }
}

/// Divides with rounding toward minus infinity.
pub fn wide_floor_div(n: i128, d: i128) -> (q: i128)
    requires
        d != 0,
        n > i128::MIN,
        d > i128::MIN,
    ensures
        q == floor_div(n as int, d as int),
{
    let (a, b) = if d < 0 {
        (-n, -d)
    } else {
        (n, d)
    };
    if a >= 0 {
        a / b
    } else {
        let below: i128 = (-a - 1) / b;
        proof {
            let m: int = -a - 1;
            let rem: int = m % (b as int);
            assert(m == b * below + rem && 0 <= rem < b) by {
                lemma_fundamental_div_mod(m, b as int);
                lemma_mod_bound(m, b as int);
            }
            assert(a == (-below - 1) * b + (b - 1 - rem)) by (nonlinear_arith)
                requires
                    -a - 1 == b * below + rem,
            ;
            lemma_fundamental_div_mod_converse(a as int, b as int, -below - 1, b - 1 - rem);
        }
        -below - 1
    }
}

} // verus!
