//! Greatest common divisor by Euclid's algorithm.

use vstd::prelude::*;

verus! {

/// The greatest common divisor, written exactly as Euclid's recursion
/// computes it; `gcd_spec(0, y) == y`, so `gcd_spec(0, 0) == 0`.
pub open spec fn gcd_spec(x: nat, y: nat) -> nat
    decreases x,
{
    if x == 0 {
        y
    } else {
        gcd_spec(y % x, x)
    }
}

/// Euclid's algorithm on `u32`.
pub fn gcd(x: u32, y: u32) -> (r: u32)
    ensures
        r == gcd_spec(x as nat, y as nat),
    decreases x,
{
    if x == 0 {
        y
    } else {
        gcd(y % x, x)
    }
}

/// Every value returned by `gcd_spec` divides both arguments
/// (with the convention that everything divides 0).
pub proof fn lemma_gcd_divides(x: nat, y: nat)
    ensures
        x != 0 ==> x % gcd_spec(x, y) == 0,
        y != 0 ==> y % gcd_spec(x, y) == 0,
        x != 0 || y != 0 ==> gcd_spec(x, y) != 0,
    decreases x,
{
    if x == 0 {
        if y != 0 {
            assert(y % y == 0) by (nonlinear_arith)
                requires
                    y != 0,
            ;
        }
    } else {
        lemma_gcd_divides(y % x, x);
        let g = gcd_spec(y % x, x);
        assert(gcd_spec(x, y) == g);
        assert(g != 0);
        assert(x % g == 0);
        if y != 0 {
            if y % x == 0 {
                assert(gcd_spec(0nat, x) == x);
                assert(g == x);
                assert(y % g == 0);
            } else {
                assert((y % x) % g == 0);
                lemma_mod_factors(y, x, g);
            }
        }
    }
}

/// If `g` divides `x` and `g` divides `y % x`, then `g` divides `y`.
proof fn lemma_mod_factors(y: nat, x: nat, g: nat)
    requires
        x != 0,
        g != 0,
        x % g == 0,
        (y % x) % g == 0,
    ensures
        y % g == 0,
{
    let q = y / x;
    let r = y % x;
    assert(y == x * q + r) by {
        vstd::arithmetic::div_mod::lemma_fundamental_div_mod(y as int, x as int);
    };
    assert(x == g * (x / g)) by {
        vstd::arithmetic::div_mod::lemma_fundamental_div_mod(x as int, g as int);
    };
    assert(r == g * (r / g)) by {
        vstd::arithmetic::div_mod::lemma_fundamental_div_mod(r as int, g as int);
    };
    let a = x / g;
    let b = r / g;
    assert(y == g * (a * q) + g * b) by (nonlinear_arith)
        requires
            y == x * q + r,
            x == g * a,
            r == g * b,
    ;
    assert(y == g * (a * q + b)) by (nonlinear_arith)
        requires
            y == g * (a * q) + g * b,
    ;
    assert((g * (a * q + b)) % g == 0) by {
        vstd::arithmetic::div_mod::lemma_mod_multiples_basic((a * q + b) as int, g as int);
    };
}

} // verus!
