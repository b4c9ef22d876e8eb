//! The order of floating-point numbers on their bits is that of their values.

use vstd::arithmetic::power2::{lemma_pow2_pos, lemma_pow2_strictly_increases, lemma_pow2_unfold, pow2};
use vstd::prelude::*;

use crate::floats::{at_most, equal, is_finite, is_nan, larger, less, magnitude, smaller};

verus! {

/// The eleven bits of the exponent.
pub open spec fn exponent(b: u64) -> int {
    (b as int / 0x10_0000_0000_0000) % 0x800
}

/// The 52 bits of the fraction.
pub open spec fn fraction(b: u64) -> int {
    b as int % 0x10_0000_0000_0000
}

/// The absolute value of a finite number, in units of the smallest one.
pub open spec fn absolute_units(b: u64) -> int {
    if exponent(b) == 0 {
        fraction(b)
    } else {
        (0x10_0000_0000_0000 + fraction(b)) * pow2((exponent(b) - 1) as nat)
    }
}

/// The value of a finite number, in units of the smallest one.
pub open spec fn units(b: u64) -> int {
    if b as int / 0x8000_0000_0000_0000 == 0 {
        absolute_units(b)
    } else {
        -absolute_units(b)
    }
}

proof fn lemma_parts(b: u64)
    ensures
        magnitude(b) == exponent(b) * 0x10_0000_0000_0000 + fraction(b),
        0 <= exponent(b) < 0x800,
        0 <= fraction(b) < 0x10_0000_0000_0000,
{
}

/// Of two magnitudes the smaller has the smaller value.
proof fn lemma_units_grow(a: u64, b: u64)
    requires
        is_finite(a),
        is_finite(b),
        magnitude(a) < magnitude(b),
    ensures
        absolute_units(a) < absolute_units(b),
{
    lemma_parts(a);
    lemma_parts(b);
    let e = exponent(a);
    let f = exponent(b);
    let m: int = 0x10_0000_0000_0000;
    if e == f {
        if e > 0 {
            lemma_pow2_pos((e - 1) as nat);
            let p = pow2((e - 1) as nat) as int;
            assert((m + fraction(a)) * p < (m + fraction(b)) * p) by (nonlinear_arith)
                requires
                    p > 0,
                    fraction(a) < fraction(b),
            ;
        }
    } else {
        assert(e < f);
        lemma_pow2_pos((f - 1) as nat);
        let q = pow2((f - 1) as nat) as int;
        assert((m + fraction(b)) * q >= m * q) by (nonlinear_arith)
            requires
                q > 0,
                fraction(b) >= 0,
        ;
        if e == 0 {
            assert(m * q >= m) by (nonlinear_arith)
                requires
                    q >= 1,
                    m > 0,
            ;
        } else {
            lemma_pow2_pos((e - 1) as nat);
            lemma_pow2_unfold(e as nat);
            if e < f - 1 {
                lemma_pow2_strictly_increases(e as nat, (f - 1) as nat);
            }
            let p = pow2((e - 1) as nat) as int;
            assert(q >= 2 * p);
            assert((m + fraction(a)) * p < m * q) by (nonlinear_arith)
                requires
                    fraction(a) < m,
                    0 < m,
                    p > 0,
                    q >= 2 * p,
            ;
        }
    }
}

proof fn lemma_units_agree(a: u64, b: u64)
    requires
        is_finite(a),
        is_finite(b),
    ensures
        magnitude(a) < magnitude(b) <==> absolute_units(a) < absolute_units(b),
        magnitude(a) == magnitude(b) <==> absolute_units(a) == absolute_units(b),
        absolute_units(a) >= 0,
        absolute_units(a) == 0 <==> magnitude(a) == 0,
{
    lemma_parts(a);
    lemma_parts(b);
    if magnitude(a) < magnitude(b) {
        lemma_units_grow(a, b);
    } else if magnitude(b) < magnitude(a) {
        lemma_units_grow(b, a);
    } else {
        assert(exponent(a) == exponent(b) && fraction(a) == fraction(b));
    }
    lemma_parts(0);
    assert(magnitude(0) == 0 && absolute_units(0) == 0);
    if magnitude(a) > 0 {
        lemma_units_grow(0, a);
    } else {
        assert(exponent(a) == 0 && fraction(a) == 0);
    }
}

/// Finite numbers compare as their values do.
pub proof fn law_order_of_values(a: u64, b: u64)
    requires
        is_finite(a),
        is_finite(b),
    ensures
        less(a, b) <==> units(a) < units(b),
        at_most(a, b) <==> units(a) <= units(b),
        equal(a, b) <==> units(a) == units(b),
{
    lemma_units_agree(a, b);
    lemma_units_agree(b, a);
}

/// What is no number compares with nothing, and infinity is above all finite
/// numbers.
pub proof fn law_beyond_values(a: u64, b: u64)
    ensures
        exponent(a) == 0x7ff && fraction(a) != 0 ==> !less(a, b) && !less(b, a) && !at_most(a, b)
            && !at_most(b, a) && !equal(a, b),
        is_finite(a) ==> less(a, 0x7ff0_0000_0000_0000) && less(0xfff0_0000_0000_0000, a),
        is_finite(a) <==> exponent(a) != 0x7ff,
        is_nan(a) <==> exponent(a) == 0x7ff && fraction(a) != 0,
{
    lemma_parts(a);
}

/// The smaller and the larger of two numbers are the two, in order; of a number
/// and what is none both are the number.
pub proof fn law_smaller_and_larger(a: u64, b: u64)
    ensures
        !is_nan(a) && !is_nan(b) ==> at_most(smaller(a, b), a) && at_most(smaller(a, b), b)
            && at_most(a, larger(a, b)) && at_most(b, larger(a, b)),
        smaller(a, b) == a || smaller(a, b) == b,
        larger(a, b) == a || larger(a, b) == b,
        is_nan(a) && !is_nan(b) ==> smaller(a, b) == b && larger(a, b) == b && smaller(b, a) == b
            && larger(b, a) == b,
{
}

} // verus!
