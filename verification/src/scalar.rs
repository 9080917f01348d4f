//! IEEE 754 binary64 numbers, carried as their bit patterns.
//!
//! Coordinates and times reach this crate as the 64 bits of a floating-point
//! number. Nothing here computes with them: they are compared, selected and
//! stored, and every function says so over the bits.

use vstd::prelude::*;

verus! {

/// The sign bit.
pub const SIGN_BIT: u64 = 0x8000_0000_0000_0000;

/// The bits of positive infinity; a larger magnitude is not a number.
pub const INFINITY_BITS: u64 = 0x7ff0_0000_0000_0000;

/// The bits of the smallest positive normal number.
pub const SMALLEST_NORMAL_BITS: u64 = 0x0010_0000_0000_0000;

/// The bits of the largest finite number.
pub const LARGEST_BITS: u64 = 0x7fef_ffff_ffff_ffff;

/// The bits of the lowest finite number.
pub const LOWEST_BITS: u64 = 0xffef_ffff_ffff_ffff;

/// The bits without the sign: they order the numbers by absolute value.
pub open spec fn magnitude(bits: u64) -> u64 {
    if bits >= SIGN_BIT {
        (bits - SIGN_BIT) as u64
    } else {
        bits
    }
}

/// Whether the bits stand for no number at all.
pub open spec fn is_nan(bits: u64) -> bool {
    magnitude(bits) > INFINITY_BITS
}

/// An integer that orders numbers as their values do; both zeros have rank 0.
pub open spec fn rank(bits: u64) -> int {
    if bits >= SIGN_BIT {
        -(magnitude(bits) as int)
    } else {
        magnitude(bits) as int
    }
}

/// The `<` of binary64 numbers: false as soon as one side is not a number.
pub open spec fn less(a: u64, b: u64) -> bool {
    !is_nan(a) && !is_nan(b) && rank(a) < rank(b)
}

/// The `>=` of binary64 numbers: false as soon as one side is not a number.
pub open spec fn at_least(a: u64, b: u64) -> bool {
    !is_nan(a) && !is_nan(b) && rank(a) >= rank(b)
}

/// Whether the number is neither zero, subnormal, infinite nor NaN.
pub open spec fn normal(bits: u64) -> bool {
    SMALLEST_NORMAL_BITS <= magnitude(bits) < INFINITY_BITS
}

/// The absolute value.
pub fn magnitude_of(bits: u64) -> (res: u64)
    ensures
        res == magnitude(bits),
{
    if bits >= SIGN_BIT {
        bits - SIGN_BIT
    } else {
        bits
    }
}

/// Whether `a < b`.
pub fn less_than(a: u64, b: u64) -> (res: bool)
    ensures
        res == less(a, b),
{
    let abs_a: u64 = magnitude_of(a);
    let abs_b: u64 = magnitude_of(b);
    if abs_a > INFINITY_BITS || abs_b > INFINITY_BITS {
        false
    } else if a >= SIGN_BIT {
        if b >= SIGN_BIT {
            abs_a > abs_b
        } else {
            abs_a > 0 || abs_b > 0
        }
    } else if b >= SIGN_BIT {
        false
    } else {
        abs_a < abs_b
    }
}

/// Whether `a >= b`.
pub fn greater_or_equal(a: u64, b: u64) -> (res: bool)
    ensures
        res == at_least(a, b),
{
    let abs_a: u64 = magnitude_of(a);
    let abs_b: u64 = magnitude_of(b);
    if abs_a > INFINITY_BITS || abs_b > INFINITY_BITS {
        false
    } else {
        !less_than(a, b)
    }
}

/// Whether the number is neither zero, subnormal, infinite nor NaN.
pub fn is_normal(bits: u64) -> (res: bool)
    ensures
        res == normal(bits),
{
    let abs: u64 = magnitude_of(bits);
    SMALLEST_NORMAL_BITS <= abs && abs < INFINITY_BITS
}

/// The exponent field of a number: the eleven bits below the sign.
pub open spec fn exponent_field(bits: u64) -> int {
    (bits as int / 0x10_0000_0000_0000) % 2048
}

/// The fraction field of a number: the lowest 52 bits.
pub open spec fn fraction_field(bits: u64) -> int {
    bits as int % 0x10_0000_0000_0000
}

/// The absolute value that the bits stand for, in units of the smallest positive
/// number, which is two to the power of -1074. Infinity counts as the next power of
/// two above all finite numbers.
pub open spec fn absolute_units(bits: u64) -> int {
    if exponent_field(bits) == 0 {
        fraction_field(bits)
    } else {
        (0x10_0000_0000_0000 + fraction_field(bits)) * vstd::arithmetic::power2::pow2(
            (exponent_field(bits) - 1) as nat,
        )
    }
}

/// The value that the bits stand for, in units of the smallest positive number.
pub open spec fn units(bits: u64) -> int {
    if bits as int / 0x8000_0000_0000_0000 == 1 {
        -absolute_units(bits)
    } else {
        absolute_units(bits)
    }
}

/// Bits stand for no number exactly where all bits of the exponent are set and one of
/// the fraction is.
pub proof fn lemma_no_number(bits: u64)
    ensures
        is_nan(bits) <==> exponent_field(bits) == 2047 && fraction_field(bits) != 0,
{
    lemma_fields_of_magnitude(bits);
}

/// A number is normal exactly where its exponent has a bit that is set and one that
/// is not.
pub proof fn lemma_normal_number(bits: u64)
    ensures
        normal(bits) <==> 1 <= exponent_field(bits) <= 2046,
{
    lemma_fields_of_magnitude(bits);
}

/// The absolute value has the value of the number without its sign.
pub proof fn lemma_magnitude_drops_the_sign(bits: u64)
    ensures
        units(magnitude(bits)) == absolute_units(bits),
        absolute_units(bits) >= 0,
        magnitude(bits) < 0x8000_0000_0000_0000,
{
    lemma_fields_of_magnitude(bits);
    lemma_fields_of_magnitude(magnitude(bits));
    lemma_units_are_positive(bits);
}

/// Numbers are compared by what they stand for; what is no number compares as
/// neither less nor at least.
pub proof fn lemma_comparison_is_of_values(a: u64, b: u64)
    ensures
        less(a, b) <==> !is_nan(a) && !is_nan(b) && units(a) < units(b),
        at_least(a, b) <==> !is_nan(a) && !is_nan(b) && units(a) >= units(b),
{
    lemma_fields_of_magnitude(a);
    lemma_fields_of_magnitude(b);
    lemma_units_are_positive(a);
    lemma_units_are_positive(b);
    lemma_absolute_values_are_ordered(a, b);
    lemma_absolute_values_are_ordered(b, a);
}

proof fn lemma_fields_of_magnitude(bits: u64)
    ensures
        magnitude(bits) == exponent_field(bits) * 0x10_0000_0000_0000 + fraction_field(bits),
        0 <= exponent_field(bits) < 2048,
        0 <= fraction_field(bits) < 0x10_0000_0000_0000,
        bits >= SIGN_BIT <==> bits as int / 0x8000_0000_0000_0000 == 1,
{
}

proof fn lemma_units_are_positive(bits: u64)
    ensures
        absolute_units(bits) >= 0,
        absolute_units(bits) == 0 <==> magnitude(bits) == 0,
{
    lemma_fields_of_magnitude(bits);
    if exponent_field(bits) > 0 {
        let power = vstd::arithmetic::power2::pow2((exponent_field(bits) - 1) as nat);
        vstd::arithmetic::power2::lemma_pow2_pos((exponent_field(bits) - 1) as nat);
        assert((0x10_0000_0000_0000 + fraction_field(bits)) * power > 0) by (nonlinear_arith)
            requires
                power > 0,
                fraction_field(bits) >= 0,
        ;
    }
}

proof fn lemma_absolute_values_are_ordered(a: u64, b: u64)
    ensures
        magnitude(a) < magnitude(b) ==> absolute_units(a) < absolute_units(b),
        magnitude(a) == magnitude(b) ==> absolute_units(a) == absolute_units(b),
{
    lemma_fields_of_magnitude(a);
    lemma_fields_of_magnitude(b);
    let ea = exponent_field(a);
    let eb = exponent_field(b);
    let fa = fraction_field(a);
    let fb = fraction_field(b);
    let unit: int = 0x10_0000_0000_0000;
    if magnitude(a) < magnitude(b) {
        if ea == eb {
            assert(fa < fb);
            if ea > 0 {
                let power = vstd::arithmetic::power2::pow2((ea - 1) as nat);
                vstd::arithmetic::power2::lemma_pow2_pos((ea - 1) as nat);
                assert((unit + fa) * power < (unit + fb) * power) by (nonlinear_arith)
                    requires
                        fa < fb,
                        power > 0,
                ;
            }
        } else {
            assert(ea < eb);
            let high = vstd::arithmetic::power2::pow2((eb - 1) as nat);
            vstd::arithmetic::power2::lemma_pow2_pos((eb - 1) as nat);
            assert((unit + fb) * high >= unit * high) by (nonlinear_arith)
                requires
                    fb >= 0,
                    high > 0,
            ;
            if ea == 0 {
                assert(unit * high >= unit) by (nonlinear_arith)
                    requires
                        high >= 1,
                        unit > 0,
                ;
            } else {
                let low = vstd::arithmetic::power2::pow2((ea - 1) as nat);
                vstd::arithmetic::power2::lemma_pow2_pos((ea - 1) as nat);
                vstd::arithmetic::power2::lemma_pow2_unfold(ea as nat);
                if ea < eb - 1 {
                    vstd::arithmetic::power2::lemma_pow2_strictly_increases(
                        ea as nat,
                        (eb - 1) as nat,
                    );
                }
                assert((unit + fa) * low < unit * high) by (nonlinear_arith)
                    requires
                        fa < unit,
                        2 * low <= high,
                        low > 0,
                        unit > 0,
                ;
            }
        }
    }
}

} // verus!
