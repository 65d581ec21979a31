//! Wheel notches: how many a scroll distance, given as the bits of a double, asks for.

use crate::double::Double;
use crate::rounding;
use vstd::arithmetic::power2;
use vstd::prelude::*;

verus! {

/// The exponent field of a double.
pub open spec fn exponent_field(bits: u64) -> int {
    (bits as int % 0x8000_0000_0000_0000) / 0x10_0000_0000_0000
}

/// The fraction field of a double.
pub open spec fn fraction_field(bits: u64) -> int {
    bits as int % 0x10_0000_0000_0000
}

/// The sign bit of a double is set.
pub open spec fn is_negative(bits: u64) -> bool {
    bits >= 0x8000_0000_0000_0000
}

/// The bits are those of no number.
pub open spec fn is_nan(bits: u64) -> bool {
    exponent_field(bits) == 2047 && fraction_field(bits) != 0
}

/// The bits are those of an infinity.
pub open spec fn is_infinite(bits: u64) -> bool {
    exponent_field(bits) == 2047 && fraction_field(bits) == 0
}

/// The absolute value of a finite double.
pub open spec fn magnitude(bits: u64) -> real {
    if exponent_field(bits) == 0 {
        fraction_field(bits) as real * rounding::exp2(-1074)
    } else {
        (0x10_0000_0000_0000 + fraction_field(bits)) as real * rounding::exp2(
            exponent_field(bits) - 1075,
        )
    }
}

/// The notches that a distance asks for: the distance rounded to the nearest integer,
/// halves away from zero, without its sign. It is none for what is no number, and at most
/// what 32 bits hold.
pub open spec fn notch_count(bits: u64) -> int {
    if is_nan(bits) {
        0
    } else if is_infinite(bits) || rounding::round_half_up(magnitude(bits)) > u32::MAX {
        u32::MAX as int
    } else {
        rounding::round_half_up(magnitude(bits))
    }
}

/// Counts the notches that a distance asks for.
pub fn notches(bits: u64) -> (r: u32)
    ensures
        r == notch_count(bits),
{
    let e: u64 = (bits % 0x8000_0000_0000_0000) / 0x10_0000_0000_0000;
    let f: u64 = bits % 0x10_0000_0000_0000;
    if e == 2047 {
        if f != 0 {
            0
        } else {
            u32::MAX
        }
    } else if e == 0 {
        proof {
            lemma_subnormal(f as int);
        }
        0
    } else {
        let d = Double { mant: 0x10_0000_0000_0000 + f, exp: e as i32 - 1075 };
        d.round_to(u32::MAX as u64) as u32
    }
}

/// Whether a distance goes down or to the right.
pub fn is_positive(bits: u64) -> (r: bool)
    ensures
        notch_count(bits) > 0 ==> r == !is_negative(bits),
        r == (!is_negative(bits) && bits != 0 && !is_nan(bits)),
{
    let e: u64 = (bits % 0x8000_0000_0000_0000) / 0x10_0000_0000_0000;
    let f: u64 = bits % 0x10_0000_0000_0000;
    proof {
        if bits == 0 {
            lemma_subnormal(0);
        }
    }
    bits < 0x8000_0000_0000_0000 && bits != 0 && !(e == 2047 && f != 0)
}

/// Less than half a notch.
proof fn lemma_subnormal(f: int)
    requires
        0 <= f < 0x10_0000_0000_0000,
    ensures
        rounding::round_half_up(f as real * rounding::exp2(-1074)) == 0,
{
    let x = rounding::exp2(-1074);
    let y = rounding::exp2(-54);
    rounding::lemma_exp2_pos(-1074);
    rounding::lemma_exp2_mono(-1074, -54);
    rounding::lemma_exp2_places(-54);
    let v = f as real * x;
    assert(0 as real <= v) by (nonlinear_arith)
        requires
            v == f as real * x,
            f as real >= 0 as real,
            x > 0 as real,
    ;
    let top = 0x10_0000_0000_0000 as real;
    assert(v <= top * y) by (nonlinear_arith)
        requires
            v == f as real * x,
            0 as real <= f as real <= top,
            x > 0 as real,
            x <= y,
    ;
    power2::lemma2_to64();
    assert(rounding::exp2(-2) == (1 as real) / (4 as real));
}

/// A count of notches fits in 32 bits.
pub proof fn lemma_notch_count(bits: u64)
    ensures
        0 <= notch_count(bits) <= u32::MAX,
{
    let v = magnitude(bits);
    let e = if exponent_field(bits) == 0 {
        -1074
    } else {
        exponent_field(bits) - 1075
    };
    let x = rounding::exp2(e);
    rounding::lemma_exp2_pos(e);
    let m = if exponent_field(bits) == 0 {
        fraction_field(bits)
    } else {
        0x10_0000_0000_0000 + fraction_field(bits)
    };
    let mr = m as real;
    assert(v >= 0 as real) by (nonlinear_arith)
        requires
            v == mr * x,
            mr >= 0 as real,
            x > 0 as real,
    ;
}

/// The sign bit turned over.
pub open spec fn negated(bits: u64) -> u64 {
    if is_negative(bits) {
        (bits - 0x8000_0000_0000_0000) as u64
    } else {
        (bits + 0x8000_0000_0000_0000) as u64
    }
}

/// A distance and its opposite ask for as many notches, in opposite directions.
pub proof fn law_opposite_distances_mirror(bits: u64)
    ensures
        notch_count(negated(bits)) == notch_count(bits),
        is_negative(negated(bits)) == !is_negative(bits),
{
}

/// The notches of a distance are its nearest integer, halves counted up, as far as 32 bits
/// hold it; none for what is no number, and as many as 32 bits hold for what is infinite.
pub proof fn law_notches_are_the_nearest_integer(bits: u64)
    ensures
        is_nan(bits) ==> notch_count(bits) == 0,
        is_infinite(bits) ==> notch_count(bits) == u32::MAX,
        !is_nan(bits) && !is_infinite(bits) ==> {
            let n = notch_count(bits);
            &&& 0 <= n <= u32::MAX
            &&& n < u32::MAX ==> 2 as real * n as real - 1 as real <= 2 as real * magnitude(bits)
                && 2 as real * magnitude(bits) < 2 as real * n as real + 1 as real
            &&& n == u32::MAX ==> 2 as real * n as real - 1 as real <= 2 as real * magnitude(bits)
        },
{
    lemma_notch_count(bits);
}

/// What the bits of a double stand for, by three facts: the sign bit does not count, one is
/// one, raising the exponent by one doubles the number, and raising the fraction by one adds
/// what the fraction's lowest bit is worth at that exponent.
pub proof fn law_what_bits_stand_for(bits: u64)
    ensures
        magnitude(negated(bits)) == magnitude(bits),
        magnitude(0x3ff0_0000_0000_0000) == 1 as real,
        magnitude(0) == 0 as real,
        0x10_0000_0000_0000 <= bits < 0x7fe0_0000_0000_0000 ==> magnitude(
            (bits + 0x10_0000_0000_0000) as u64,
        ) == 2 as real * magnitude(bits),
        bits + 1 < 0x7ff0_0000_0000_0000 && fraction_field(bits) + 1 < 0x10_0000_0000_0000
            ==> magnitude((bits + 1) as u64) - magnitude(bits) == rounding::exp2(
            if exponent_field(bits) == 0 {
                -1074
            } else {
                exponent_field(bits) - 1075
            },
        ),
{
    let z = 0int as real;
    assert(z * rounding::exp2(-1074) == 0 as real) by (nonlinear_arith)
        requires
            z == 0 as real,
    ;
    let one: u64 = 0x3ff0_0000_0000_0000;
    assert(exponent_field(one) == 1023 && fraction_field(one) == 0);
    rounding::lemma_exp2_places(-52);
    power2::lemma2_to64();
    assert(rounding::exp2(0) == 1 as real);
    if 0x10_0000_0000_0000 <= bits < 0x7fe0_0000_0000_0000 {
        let next = (bits + 0x10_0000_0000_0000) as u64;
        let e = exponent_field(bits) - 1075;
        assert(exponent_field(next) == exponent_field(bits) + 1);
        assert(fraction_field(next) == fraction_field(bits));
        rounding::lemma_exp2_step(e);
        let m = (0x10_0000_0000_0000 + fraction_field(bits)) as real;
        let (a, b) = (rounding::exp2(e), rounding::exp2(e + 1));
        assert(m * b == 2 as real * (m * a)) by (nonlinear_arith)
            requires
                b == 2 as real * a,
        ;
    }
    if bits + 1 < 0x7ff0_0000_0000_0000 && fraction_field(bits) + 1 < 0x10_0000_0000_0000 {
        let next = (bits + 1) as u64;
        assert(exponent_field(next) == exponent_field(bits));
        assert(fraction_field(next) == fraction_field(bits) + 1);
        let e = if exponent_field(bits) == 0 {
            -1074
        } else {
            exponent_field(bits) - 1075
        };
        let base = if exponent_field(bits) == 0 {
            0
        } else {
            0x10_0000_0000_0000int
        };
        let m = (base + fraction_field(bits)) as real;
        let n = (base + fraction_field(bits) + 1) as real;
        let a = rounding::exp2(e);
        assert(n * a - m * a == a) by (nonlinear_arith)
            requires
                n == m + 1 as real,
        ;
    }
}

/// Which bits are no number and which are infinite: those whose exponent bits are all set,
/// with and without a fraction.
pub proof fn law_what_is_no_number(bits: u64)
    ensures
        is_nan(bits) <==> {
            ||| 0x7ff0_0000_0000_0000 < bits < 0x8000_0000_0000_0000
            ||| 0xfff0_0000_0000_0000 < bits
        },
        is_infinite(bits) <==> bits == 0x7ff0_0000_0000_0000 || bits == 0xfff0_0000_0000_0000,
        is_negative(bits) <==> bits >= 0x8000_0000_0000_0000,
{
}

} // verus!
