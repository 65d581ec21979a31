//! Non-negative double-precision numbers held as integers.
//!
//! Screen scaling divides, multiplies and takes square roots in IEEE 754 double
//! precision, and what it draws depends on how each of these steps rounds. This
//! module carries the steps out on integers: a [`Double`] is a 53-bit mantissa
//! and an exponent, and every operation is proved to return the double that is
//! nearest to the exact real result, ties going to the even mantissa.
//!
//! Only zero and positive normal numbers are needed, so only these exist here.

use crate::rounding;
use vstd::arithmetic::power2;
use vstd::prelude::*;

verus! {

/// The smallest mantissa of a normal double: 2^52.
pub const MANT_MIN: u64 = 0x10_0000_0000_0000;

/// One above the largest mantissa of a double: 2^53.
pub const MANT_END: u64 = 0x20_0000_0000_0000;

/// The least exponent of a normal double, for a mantissa read as an integer.
pub const EXP_MIN: i32 = -1074;

/// The greatest exponent of a normal double, for a mantissa read as an integer.
pub const EXP_MAX: i32 = 971;

/// A non-negative double: `mant * 2^exp`.
#[derive(Clone, Copy, Debug, PartialEq, Eq)]
pub struct Double {
    pub mant: u64,
    pub exp: i32,
}

impl Double {
    /// Zero, or a mantissa of exactly 53 bits with the exponent of a normal double.
    pub open spec fn wf(self) -> bool {
        self.mant == 0 || (MANT_MIN <= self.mant < MANT_END && EXP_MIN <= self.exp <= EXP_MAX)
    }

    /// The number that this double stands for.
    pub open spec fn value(self) -> real {
        self.mant as real * rounding::exp2(self.exp as int)
    }

    /// The double nearest to `n / d * 2^e`, for a quotient of 53 bits.
    fn from_quotient(n: u128, d: u128, e: i32) -> (r: Double)
        requires
            0 < d,
            MANT_MIN * d <= n < MANT_END * d,
            n < 0x8000_0000_0000_0000_0000_0000_0000_0000,
            EXP_MIN <= e < EXP_MAX,
        ensures
            r.wf(),
            r.mant != 0,
            e <= r.exp <= e + 1,
            r.value() == rounding::rounded((n as real / d as real) * rounding::exp2(e as int)),
    {
        let q: u128 = n / d;
        let rest: u128 = n % d;
        proof {
            rounding::lemma_quotient_bounds(n as int, d as int);
            rounding::lemma_rounded_quotient(n as int, d as int, e as int);
            rounding::lemma_exp2_step(e as int);
        }
        let m: u64 = if rest < d - rest || (rest == d - rest && q % 2 == 0) {
            q as u64
        } else {
            (q + 1) as u64
        };
        if m == MANT_END {
            proof {
                let (x, y) = (rounding::exp2(e as int), rounding::exp2(e + 1));
                let lo = MANT_MIN as real;
                let hi = MANT_END as real;
                assert(lo * y == hi * x) by (nonlinear_arith)
                    requires
                        y == 2 as real * x,
                        hi == 2 as real * lo,
                ;
            }
            Double { mant: MANT_MIN, exp: e + 1 }
        } else {
            Double { mant: m, exp: e }
        }
    }

    /// Zero.
    pub fn zero() -> (r: Double)
        ensures
            r.wf(),
            r.mant == 0,
            r.value() == 0 as real,
    {
        proof {
            let x = rounding::exp2(0);
            assert(0 as real * x == 0 as real) by (nonlinear_arith);
        }
        Double { mant: 0, exp: 0 }
    }

    /// The double nearest to an integer.
    pub fn from_u64(n: u64) -> (r: Double)
        ensures
            r.wf(),
            r.value() == rounding::rounded(n as real),
            r.mant == 0 <==> n == 0,
            n != 0 ==> -52 <= r.exp <= 12,
    {
        if n == 0 {
            return Double::zero();
        }
        if n < MANT_MIN {
            let mut m: u64 = n;
            let mut e: i32 = 0;
            proof {
                power2::lemma2_to64();
                assert(rounding::exp2(0) == 1 as real);
            }
            while m < MANT_MIN
                invariant
                    1 <= n < MANT_MIN,
                    1 <= m < MANT_END,
                    -52 <= e <= 0,
                    m >= power2::pow2((-e) as nat),
                    n as real == m as real * rounding::exp2(e as int),
                decreases MANT_END - m,
            {
                proof {
                    let k = (-e) as nat;
                    power2::lemma_pow2_unfold(k + 1);
                    power2::lemma2_to64_rest();
                    if k == 52 {
                        assert(power2::pow2(52) == MANT_MIN);
                    }
                    rounding::lemma_exp2_step(e - 1);
                    let (x, y, mr) = (rounding::exp2(e as int), rounding::exp2(e - 1), m as real);
                    assert(mr * x == (2 as real * mr) * y) by (nonlinear_arith)
                        requires
                            x == 2 as real * y,
                    ;
                }
                m = m * 2;
                e = e - 1;
            }
            proof {
                let mr = m as real;
                assert(mr / (1 as real) == mr) by (nonlinear_arith);
            }
            Double::from_quotient(m as u128, 1, e)
        } else {
            let mut d: u128 = 1;
            let mut e: i32 = 0;
            proof {
                power2::lemma2_to64();
            }
            while n as u128 >= 0x20_0000_0000_0000 * d
                invariant
                    n >= MANT_MIN,
                    0 <= e <= 11,
                    d == power2::pow2(e as nat),
                    1 <= d <= 2048,
                    MANT_MIN * d <= n,
                decreases 2048 - d,
            {
                proof {
                    power2::lemma_pow2_unfold((e + 1) as nat);
                    power2::lemma2_to64();
                    if e == 11 {
                        assert(power2::pow2(11) == 2048);
                    }
                }
                d = d * 2;
                e = e + 1;
            }
            proof {
                let (nr, dr) = (n as real, d as real);
                assert((nr / dr) * dr == nr) by (nonlinear_arith)
                    requires
                        dr > 0 as real,
                ;
            }
            Double::from_quotient(n as u128, d, e)
        }
    }

    /// The double nearest to the product.
    pub fn times(self, other: Double) -> (r: Double)
        requires
            self.wf(),
            other.wf(),
            self.mant != 0 && other.mant != 0 ==> EXP_MIN - 52 <= self.exp + other.exp < EXP_MAX
                - 53,
        ensures
            r.wf(),
            r.value() == rounding::rounded(self.value() * other.value()),
            r.mant == 0 <==> self.mant == 0 || other.mant == 0,
            r.mant != 0 ==> self.exp + other.exp + 52 <= r.exp <= self.exp + other.exp + 54,
    {
        if self.mant == 0 || other.mant == 0 {
            proof {
                let (x, y) = (rounding::exp2(self.exp as int), rounding::exp2(other.exp as int));
                let (a, b) = (self.mant as real, other.mant as real);
                assert((a * x) * (b * y) == 0 as real) by (nonlinear_arith)
                    requires
                        a == 0 as real || b == 0 as real,
                ;
            }
            return Double::zero();
        }
        let a: u128 = self.mant as u128;
        let b: u128 = other.mant as u128;
        proof {
            lemma_mantissa_product(a as int, b as int);
            lemma_product_value(self, other);
        }
        let p: u128 = a * b;
        let e: i32 = self.exp + other.exp;
        if p < 0x200_0000_0000_0000_0000_0000_0000 {
            Double::from_quotient(p, 0x10_0000_0000_0000, e + 52)
        } else {
            Double::from_quotient(p, 0x20_0000_0000_0000, e + 53)
        }
    }

    /// The double nearest to the quotient.
    pub fn over(self, other: Double) -> (r: Double)
        requires
            self.wf(),
            other.wf(),
            other.mant != 0,
            self.mant != 0 ==> EXP_MIN + 53 <= self.exp - other.exp < EXP_MAX + 52,
        ensures
            r.wf(),
            r.value() == rounding::rounded(self.value() / other.value()),
            r.mant == 0 <==> self.mant == 0,
            r.mant != 0 ==> self.exp - other.exp - 53 <= r.exp <= self.exp - other.exp - 51,
    {
        if self.mant == 0 {
            proof {
                rounding::lemma_exp2_pos(other.exp as int);
                let (x, y) = (rounding::exp2(self.exp as int), rounding::exp2(other.exp as int));
                let b = other.mant as real;
                assert((0 as real * x) / (b * y) == 0 as real) by (nonlinear_arith)
                    requires
                        b > 0 as real,
                        y > 0 as real,
                ;
            }
            return Double::zero();
        }
        let a: u128 = self.mant as u128;
        let b: u128 = other.mant as u128;
        let e: i32 = self.exp - other.exp;
        proof {
            lemma_quotient_value(self, other);
        }
        if a >= b {
            Double::from_quotient(a * 0x10_0000_0000_0000, b, e - 52)
        } else {
            Double::from_quotient(a * 0x20_0000_0000_0000, b, e - 53)
        }
    }

    /// Whether this double is not above the other.
    pub fn at_most(self, other: Double) -> (r: bool)
        requires
            self.wf(),
            other.wf(),
        ensures
            r == (self.value() <= other.value()),
    {
        proof {
            lemma_order(self, other);
        }
        if self.mant == 0 {
            true
        } else if other.mant == 0 {
            false
        } else {
            self.exp < other.exp || (self.exp == other.exp && self.mant <= other.mant)
        }
    }

    /// The smaller of two doubles.
    pub fn smaller(self, other: Double) -> (r: Double)
        requires
            self.wf(),
            other.wf(),
        ensures
            r == self || r == other,
            r.value() == rounding::real_min(self.value(), other.value()),
    {
        if self.at_most(other) {
            self
        } else {
            other
        }
    }

    /// The double nearest to the square root.
    pub fn root(self) -> (r: Double)
        requires
            self.wf(),
            self.mant != 0,
        ensures
            r.wf(),
            r.mant != 0,
            r.value() == rounding::root_rounded(self.value()),
            self.exp - 53 <= 2 * r.exp <= self.exp - 50,
    {
        let shifted: i32 = self.exp - EXP_MIN;
        let half: i32 = shifted / 2;
        let square: u128 = if shifted % 2 == 0 {
            self.mant as u128 * 0x10_0000_0000_0000
        } else {
            self.mant as u128 * 0x20_0000_0000_0000
        };
        let e: i32 = half - 563;
        let mut lo: u128 = 0x10_0000_0000_0000;
        let mut hi: u128 = 0x20_0000_0000_0000;
        while lo + 1 < hi
            invariant
                0x10_0000_0000_0000 <= lo < hi <= 0x20_0000_0000_0000,
                lo * lo <= square < hi * hi,
            decreases hi - lo,
        {
            let mid: u128 = (lo + hi) / 2;
            proof {
                lemma_mantissa_square(mid as int);
            }
            if mid * mid <= square {
                lo = mid;
            } else {
                hi = mid;
            }
        }
        proof {
            lemma_mantissa_square(lo as int);
            assert(hi == lo + 1);
        }
        let m: u64 = if square - lo * lo > lo {
            (lo + 1) as u64
        } else {
            lo as u64
        };
        proof {
            rounding::lemma_root(square as int, lo as int, m as int);
            lemma_root_value(self, square as int, e as int);
            rounding::lemma_root_rounded_in(self.value(), e as int, square as int, m as int);
            rounding::lemma_exp2_step(e as int);
        }
        if m == MANT_END {
            proof {
                let (x, y) = (rounding::exp2(e as int), rounding::exp2(e + 1));
                let lo = MANT_MIN as real;
                let hi = MANT_END as real;
                assert(lo * y == hi * x) by (nonlinear_arith)
                    requires
                        y == 2 as real * x,
                        hi == 2 as real * lo,
                ;
            }
            Double { mant: MANT_MIN, exp: e + 1 }
        } else {
            Double { mant: m, exp: e }
        }
    }

    /// The nearest integer, halves going up, and at most `cap`.
    pub fn round_to(self, cap: u64) -> (r: u64)
        requires
            self.wf(),
            cap <= MANT_MIN,
        ensures
            r as int == (if rounding::round_half_up(self.value()) <= cap {
                rounding::round_half_up(self.value())
            } else {
                cap as int
            }),
    {
        if self.mant == 0 {
            proof {
                lemma_zero_value(self);
            }
            return 0;
        }
        if self.exp >= 0 {
            proof {
                lemma_value_large(self);
            }
            return cap;
        }
        if self.exp < -54 {
            proof {
                lemma_value_small(self);
            }
            return 0;
        }
        let k: u64 = (-self.exp) as u64;
        let d: u64 = 1u64 << k;
        proof {
            lemma_value_ratio(self, k, d);
            rounding::lemma_half_up_ratio(self.mant as int, d as int);
        }
        let q: u64 = (self.mant + d / 2) / d;
        if q <= cap {
            q
        } else {
            cap
        }
    }

    /// The greatest integer that is not above, and at most `cap`.
    pub fn floor_to(self, cap: u64) -> (r: u64)
        requires
            self.wf(),
            cap <= MANT_MIN,
        ensures
            r as int == (if self.value().floor() <= cap {
                self.value().floor()
            } else {
                cap as int
            }),
    {
        if self.mant == 0 {
            proof {
                lemma_zero_value(self);
            }
            return 0;
        }
        if self.exp >= 0 {
            proof {
                lemma_value_large(self);
            }
            return cap;
        }
        if self.exp < -54 {
            proof {
                lemma_value_small(self);
            }
            return 0;
        }
        let k: u64 = (-self.exp) as u64;
        let d: u64 = 1u64 << k;
        proof {
            lemma_value_ratio(self, k, d);
            rounding::lemma_floor_ratio(self.mant as int, d as int);
        }
        let q: u64 = self.mant / d;
        if q <= cap {
            q
        } else {
            cap
        }
    }

    /// The least integer that is not below, and at most `cap`.
    pub fn ceil_to(self, cap: u64) -> (r: u64)
        requires
            self.wf(),
            1 <= cap <= MANT_MIN,
        ensures
            r as int == (if rounding::ceiling(self.value()) <= cap {
                rounding::ceiling(self.value())
            } else {
                cap as int
            }),
    {
        if self.mant == 0 {
            proof {
                lemma_zero_value(self);
            }
            return 0;
        }
        if self.exp >= 0 {
            proof {
                lemma_value_large(self);
            }
            return cap;
        }
        if self.exp < -54 {
            proof {
                lemma_value_small(self);
            }
            return 1;
        }
        let k: u64 = (-self.exp) as u64;
        let d: u64 = 1u64 << k;
        proof {
            lemma_value_ratio(self, k, d);
            rounding::lemma_ceiling_ratio(self.mant as int, d as int);
        }
        let q: u64 = if self.mant % d == 0 {
            self.mant / d
        } else {
            self.mant / d + 1
        };
        if q <= cap {
            q
        } else {
            cap
        }
    }
}

proof fn lemma_zero_value(a: Double)
    requires
        a.mant == 0,
    ensures
        a.value() == 0 as real,
{
    let (m, x) = (a.mant as real, rounding::exp2(a.exp as int));
    assert(m * x == 0 as real) by (nonlinear_arith)
        requires
            m == 0 as real,
    ;
}

/// A double with no fraction bits is at least 2^52.
proof fn lemma_value_large(a: Double)
    requires
        a.mant >= MANT_MIN,
        a.exp >= 0,
    ensures
        a.value() >= 0x10_0000_0000_0000 as real,
{
    power2::lemma2_to64();
    rounding::lemma_exp2_mono(0, a.exp as int);
    let (m, x) = (a.mant as real, rounding::exp2(a.exp as int));
    assert(m * x >= m) by (nonlinear_arith)
        requires
            x >= 1 as real,
            m >= 0 as real,
    ;
}

/// A double below 2^-2 in exponent terms is a small positive number.
proof fn lemma_value_small(a: Double)
    requires
        0 < a.mant < MANT_END,
        a.exp < -54,
    ensures
        a.value() > 0 as real,
        4 as real * a.value() < 1 as real,
{
    power2::lemma2_to64_rest();
    rounding::lemma_exp2_pos(a.exp as int);
    rounding::lemma_exp2_mono(a.exp as int, -55);
    let (m, x) = (a.mant as real, rounding::exp2(a.exp as int));
    assert(rounding::exp2(-55) == 1 as real / 0x80_0000_0000_0000 as real);
    assert(m * x > 0 as real) by (nonlinear_arith)
        requires
            m > 0 as real,
            x > 0 as real,
    ;
    assert(m * x < 0x20_0000_0000_0000 as real * x) by (nonlinear_arith)
        requires
            m < 0x20_0000_0000_0000 as real,
            x > 0 as real,
    ;
}

/// A double with fraction bits as a ratio of integers.
proof fn lemma_value_ratio(a: Double, k: u64, d: u64)
    requires
        -54 <= a.exp < 0,
        k == -a.exp,
        d == 1u64 << k,
    ensures
        d == power2::pow2(k as nat),
        2 <= d <= 0x40_0000_0000_0000,
        d % 2 == 0,
        a.value() == a.mant as real / d as real,
{
    vstd::bits::lemma_u64_pow2_no_overflow(k as nat);
    vstd::bits::lemma_u64_shl_is_mul(1, k);
    power2::lemma2_to64();
    power2::lemma2_to64_rest();
    power2::lemma_pow2_unfold(k as nat);
    power2::lemma_pow2_pos((k - 1) as nat);
    if k < 54 {
        power2::lemma_pow2_strictly_increases(k as nat, 54);
    }
    let (m, dr) = (a.mant as real, d as real);
    assert(m * ((1 as real) / dr) == m / dr) by (nonlinear_arith)
        requires
            dr > 0 as real,
    ;
}

proof fn lemma_mantissa_square(m: int)
    requires
        0 <= m <= 0x20_0000_0000_0000,
    ensures
        0 <= m * m <= 0x400_0000_0000_0000_0000_0000_0000,
{
    assert(0 <= m * m <= 0x400_0000_0000_0000_0000_0000_0000) by (nonlinear_arith)
        requires
            0 <= m <= 0x20_0000_0000_0000,
    ;
}

/// A double as an integer of 105 or 106 bits times the square of a power of two.
proof fn lemma_root_value(a: Double, square: int, e: int)
    requires
        (square == a.mant * 0x10_0000_0000_0000 && a.exp == 2 * e + 52) || (square == a.mant
            * 0x20_0000_0000_0000 && a.exp == 2 * e + 53),
    ensures
        a.value() == square as real * (rounding::exp2(e) * rounding::exp2(e)),
{
    rounding::lemma_exp2_add(e, e);
    rounding::lemma_exp2_places(e + e);
    let m = a.mant as real;
    let x = rounding::exp2(e + e);
    assert(m * (0x10_0000_0000_0000 as real * x) == (m * 0x10_0000_0000_0000 as real) * x)
        by (nonlinear_arith);
    assert(m * (0x20_0000_0000_0000 as real * x) == (m * 0x20_0000_0000_0000 as real) * x)
        by (nonlinear_arith);
}

proof fn lemma_mantissa_product(a: int, b: int)
    requires
        0x10_0000_0000_0000 <= a < 0x20_0000_0000_0000,
        0x10_0000_0000_0000 <= b < 0x20_0000_0000_0000,
    ensures
        0x100_0000_0000_0000_0000_0000_0000 <= a * b < 0x400_0000_0000_0000_0000_0000_0000,
{
    assert(0x100_0000_0000_0000_0000_0000_0000 <= a * b < 0x400_0000_0000_0000_0000_0000_0000)
        by (nonlinear_arith)
        requires
            0x10_0000_0000_0000 <= a < 0x20_0000_0000_0000,
            0x10_0000_0000_0000 <= b < 0x20_0000_0000_0000,
    ;
}

proof fn lemma_product_value(a: Double, b: Double)
    ensures
        ({
            let p = (a.mant * b.mant) as real;
            let e = a.exp + b.exp;
            &&& a.value() * b.value() == (p / 0x10_0000_0000_0000 as real) * rounding::exp2(e + 52)
            &&& a.value() * b.value() == (p / 0x20_0000_0000_0000 as real) * rounding::exp2(e + 53)
        }),
{
    let (m, n) = (a.mant as real, b.mant as real);
    let (x, y) = (rounding::exp2(a.exp as int), rounding::exp2(b.exp as int));
    let p = (a.mant * b.mant) as real;
    let e = a.exp + b.exp;
    rounding::lemma_cast_mul(a.mant as int, b.mant as int);
    rounding::lemma_exp2_add(a.exp as int, b.exp as int);
    rounding::lemma_exp2_places(e);
    let z = rounding::exp2(e);
    assert((m * x) * (n * y) == p * z) by (nonlinear_arith)
        requires
            p == m * n,
            z == x * y,
    ;
    assert((p / 0x10_0000_0000_0000 as real) * (0x10_0000_0000_0000 as real * z) == p * z)
        by (nonlinear_arith);
    assert((p / 0x20_0000_0000_0000 as real) * (0x20_0000_0000_0000 as real * z) == p * z)
        by (nonlinear_arith);
}

proof fn lemma_quotient_value(a: Double, b: Double)
    requires
        b.mant != 0,
    ensures
        ({
            let (m, n) = (a.mant as real, b.mant as real);
            let e = a.exp - b.exp;
            &&& a.value() / b.value() == ((a.mant * 0x10_0000_0000_0000) as real / n) * rounding::exp2(e - 52)
            &&& a.value() / b.value() == ((a.mant * 0x20_0000_0000_0000) as real / n) * rounding::exp2(e - 53)
        }),
{
    let (m, n) = (a.mant as real, b.mant as real);
    let e = a.exp - b.exp;
    let (x, y, z) = (rounding::exp2(a.exp as int), rounding::exp2(b.exp as int), rounding::exp2(e));
    rounding::lemma_exp2_add(e, b.exp as int);
    rounding::lemma_exp2_pos(b.exp as int);
    rounding::lemma_exp2_places(e - 52);
    rounding::lemma_exp2_places(e - 53);
    let (u, v) = (rounding::exp2(e - 52), rounding::exp2(e - 53));
    assert(z == 0x10_0000_0000_0000 as real * u);
    assert(z == 0x20_0000_0000_0000 as real * v);
    assert((m * x) / (n * y) == (m / n) * z) by (nonlinear_arith)
        requires
            n > 0 as real,
            y > 0 as real,
            x == z * y,
    ;
    assert((m / n) * z == ((m * 0x10_0000_0000_0000 as real) / n) * u) by (nonlinear_arith)
        requires
            n > 0 as real,
            z == 0x10_0000_0000_0000 as real * u,
    ;
    assert((m / n) * z == ((m * 0x20_0000_0000_0000 as real) / n) * v) by (nonlinear_arith)
        requires
            n > 0 as real,
            z == 0x20_0000_0000_0000 as real * v,
    ;
}

/// Normal doubles are ordered by exponent first, then by mantissa.
proof fn lemma_order(a: Double, b: Double)
    requires
        a.wf(),
        b.wf(),
    ensures
        a.mant == 0 ==> a.value() == 0 as real && a.value() <= b.value(),
        a.mant != 0 && b.mant == 0 ==> b.value() < a.value(),
        a.mant != 0 && b.mant != 0 ==> (a.value() <= b.value() <==> a.exp < b.exp || (a.exp == b.exp
            && a.mant <= b.mant)),
{
    let (m, n) = (a.mant as real, b.mant as real);
    let (x, y) = (rounding::exp2(a.exp as int), rounding::exp2(b.exp as int));
    rounding::lemma_exp2_pos(a.exp as int);
    rounding::lemma_exp2_pos(b.exp as int);
    assert(n * y >= 0 as real) by (nonlinear_arith)
        requires
            n >= 0 as real,
            y > 0 as real,
    ;
    if a.mant == 0 {
        assert(m * x == 0 as real) by (nonlinear_arith)
            requires
                m == 0 as real,
        ;
    } else if b.mant == 0 {
        assert(m * x > 0 as real) by (nonlinear_arith)
            requires
                m > 0 as real,
                x > 0 as real,
        ;
        assert(n * y == 0 as real) by (nonlinear_arith)
            requires
                n == 0 as real,
        ;
    } else if a.exp < b.exp {
        rounding::lemma_exp2_mono(a.exp + 1, b.exp as int);
        rounding::lemma_exp2_step(a.exp as int);
        lemma_binade_gap(m, x, n, y);
    } else if b.exp < a.exp {
        rounding::lemma_exp2_mono(b.exp + 1, a.exp as int);
        rounding::lemma_exp2_step(b.exp as int);
        lemma_binade_gap(n, y, m, x);
    } else {
        assert(m * x <= n * x <==> m <= n) by (nonlinear_arith)
            requires
                x > 0 as real,
        ;
    }
}

proof fn lemma_binade_gap(m: real, x: real, n: real, y: real)
    requires
        0 as real <= m < 0x20_0000_0000_0000 as real,
        0x10_0000_0000_0000 as real <= n,
        x > 0 as real,
        2 as real * x <= y,
    ensures
        m * x < n * y,
{
    assert(m * x < 0x20_0000_0000_0000 as real * x) by (nonlinear_arith)
        requires
            m < 0x20_0000_0000_0000 as real,
            x > 0 as real,
    ;
    assert(0x10_0000_0000_0000 as real * y <= n * y) by (nonlinear_arith)
        requires
            0x10_0000_0000_0000 as real <= n,
            y > 0 as real,
    ;
}

} // verus!
