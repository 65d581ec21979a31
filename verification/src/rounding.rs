//! What rounding to double precision means, on real numbers.
//!
//! A normal double is an integer of 53 bits times a power of two. [`rounded`] is
//! the double nearest to a real number, ties to the even mantissa; a chain of
//! double operations is then a chain of exact real operations with `rounded`
//! around each of them.

use vstd::arithmetic::power2;
use vstd::prelude::*;

verus! {

/// `2^e` for any integer `e`.
pub open spec fn exp2(e: int) -> real {
    if e >= 0 {
        power2::pow2(e as nat) as real
    } else {
        (1 as real) / (power2::pow2((-e) as nat) as real)
    }
}

/// `v` lies in the range whose doubles are the multiples of `2^e`.
pub open spec fn in_binade(v: real, e: int) -> bool {
    0x10_0000_0000_0000 as real * exp2(e) <= v < 0x20_0000_0000_0000 as real * exp2(e)
}

/// The exponent of the range that a positive `v` lies in.
pub open spec fn binade(v: real) -> int {
    choose|e: int| in_binade(v, e)
}

/// The integer nearest to `r`; of two equally near ones, the even one.
pub open spec fn round_even(r: real) -> int {
    let low = r.floor();
    let rest = r - low as real;
    if rest + rest < 1 as real || (rest + rest == 1 as real && low % 2 == 0) {
        low
    } else {
        low + 1
    }
}

/// The double nearest to `v`, ties to the even mantissa; `0` for `v <= 0`.
pub open spec fn rounded(v: real) -> real {
    if v <= 0 as real {
        0 as real
    } else {
        round_even(v / exp2(binade(v))) as real * exp2(binade(v))
    }
}

/// The square root of `v` lies in the range whose doubles are the multiples of `2^e`.
pub open spec fn in_root_binade(v: real, e: int) -> bool {
    let lo = 0x10_0000_0000_0000 as real * exp2(e);
    let hi = 0x20_0000_0000_0000 as real * exp2(e);
    lo * lo <= v < hi * hi
}

/// The exponent of the range that the square root of a positive `v` lies in.
pub open spec fn root_binade(v: real) -> int {
    choose|e: int| in_root_binade(v, e)
}

/// `m` is the integer nearest to the square root of `r`.
pub open spec fn is_nearest_root(r: real, m: int) -> bool {
    &&& m >= 1
    &&& ((2 * m - 1) * (2 * m - 1)) as real <= 4 as real * r
    &&& 4 as real * r < ((2 * m + 1) * (2 * m + 1)) as real
}

/// The integer nearest to the square root of `r`.
pub open spec fn nearest_root(r: real) -> int {
    choose|m: int| is_nearest_root(r, m)
}

/// The double nearest to the square root of the double `v`. The root of a double
/// is never halfway between two doubles, so there is no tie to break.
pub open spec fn root_rounded(v: real) -> real {
    if v <= 0 as real {
        0 as real
    } else {
        let e = root_binade(v);
        nearest_root(v / (exp2(e) * exp2(e))) as real * exp2(e)
    }
}

/// The integer nearest to `v >= 0`, halves going up.
pub open spec fn round_half_up(v: real) -> int {
    (v + (1 as real) / (2 as real)).floor()
}

/// The least integer that is not below `v`.
pub open spec fn ceiling(v: real) -> int {
    -((-v).floor())
}

/// The smaller of two reals.
pub open spec fn real_min(a: real, b: real) -> real {
    if a <= b {
        a
    } else {
        b
    }
}

pub proof fn lemma_exp2_pos(e: int)
    ensures
        exp2(e) > 0 as real,
{
    if e >= 0 {
        power2::lemma_pow2_pos(e as nat);
    } else {
        power2::lemma_pow2_pos((-e) as nat);
        let p = power2::pow2((-e) as nat) as real;
        assert((1 as real) / p > 0 as real) by (nonlinear_arith)
            requires
                p > 0 as real,
        ;
    }
}

pub proof fn lemma_exp2_step(e: int)
    ensures
        exp2(e + 1) == 2 as real * exp2(e),
{
    if e >= 0 {
        power2::lemma_pow2_unfold((e + 1) as nat);
    } else {
        let k = (-e) as nat;
        power2::lemma_pow2_unfold(k);
        power2::lemma_pow2_pos((k - 1) as nat);
        let p = power2::pow2((k - 1) as nat) as real;
        assert(power2::pow2(k) as real == 2 as real * p);
        assert((1 as real) / p == 2 as real * ((1 as real) / (2 as real * p))) by (nonlinear_arith)
            requires
                p > 0 as real,
        ;
        if e == -1 {
            power2::lemma2_to64();
            assert((1 as real) / p == 1 as real) by (nonlinear_arith)
                requires
                    p == 1 as real,
            ;
        }
        assert(exp2(e + 1) == (1 as real) / p);
        assert(exp2(e) == (1 as real) / (2 as real * p));
    }
}

pub proof fn lemma_exp2_add(a: int, b: int)
    ensures
        exp2(a + b) == exp2(a) * exp2(b),
    decreases
            (if b >= 0 {
                b
            } else {
                -b
            }),
{
    let x = exp2(a);
    if b == 0 {
        power2::lemma2_to64();
        assert(exp2(0) == 1 as real);
        assert(x * (1 as real) == x) by (nonlinear_arith);
    } else if b > 0 {
        lemma_exp2_add(a, b - 1);
        lemma_exp2_step(a + b - 1);
        lemma_exp2_step(b - 1);
        let y = exp2(b - 1);
        assert(2 as real * (x * y) == x * (2 as real * y)) by (nonlinear_arith);
    } else {
        lemma_exp2_add(a, b + 1);
        lemma_exp2_step(a + b);
        lemma_exp2_step(b);
        let y = exp2(b);
        assert(x * (2 as real * y) == 2 as real * (x * y)) by (nonlinear_arith);
    }
}

pub proof fn lemma_exp2_mono(a: int, b: int)
    requires
        a <= b,
    ensures
        exp2(a) <= exp2(b),
    decreases b - a,
{
    if a < b {
        lemma_exp2_mono(a, b - 1);
        lemma_exp2_step(b - 1);
        lemma_exp2_pos(b - 1);
    }
}

/// Moving 52 or 53 places between a factor and the power of two beside it.
pub proof fn lemma_exp2_places(e: int)
    ensures
        exp2(e + 52) == 0x10_0000_0000_0000 as real * exp2(e),
        exp2(e + 53) == 0x20_0000_0000_0000 as real * exp2(e),
{
    power2::lemma2_to64_rest();
    lemma_exp2_add(e, 52);
    lemma_exp2_add(e, 53);
    let x = exp2(e);
    assert(exp2(52) == 0x10_0000_0000_0000 as real);
    assert(exp2(53) == 0x20_0000_0000_0000 as real);
    assert(x * 0x10_0000_0000_0000 as real == 0x10_0000_0000_0000 as real * x) by (nonlinear_arith);
    assert(x * 0x20_0000_0000_0000 as real == 0x20_0000_0000_0000 as real * x) by (nonlinear_arith);
}

/// Integers multiply as reals do.
pub proof fn lemma_cast_mul(a: int, b: int)
    ensures
        (a * b) as real == a as real * b as real,
{
    assert((a * b) as real == a as real * b as real) by (nonlinear_arith);
}

/// The floor of a ratio of integers is their quotient, and the rest is their remainder.
pub proof fn lemma_floor_ratio(n: int, d: int)
    requires
        0 < d,
    ensures
        (n as real / d as real).floor() == n / d,
        n as real / d as real == (n / d) as real + (n % d) as real / d as real,
        0 as real <= (n % d) as real / (d as real) < 1 as real,
{
    let q = n / d;
    let r = n % d;
    assert(n == q * d + r && 0 <= r < d) by (nonlinear_arith)
        requires
            0 < d,
            q == n / d,
            r == n % d,
    ;
    let (nr, qr, dr, rr) = (n as real, q as real, d as real, r as real);
    lemma_cast_mul(q, d);
    assert(nr / dr == qr + rr / dr) by (nonlinear_arith)
        requires
            nr == qr * dr + rr,
            dr > 0 as real,
    ;
    assert(0 as real <= rr / dr < 1 as real) by (nonlinear_arith)
        requires
            0 as real <= rr < dr,
    ;
}

/// Rounding a ratio of integers by comparing its remainder with half the divisor.
pub proof fn lemma_round_even_ratio(n: int, d: int)
    requires
        0 < d,
    ensures
        round_even(n as real / d as real) == (if 2 * (n % d) < d || (2 * (n % d) == d && (n / d) % 2
            == 0) {
            n / d
        } else {
            n / d + 1
        }),
{
    lemma_floor_ratio(n, d);
    let r = n % d;
    let (dr, rr) = (d as real, r as real);
    let f = rr / dr;
    assert(f * dr == rr) by (nonlinear_arith)
        requires
            f == rr / dr,
            dr > 0 as real,
    ;
    assert(f + f < 1 as real <==> rr + rr < dr) by (nonlinear_arith)
        requires
            f * dr == rr,
            dr > 0 as real,
    ;
    assert(f + f == 1 as real <==> rr + rr == dr) by (nonlinear_arith)
        requires
            f * dr == rr,
            dr > 0 as real,
    ;
}

pub proof fn lemma_half_up_ratio(n: int, d: int)
    requires
        0 <= n,
        0 < d,
        d % 2 == 0,
    ensures
        round_half_up(n as real / d as real) == (n + d / 2) / d,
{
    let h = d / 2;
    lemma_floor_ratio(n + h, d);
    let (nr, dr, hr) = (n as real, d as real, h as real);
    assert((nr + hr) / dr == nr / dr + (1 as real) / (2 as real)) by (nonlinear_arith)
        requires
            dr == hr + hr,
            dr > 0 as real,
    ;
}

pub proof fn lemma_ceiling_ratio(n: int, d: int)
    requires
        0 <= n,
        0 < d,
    ensures
        ceiling(n as real / d as real) == (if n % d == 0 {
            n / d
        } else {
            n / d + 1
        }),
{
    lemma_floor_ratio(n, d);
    let v = n as real / d as real;
    let (rr, dr) = ((n % d) as real, d as real);
    if n % d == 0 {
        assert(rr / dr == 0 as real) by (nonlinear_arith)
            requires
                rr == 0 as real,
                dr > 0 as real,
        ;
    } else {
        assert(rr / dr > 0 as real) by (nonlinear_arith)
            requires
                rr > 0 as real,
                dr > 0 as real,
        ;
    }
}

pub proof fn lemma_quotient_bounds(n: int, d: int)
    requires
        0 < d,
        0x10_0000_0000_0000 * d <= n < 0x20_0000_0000_0000 * d,
    ensures
        0x10_0000_0000_0000 <= n / d < 0x20_0000_0000_0000,
        0 <= n % d < d,
{
    assert(0x10_0000_0000_0000 <= n / d < 0x20_0000_0000_0000) by (nonlinear_arith)
        requires
            0 < d,
            0x10_0000_0000_0000 * d <= n < 0x20_0000_0000_0000 * d,
    ;
}

pub proof fn lemma_binade_unique(v: real, a: int, b: int)
    requires
        in_binade(v, a),
        in_binade(v, b),
    ensures
        a == b,
{
    if a < b {
        lemma_exp2_step(a);
        lemma_exp2_mono(a + 1, b);
    } else if b < a {
        lemma_exp2_step(b);
        lemma_exp2_mono(b + 1, a);
    }
}

/// A value whose range is known rounds to a multiple of that range's step.
pub proof fn lemma_rounded_in(v: real, e: int)
    requires
        in_binade(v, e),
    ensures
        v > 0 as real,
        binade(v) == e,
        rounded(v) == round_even(v / exp2(e)) as real * exp2(e),
{
    lemma_exp2_pos(e);
    lemma_binade_unique(v, e, binade(v));
}

pub proof fn lemma_rounded_quotient(n: int, d: int, e: int)
    requires
        0 < d,
        0x10_0000_0000_0000 * d <= n < 0x20_0000_0000_0000 * d,
    ensures
        rounded((n as real / d as real) * exp2(e)) == (if 2 * (n % d) < d || (2 * (n % d) == d && (n
            / d) % 2 == 0) {
            n / d
        } else {
            n / d + 1
        }) as real * exp2(e),
{
    let (nr, dr) = (n as real, d as real);
    let x = exp2(e);
    let t = nr / dr;
    lemma_exp2_pos(e);
    assert(0x10_0000_0000_0000 as real * dr <= nr < 0x20_0000_0000_0000 as real * dr);
    assert(0x10_0000_0000_0000 as real <= t < 0x20_0000_0000_0000 as real) by (nonlinear_arith)
        requires
            t == nr / dr,
            dr > 0 as real,
            0x10_0000_0000_0000 as real * dr <= nr < 0x20_0000_0000_0000 as real * dr,
    ;
    assert(0x10_0000_0000_0000 as real * x <= t * x < 0x20_0000_0000_0000 as real * x)
        by (nonlinear_arith)
        requires
            x > 0 as real,
            0x10_0000_0000_0000 as real <= t < 0x20_0000_0000_0000 as real,
    ;
    assert((t * x) / x == t) by (nonlinear_arith)
        requires
            x > 0 as real,
    ;
    lemma_rounded_in(t * x, e);
    lemma_round_even_ratio(n, d);
}

/// The nearest integer root follows from the integer root by comparing the rest with it.
pub proof fn lemma_root(square: int, low: int, m: int)
    requires
        low >= 1,
        low * low <= square < (low + 1) * (low + 1),
        m == (if square - low * low > low {
            low + 1
        } else {
            low
        }),
    ensures
        is_nearest_root(square as real, m),
{
    assert((2 * m - 1) * (2 * m - 1) <= 4 * square < (2 * m + 1) * (2 * m + 1)) by (nonlinear_arith)
        requires
            low >= 1,
            low * low <= square < (low + 1) * (low + 1),
            m == (if square - low * low > low {
                low + 1
            } else {
                low
            }),
    ;
}

pub proof fn lemma_root_binade_gap(v: real, a: int, b: int)
    requires
        in_root_binade(v, a),
        a < b,
    ensures
        !in_root_binade(v, b),
{
    lemma_exp2_step(a);
    lemma_exp2_pos(a);
    lemma_exp2_mono(a + 1, b);
    let hi = 0x20_0000_0000_0000 as real * exp2(a);
    let lo = 0x10_0000_0000_0000 as real * exp2(b);
    assert(hi * hi <= lo * lo) by (nonlinear_arith)
        requires
            0 as real <= hi <= lo,
    ;
}

pub proof fn lemma_root_binade_unique(v: real, a: int, b: int)
    requires
        in_root_binade(v, a),
        in_root_binade(v, b),
    ensures
        a == b,
{
    if a < b {
        lemma_root_binade_gap(v, a, b);
    } else if b < a {
        lemma_root_binade_gap(v, b, a);
    }
}

pub proof fn lemma_nearest_root_unique(r: real, a: int, b: int)
    requires
        is_nearest_root(r, a),
        is_nearest_root(r, b),
    ensures
        a == b,
{
    if a < b {
        assert((2 * a + 1) * (2 * a + 1) <= (2 * b - 1) * (2 * b - 1)) by (nonlinear_arith)
            requires
                1 <= a < b,
        ;
    } else if b < a {
        assert((2 * b + 1) * (2 * b + 1) <= (2 * a - 1) * (2 * a - 1)) by (nonlinear_arith)
            requires
                1 <= b < a,
        ;
    }
}

/// A value whose root's range is known has its root rounded to that range's step.
pub proof fn lemma_root_rounded_in(v: real, e: int, square: int, m: int)
    requires
        v == square as real * (exp2(e) * exp2(e)),
        0x100_0000_0000_0000_0000_0000_0000 <= square < 0x400_0000_0000_0000_0000_0000_0000,
        is_nearest_root(square as real, m),
    ensures
        in_root_binade(v, e),
        root_binade(v) == e,
        root_rounded(v) == m as real * exp2(e),
{
    lemma_exp2_pos(e);
    let x = exp2(e);
    let s = square as real;
    let lo = 0x10_0000_0000_0000 as real * x;
    let hi = 0x20_0000_0000_0000 as real * x;
    assert(x * x > 0 as real) by (nonlinear_arith)
        requires
            x > 0 as real,
    ;
    let w = x * x;
    assert(lo * lo == 0x100_0000_0000_0000_0000_0000_0000 as real * w) by (nonlinear_arith)
        requires
            lo == 0x10_0000_0000_0000 as real * x,
            w == x * x,
    ;
    assert(hi * hi == 0x400_0000_0000_0000_0000_0000_0000 as real * w) by (nonlinear_arith)
        requires
            hi == 0x20_0000_0000_0000 as real * x,
            w == x * x,
    ;
    assert(0x100_0000_0000_0000_0000_0000_0000 as real * w <= s * w) by (nonlinear_arith)
        requires
            w > 0 as real,
            0x100_0000_0000_0000_0000_0000_0000 as real <= s,
    ;
    assert(s * w < 0x400_0000_0000_0000_0000_0000_0000 as real * w) by (nonlinear_arith)
        requires
            w > 0 as real,
            s < 0x400_0000_0000_0000_0000_0000_0000 as real,
    ;
    assert((s * w) / w == s) by (nonlinear_arith)
        requires
            w > 0 as real,
    ;
    assert(in_root_binade(v, e));
    lemma_root_binade_unique(v, e, root_binade(v));
    lemma_nearest_root_unique(s, m, nearest_root(s));
}

/// A value between two ranges lies in one of the ranges from the first to the last.
proof fn lemma_binade_between(v: real, lo: int, hi: int)
    requires
        lo <= hi,
        0x10_0000_0000_0000 as real * exp2(lo) <= v,
        v < 0x20_0000_0000_0000 as real * exp2(hi),
    ensures
        exists|e: int| lo <= e <= hi && in_binade(v, e),
    decreases hi - lo,
{
    if v < 0x20_0000_0000_0000 as real * exp2(lo) {
        assert(in_binade(v, lo));
    } else {
        lemma_exp2_step(lo);
        if lo == hi {
            assert(false);
        }
        lemma_binade_between(v, lo + 1, hi);
        let e = choose|e: int| lo + 1 <= e <= hi && in_binade(v, e);
        assert(lo <= e <= hi && in_binade(v, e));
    }
}

/// A power of two exceeds its exponent.
proof fn lemma_pow2_exceeds(n: nat)
    ensures
        power2::pow2(n) > n,
    decreases n,
{
    if n == 0 {
        power2::lemma2_to64();
    } else {
        lemma_pow2_exceeds((n - 1) as nat);
        power2::lemma_pow2_unfold(n);
    }
}

/// Every positive real lies between two powers of two.
proof fn lemma_between_powers(v: real) -> (r: (int, int))
    requires
        v > 0 as real,
    ensures
        r.0 <= 0 <= r.1,
        exp2(r.0) <= v < exp2(r.1),
{
    let up = v.floor() + 1;
    lemma_pow2_exceeds(up as nat);
    let w = (1 as real) / v;
    assert(w > 0 as real && w * v == 1 as real) by (nonlinear_arith)
        requires
            v > 0 as real,
            w == (1 as real) / v,
    ;
    let down = w.floor() + 1;
    lemma_pow2_exceeds(down as nat);
    let p = power2::pow2(down as nat) as real;
    assert(p > w);
    assert((1 as real) / p <= v) by (nonlinear_arith)
        requires
            p > w,
            w > 0 as real,
            w * v == 1 as real,
            v > 0 as real,
    ;
    (-down, up)
}

/// Every positive real has a range.
pub proof fn lemma_binade(v: real)
    requires
        v > 0 as real,
    ensures
        in_binade(v, binade(v)),
{
    let (lo, hi) = lemma_between_powers(v);
    lemma_exp2_places(lo - 52);
    lemma_exp2_pos(hi);
    lemma_binade_between(v, lo - 52, hi);
}

/// How rounding acts inside a range: the mantissa before and after.
proof fn lemma_rounded_parts(v: real) -> (r: (real, int, real))
    requires
        v > 0 as real,
    ensures
        ({
            let (t, m, x) = r;
            &&& x == exp2(binade(v))
            &&& x > 0 as real
            &&& v == t * x
            &&& m == round_even(t)
            &&& rounded(v) == m as real * x
            &&& 0x10_0000_0000_0000 as real <= t < 0x20_0000_0000_0000 as real
            &&& 0x10_0000_0000_0000 <= m <= 0x20_0000_0000_0000
            &&& 2 as real * m as real - 1 as real <= 2 as real * t <= 2 as real * m as real
                + 1 as real
        }),
{
    lemma_binade(v);
    let e = binade(v);
    lemma_exp2_pos(e);
    let x = exp2(e);
    let t = v / x;
    assert(t * x == v) by (nonlinear_arith)
        requires
            t == v / x,
            x > 0 as real,
    ;
    assert(0x10_0000_0000_0000 as real <= t < 0x20_0000_0000_0000 as real) by (nonlinear_arith)
        requires
            t * x == v,
            x > 0 as real,
            0x10_0000_0000_0000 as real * x <= v < 0x20_0000_0000_0000 as real * x,
    ;
    (t, round_even(t), x)
}

/// Rounding never changes the order.
pub proof fn lemma_rounded_monotone(a: real, b: real)
    requires
        a <= b,
    ensures
        rounded(a) <= rounded(b),
{
    if a > 0 as real {
        let (ta, ma, x) = lemma_rounded_parts(a);
        let (tb, mb, y) = lemma_rounded_parts(b);
        lemma_binade(a);
        lemma_binade(b);
        let (ea, eb) = (binade(a), binade(b));
        let (p, q) = (ma as real, mb as real);
        if ea == eb {
            assert(ta <= tb) by (nonlinear_arith)
                requires
                    ta * x <= tb * x,
                    x > 0 as real,
            ;
            assert(ma <= mb);
            assert(p * x <= q * x) by (nonlinear_arith)
                requires
                    p <= q,
                    x > 0 as real,
            ;
        } else if ea < eb {
            lemma_exp2_step(ea);
            lemma_exp2_mono(ea + 1, eb);
            assert(p * x <= 0x20_0000_0000_0000 as real * x) by (nonlinear_arith)
                requires
                    p <= 0x20_0000_0000_0000 as real,
                    x > 0 as real,
            ;
            assert(0x10_0000_0000_0000 as real * y <= q * y) by (nonlinear_arith)
                requires
                    0x10_0000_0000_0000 as real <= q,
                    y > 0 as real,
            ;
        } else {
            lemma_exp2_step(eb);
            lemma_exp2_mono(eb + 1, ea);
            assert(false);
        }
    } else if b > 0 as real {
        let (tb, mb, y) = lemma_rounded_parts(b);
        let q = mb as real;
        assert(q * y >= 0 as real) by (nonlinear_arith)
            requires
                q >= 0 as real,
                y > 0 as real,
        ;
    }
}

/// A multiple of a power of two by an integer of exactly 53 bits is a double already.
proof fn lemma_rounded_normal(n: int, e: int)
    requires
        0x10_0000_0000_0000 <= n < 0x20_0000_0000_0000,
    ensures
        rounded(n as real * exp2(e)) == n as real * exp2(e),
{
    let (nr, x) = (n as real, exp2(e));
    lemma_exp2_pos(e);
    assert(0x10_0000_0000_0000 as real * x <= nr * x < 0x20_0000_0000_0000 as real * x)
        by (nonlinear_arith)
        requires
            x > 0 as real,
            0x10_0000_0000_0000 as real <= nr < 0x20_0000_0000_0000 as real,
    ;
    assert((nr * x) / x == nr) by (nonlinear_arith)
        requires
            x > 0 as real,
    ;
    lemma_rounded_in(nr * x, e);
    assert(round_even(nr) == n);
}

/// A multiple of a power of two by an integer of at most 53 bits is a double already.
pub proof fn lemma_rounded_exact(n: int, e: int)
    requires
        0 <= n <= 0x20_0000_0000_0000,
    ensures
        rounded(n as real * exp2(e)) == n as real * exp2(e),
    decreases 0x20_0000_0000_0000 - n,
{
    let (nr, x) = (n as real, exp2(e));
    if n == 0 {
        assert(nr * x == 0 as real) by (nonlinear_arith)
            requires
                nr == 0 as real,
        ;
    } else if n < 0x10_0000_0000_0000 {
        lemma_exp2_step(e - 1);
        let y = exp2(e - 1);
        let k = (2 * n) as real;
        assert(nr * x == k * y) by (nonlinear_arith)
            requires
                x == 2 as real * y,
                k == 2 as real * nr,
        ;
        lemma_rounded_exact(2 * n, e - 1);
    } else if n == 0x20_0000_0000_0000 {
        lemma_exp2_step(e);
        let y = exp2(e + 1);
        let k = 0x10_0000_0000_0000int as real;
        assert(nr * x == k * y) by (nonlinear_arith)
            requires
                y == 2 as real * x,
                nr == 2 as real * k,
        ;
        lemma_rounded_normal(0x10_0000_0000_0000, e + 1);
    } else {
        lemma_rounded_normal(n, e);
    }
}

/// Integers of at most 53 bits are doubles.
pub proof fn lemma_rounded_int(n: int)
    requires
        0 <= n <= 0x20_0000_0000_0000,
    ensures
        rounded(n as real) == n as real,
{
    power2::lemma2_to64();
    lemma_rounded_exact(n, 0);
    let nr = n as real;
    assert(nr * (1 as real) == nr) by (nonlinear_arith);
    assert(exp2(0) == 1 as real);
}

/// Rounding moves a value by at most one part in 2^53.
pub proof fn lemma_rounded_error(v: real)
    requires
        v >= 0 as real,
    ensures
        rounded(v) >= 0 as real,
        v > 0 as real ==> rounded(v) > 0 as real,
        0x20_0000_0000_0000 as real * rounded(v) <= 0x20_0000_0000_0001 as real * v,
        0x1f_ffff_ffff_ffff as real * v <= 0x20_0000_0000_0000 as real * rounded(v),
{
    if v > 0 as real {
        let (t, m, x) = lemma_rounded_parts(v);
        let mr = m as real;
        assert(mr * x > 0 as real) by (nonlinear_arith)
            requires
                mr > 0 as real,
                x > 0 as real,
        ;
        assert(0x20_0000_0000_0000 as real * (mr * x) <= 0x20_0000_0000_0001 as real * (t * x))
            by (nonlinear_arith)
            requires
                x > 0 as real,
                2 as real * mr <= 2 as real * t + 1 as real,
                0x10_0000_0000_0000 as real <= t,
        ;
        assert(0x1f_ffff_ffff_ffff as real * (t * x) <= 0x20_0000_0000_0000 as real * (mr * x))
            by (nonlinear_arith)
            requires
                x > 0 as real,
                2 as real * t <= 2 as real * mr + 1 as real,
                0x10_0000_0000_0000 as real <= t,
        ;
    }
}

proof fn lemma_root_binade_between(v: real, lo: int, hi: int)
    requires
        lo <= hi,
        (0x10_0000_0000_0000 as real * exp2(lo)) * (0x10_0000_0000_0000 as real * exp2(lo)) <= v,
        v < (0x20_0000_0000_0000 as real * exp2(hi)) * (0x20_0000_0000_0000 as real * exp2(hi)),
    ensures
        exists|e: int| lo <= e <= hi && in_root_binade(v, e),
    decreases hi - lo,
{
    let top = 0x20_0000_0000_0000 as real * exp2(lo);
    if v < top * top {
        assert(in_root_binade(v, lo));
    } else {
        lemma_exp2_step(lo);
        if lo == hi {
            assert(false);
        }
        assert(0x10_0000_0000_0000 as real * exp2(lo + 1) == top);
        lemma_root_binade_between(v, lo + 1, hi);
        let e = choose|e: int| lo + 1 <= e <= hi && in_root_binade(v, e);
        assert(lo <= e <= hi && in_root_binade(v, e));
    }
}

/// The root of every positive real has a range.
proof fn lemma_root_binade(v: real)
    requires
        v > 0 as real,
    ensures
        in_root_binade(v, root_binade(v)),
{
    let (l, h) = lemma_between_powers(v);
    lemma_exp2_places(l - 52);
    lemma_exp2_pos(l);
    lemma_exp2_mono(l, 0);
    lemma_exp2_mono(0, h);
    power2::lemma2_to64();
    let (a, b) = (exp2(l), exp2(h));
    assert(a * a <= a) by (nonlinear_arith)
        requires
            0 as real <= a <= 1 as real,
    ;
    let c = 0x20_0000_0000_0000 as real * b;
    assert(c * c >= b) by (nonlinear_arith)
        requires
            c >= b,
            b >= 1 as real,
    ;
    assert(0x10_0000_0000_0000 as real * exp2(l - 52) == a);
    lemma_root_binade_between(v, l - 52, h);
}

proof fn lemma_nearest_root_between(r: real, lo: int, hi: int)
    requires
        1 <= lo <= hi,
        ((2 * lo - 1) * (2 * lo - 1)) as real <= 4 as real * r,
        4 as real * r < ((2 * hi + 1) * (2 * hi + 1)) as real,
    ensures
        exists|m: int| lo <= m <= hi && is_nearest_root(r, m),
    decreases hi - lo,
{
    if 4 as real * r < ((2 * lo + 1) * (2 * lo + 1)) as real {
        assert(is_nearest_root(r, lo));
    } else {
        let next = lo + 1;
        assert(2 * next - 1 == 2 * lo + 1);
        lemma_nearest_root_between(r, next, hi);
        let m = choose|m: int| next <= m <= hi && is_nearest_root(r, m);
        assert(lo <= m <= hi && is_nearest_root(r, m));
    }
}

/// How taking a root acts inside a range: the square and the mantissa of its root.
proof fn lemma_root_parts(v: real) -> (r: (real, int, real))
    requires
        v > 0 as real,
    ensures
        ({
            let (t, m, x) = r;
            &&& x == exp2(root_binade(v))
            &&& x > 0 as real
            &&& v == t * (x * x)
            &&& root_rounded(v) == m as real * x
            &&& is_nearest_root(t, m)
            &&& 0x10_0000_0000_0000 <= m <= 0x20_0000_0000_0000
        }),
{
    lemma_root_binade(v);
    let e = root_binade(v);
    lemma_exp2_pos(e);
    let x = exp2(e);
    let w = x * x;
    assert(w > 0 as real) by (nonlinear_arith)
        requires
            w == x * x,
            x > 0 as real,
    ;
    let t = v / w;
    assert(t * w == v) by (nonlinear_arith)
        requires
            t == v / w,
            w > 0 as real,
    ;
    let lo = 0x10_0000_0000_0000 as real * x;
    let hi = 0x20_0000_0000_0000 as real * x;
    assert(lo * lo == 0x100_0000_0000_0000_0000_0000_0000 as real * w) by (nonlinear_arith)
        requires
            lo == 0x10_0000_0000_0000 as real * x,
            w == x * x,
    ;
    assert(hi * hi == 0x400_0000_0000_0000_0000_0000_0000 as real * w) by (nonlinear_arith)
        requires
            hi == 0x20_0000_0000_0000 as real * x,
            w == x * x,
    ;
    assert(0x100_0000_0000_0000_0000_0000_0000 as real <= t) by (nonlinear_arith)
        requires
            w > 0 as real,
            t * w >= 0x100_0000_0000_0000_0000_0000_0000 as real * w,
    ;
    assert(t < 0x400_0000_0000_0000_0000_0000_0000 as real) by (nonlinear_arith)
        requires
            w > 0 as real,
            t * w < 0x400_0000_0000_0000_0000_0000_0000 as real * w,
    ;
    let (a, b) = (0x10_0000_0000_0000int, 0x20_0000_0000_0000int);
    assert((2 * a - 1) * (2 * a - 1) <= 0x400_0000_0000_0000_0000_0000_0000) by (nonlinear_arith)
        requires
            a == 0x10_0000_0000_0000,
    ;
    assert((2 * b + 1) * (2 * b + 1) >= 0x1000_0000_0000_0000_0000_0000_0000) by (nonlinear_arith)
        requires
            b == 0x20_0000_0000_0000,
    ;
    lemma_nearest_root_between(t, a, b);
    let m = choose|m: int|
        0x10_0000_0000_0000 <= m <= 0x20_0000_0000_0000 && is_nearest_root(t, m);
    lemma_nearest_root_unique(t, m, nearest_root(t));
    (t, m, x)
}

/// The rounded square root is off by at most one part in 2^53.
pub proof fn lemma_root_rounded_error(v: real)
    requires
        v > 0 as real,
    ensures
        ({
            let r = root_rounded(v);
            let below = 0x1f_ffff_ffff_ffff as real * r;
            let above = 0x20_0000_0000_0001 as real * r;
            &&& r > 0 as real
            &&& below * below <= 0x400_0000_0000_0000_0000_0000_0000 as real * v
            &&& 0x400_0000_0000_0000_0000_0000_0000 as real * v < above * above
        }),
{
    let (t, m, x) = lemma_root_parts(v);
    let mr = m as real;
    let r = mr * x;
    let (p, q) = ((2 * m - 1) as real, (2 * m + 1) as real);
    lemma_cast_mul(2 * m - 1, 2 * m - 1);
    lemma_cast_mul(2 * m + 1, 2 * m + 1);
    let big = 0x20_0000_0000_0000 as real;
    assert(r > 0 as real) by (nonlinear_arith)
        requires
            r == mr * x,
            mr > 0 as real,
            x > 0 as real,
    ;
    let below = 0x1f_ffff_ffff_ffff as real * r;
    let above = 0x20_0000_0000_0001 as real * r;
    // the ends of the interval of `v`, with the power of two put back in
    let lo = p * x;
    let hi = q * x;
    assert(lo * lo == (p * p) * (x * x)) by (nonlinear_arith)
        requires
            lo == p * x,
    ;
    assert(hi * hi == (q * q) * (x * x)) by (nonlinear_arith)
        requires
            hi == q * x,
    ;
    let w = x * x;
    assert(w > 0 as real) by (nonlinear_arith)
        requires
            w == x * x,
            x > 0 as real,
    ;
    assert((p * p) * w <= 4 as real * (t * w)) by (nonlinear_arith)
        requires
            p * p <= 4 as real * t,
            w > 0 as real,
    ;
    assert(4 as real * (t * w) < (q * q) * w) by (nonlinear_arith)
        requires
            4 as real * t < q * q,
            w > 0 as real,
    ;
    assert(2 as real * below <= big * lo) by (nonlinear_arith)
        requires
            below == 0x1f_ffff_ffff_ffff as real * (mr * x),
            lo == p * x,
            p == 2 as real * mr - 1 as real,
            mr >= 0x10_0000_0000_0000 as real,
            x > 0 as real,
            big == 0x20_0000_0000_0000 as real,
    ;
    assert(big * hi <= 2 as real * above) by (nonlinear_arith)
        requires
            above == 0x20_0000_0000_0001 as real * (mr * x),
            hi == q * x,
            q == 2 as real * mr + 1 as real,
            mr >= 0x10_0000_0000_0000 as real,
            x > 0 as real,
            big == 0x20_0000_0000_0000 as real,
    ;
    let bl = big * lo;
    let bh = big * hi;
    assert(hi > 0 as real) by (nonlinear_arith)
        requires
            hi == q * x,
            q > 0 as real,
            x > 0 as real,
    ;
    assert(4 as real * (below * below) <= bl * bl) by (nonlinear_arith)
        requires
            0 as real <= 2 as real * below <= bl,
    ;
    assert(bh * bh <= 4 as real * (above * above)) by (nonlinear_arith)
        requires
            0 as real <= bh <= 2 as real * above,
    ;
    assert(bl * bl == 0x400_0000_0000_0000_0000_0000_0000 as real * (lo * lo)) by (nonlinear_arith)
        requires
            bl == 0x20_0000_0000_0000 as real * lo,
    ;
    assert(bh * bh == 0x400_0000_0000_0000_0000_0000_0000 as real * (hi * hi)) by (nonlinear_arith)
        requires
            bh == 0x20_0000_0000_0000 as real * hi,
    ;
}

/// The rounded square root of a number that is not below one is not below one.
pub proof fn lemma_root_rounded_at_least_one(v: real)
    requires
        v >= 1 as real,
    ensures
        root_rounded(v) >= 1 as real,
{
    let (t, m, x) = lemma_root_parts(v);
    let e = root_binade(v);
    lemma_root_binade(v);
    lemma_exp2_places(-52);
    power2::lemma2_to64();
    if e < -52 {
        lemma_exp2_step(e);
        lemma_exp2_mono(e + 1, -52);
        let hi = 0x20_0000_0000_0000 as real * x;
        assert(hi * hi <= 1 as real) by (nonlinear_arith)
            requires
                0 as real <= hi <= 1 as real,
        ;
    }
    lemma_exp2_mono(-52, e);
    let mr = m as real;
    assert(mr * x >= 0x10_0000_0000_0000 as real * x) by (nonlinear_arith)
        requires
            mr >= 0x10_0000_0000_0000 as real,
            x > 0 as real,
    ;
}

/// Rounding half up gives the nearest integer, and the upper of two that are as near.
pub proof fn law_rounding_gives_the_nearest(v: real, n: int)
    ensures
        2 as real * (v - round_half_up(v) as real) < 1 as real,
        2 as real * (round_half_up(v) as real - v) <= 1 as real,
        -1 as real <= 2 as real * (v - n as real) < 1 as real ==> round_half_up(v) == n,
{
}

/// The ceiling of a number is the smallest integer that is not below it.
pub proof fn law_ceilings_are_smallest(v: real, n: int)
    ensures
        v <= ceiling(v) as real,
        v <= n as real ==> ceiling(v) <= n,
{
}

} // verus!
