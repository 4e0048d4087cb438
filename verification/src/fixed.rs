//! Signed fixed-point numbers with 32 fractional bits.
//!
//! Every number the library works on is an `i64` that stands for the real
//! value `raw / 2^32`. Sums saturate at the ends of the `i64` range. The
//! largest raw value stands for infinity: it is the cost that the base-two
//! logarithm assigns to a probability of zero, and no sum leads away from it.

use vstd::arithmetic::power2::{
    lemma2_to64, lemma2_to64_rest, lemma_pow2_adds, lemma_pow2_pos, lemma_pow2_strictly_increases,
    lemma_pow2_unfold, pow2,
};
use vstd::arithmetic::power::{lemma_pow1, lemma_pow_multiplies, lemma_square_is_pow2, pow};
use vstd::prelude::*;

verus! {

/// Number of bits behind the binary point.
pub const FRACTION_BITS: u32 = 32;

/// Raw representation of the value one.
pub const ONE: i64 = 0x1_0000_0000;

/// Largest raw value; the cost of an impossible event.
pub const INFINITE: i64 = 0x7fff_ffff_ffff_ffff;

/// Weight of the leading mantissa bit while a logarithm is extracted: `2^62`.
pub const MANTISSA_ONE: u64 = 0x4000_0000_0000_0000;

/// Nearest raw value to an unbounded integer.
pub open spec fn clamp(x: int) -> int {
    if x > i64::MAX {
        i64::MAX as int
    } else if x < i64::MIN {
        i64::MIN as int
    } else {
        x
    }
}

/// Sum of two numbers as the library forms it: infinite where an operand is,
/// and otherwise the exact sum held inside the range.
pub open spec fn spec_saturating_sum(a: i64, b: i64) -> i64 {
    if a == INFINITE || b == INFINITE {
        INFINITE
    } else {
        clamp(a + b) as i64
    }
}

/// Sum of two numbers. An infinite operand makes the sum infinite; otherwise
/// the sum is held at the nearest end of the range where it does not fit.
pub fn saturating_sum(a: i64, b: i64) -> (r: i64)
    ensures
        r == spec_saturating_sum(a, b),
{
    if a == INFINITE || b == INFINITE {
        return INFINITE;
    }
    match a.checked_add(b) {
        Some(s) => s,
        None => if a < 0 {
            i64::MIN
        } else {
            i64::MAX
        },
    }
}

/// A sum never falls when one of its operands grows.
pub proof fn lemma_saturating_sum_monotone(a: i64, b: i64, c: i64)
    requires
        a <= b,
    ensures
        spec_saturating_sum(a, c) <= spec_saturating_sum(b, c),
        spec_saturating_sum(c, a) <= spec_saturating_sum(c, b),
{
}

/// Position of the leading bit of `x`: `floor(log2(x))` for `x > 0`.
pub open spec fn floor_log2(x: nat) -> nat
    decreases x,
{
    if x <= 1 {
        0
    } else {
        1 + floor_log2(x / 2)
    }
}

/// Mantissa of `x`, scaled by `2^62`: `x` shifted until its leading bit has
/// weight `2^62`. Meant for `0 < x < 2^63`.
pub open spec fn mantissa(x: nat) -> nat {
    x * pow2((62 - floor_log2(x)) as nat)
}

/// Extends the binary expansion `acc` of a logarithm by `n` further digits.
///
/// `y` is the mantissa whose logarithm is still to be expanded, scaled by
/// `2^62`. Each digit comes from one squaring, rounded down to 62 fractional
/// bits: a square of two or more yields the digit one and is halved.
pub open spec fn log2_digits(y: nat, acc: nat, n: nat) -> nat
    decreases n,
{
    if n == 0 {
        acc
    } else {
        let z = (y * y) / (MANTISSA_ONE as nat);
        if z >= 2 * MANTISSA_ONE {
            log2_digits(z / 2, 2 * acc + 1, (n - 1) as nat)
        } else {
            log2_digits(z, 2 * acc, (n - 1) as nat)
        }
    }
}

/// Base-two logarithm of the integer `x`, in units of `2^-32`, rounded down.
pub open spec fn log2_fixed(x: nat) -> nat {
    log2_digits(mantissa(x), floor_log2(x), FRACTION_BITS as nat)
}

/// Cost of the probability with raw value `x`: `-log2(x / 2^32)` in raw
/// units, and infinite for zero. The logarithm is [`log2_fixed`], so the cost
/// errs towards the higher side, by less than two raw units.
pub open spec fn spec_neg_log2(x: i64) -> i64 {
    if x <= 0 {
        INFINITE
    } else {
        (32 * ONE - log2_fixed(x as nat)) as i64
    }
}

proof fn lemma_square_bounds(y: nat)
    by (nonlinear_arith)
    requires
        MANTISSA_ONE <= y < 2 * MANTISSA_ONE,
    ensures
        MANTISSA_ONE * MANTISSA_ONE <= y * y < 4 * MANTISSA_ONE * MANTISSA_ONE,
        MANTISSA_ONE <= (y * y) / (MANTISSA_ONE as nat) < 4 * MANTISSA_ONE,
{
}

/// The leading bit of `x` brackets it between two powers of two.
pub proof fn lemma_floor_log2_bounds(x: nat)
    requires
        x > 0,
    ensures
        pow2(floor_log2(x)) <= x < pow2(floor_log2(x) + 1),
    decreases x,
{
    lemma2_to64();
    if x > 1 {
        lemma_floor_log2_bounds(x / 2);
        lemma_pow2_unfold(floor_log2(x));
        lemma_pow2_unfold(floor_log2(x) + 1);
    }
}

/// Only one exponent brackets `x` between consecutive powers of two.
pub proof fn lemma_floor_log2_unique(x: nat, e: nat)
    requires
        pow2(e) <= x < pow2(e + 1),
    ensures
        e == floor_log2(x),
{
    lemma_pow2_pos(e);
    lemma_floor_log2_bounds(x);
    let f = floor_log2(x);
    if e < f {
        if e + 1 < f {
            lemma_pow2_strictly_increases(e + 1, f);
        }
    } else if f < e {
        if f + 1 < e {
            lemma_pow2_strictly_increases(f + 1, e);
        }
    }
}

proof fn lemma_pow2_at_most(i: nat, n: nat)
    requires
        i <= n,
    ensures
        pow2(i) <= pow2(n),
{
    if i < n {
        lemma_pow2_strictly_increases(i, n);
    }
}

/// Negated base-two logarithm of a non-negative number: the cost of a
/// probability. Zero costs [`INFINITE`].
///
/// With `e = 32 * 2^32 - r`, the logarithm of the raw value `x` in raw units,
/// the result satisfies `2^e <= x^(2^32) < (1 + 2^-12) * 2^(e + 1)`: `r` is
/// `-log2(x / 2^32) * 2^32` rounded up, or one more than that.
pub fn neg_log2(x: i64) -> (r: i64)
    requires
        x >= 0,
    ensures
        r == spec_neg_log2(x),
        x > 0 ==> {
            let e = 32 * ONE - r;
            &&& 0 <= e < 63 * ONE
            &&& pow2(e as nat) <= pow(x as int, pow2(32))
            &&& 4096 * pow(x as int, pow2(32)) < 4097 * pow2((e + 1) as nat)
        },
{
    if x == 0 {
        return INFINITE;
    }
    let mut y: u64 = x as u64;
    let mut acc: u64 = 62;
    proof {
        lemma2_to64();
        lemma2_to64_rest();
        assert(x * pow2(0) == x);
    }
    while y < MANTISSA_ONE
        invariant
            x > 0,
            0 < y < 2 * MANTISSA_ONE,
            acc <= 62,
            y == x * pow2((62 - acc) as nat),
            pow2(62) == MANTISSA_ONE,
        decreases acc,
    {
        proof {
            if acc == 0 {
                assert(x * pow2(62) >= pow2(62)) by (nonlinear_arith)
                    requires
                        x >= 1,
                ;
            }
            lemma_pow2_unfold((62 - acc + 1) as nat);
            assert(2 * (x * pow2((62 - acc) as nat)) == x * (2 * pow2((62 - acc) as nat)))
                by (nonlinear_arith);
        }
        y = 2 * y;
        acc = acc - 1;
    }
    proof {
        // y = x * 2^(62 - acc) lies in [2^62, 2^63), so acc is the leading bit of x.
        let s = (62 - acc) as nat;
        lemma_pow2_adds(acc as nat, s);
        lemma_pow2_adds((acc + 1) as nat, s);
        lemma_pow2_pos(s);
        lemma_pow2_unfold(63);
        assert(pow2(acc as nat) <= x < pow2((acc + 1) as nat)) by (nonlinear_arith)
            requires
                pow2(acc as nat) * pow2(s) <= x * pow2(s) < pow2((acc + 1) as nat) * pow2(s),
                pow2(s) > 0,
        ;
        lemma_floor_log2_unique(x as nat, acc as nat);
    }
    let mut i: u32 = 0;
    while i < FRACTION_BITS
        invariant
            x > 0,
            i <= FRACTION_BITS,
            MANTISSA_ONE <= y < 2 * MANTISSA_ONE,
            acc < 64 * pow2(i as nat),
            log2_digits(y as nat, acc as nat, (FRACTION_BITS - i) as nat) == log2_fixed(x as nat),
        decreases FRACTION_BITS - i,
    {
        proof {
            lemma_square_bounds(y as nat);
            lemma_pow2_unfold((i + 1) as nat);
            lemma_pow2_at_most(i as nat, 31);
            lemma2_to64();
        }
        let z: u128 = ((y as u128) * (y as u128)) / (MANTISSA_ONE as u128);
        if z >= 2 * (MANTISSA_ONE as u128) {
            y = (z / 2) as u64;
            acc = 2 * acc + 1;
        } else {
            y = z as u64;
            acc = 2 * acc;
        }
        i = i + 1;
    }
    proof {
        lemma2_to64();
        lemma_log2_fixed_range(x as nat);
        lemma_log2_fixed_brackets(x as nat);
    }
    (32 * ONE - (acc as i64))
}

/// Bound on the error, in units of `2^-62`, that 32 rounded squarings can
/// leave in a mantissa, plus one: `3^32`.
pub open spec fn error_budget() -> int {
    1853020188851841
}

proof fn lemma_mul_le(a: int, b: int, c: int)
    by (nonlinear_arith)
    requires
        a <= b,
        0 <= c,
    ensures
        a * c <= b * c,
{
}

proof fn lemma_square_le(a: int, b: int)
    by (nonlinear_arith)
    requires
        0 <= a <= b,
    ensures
        a * a <= b * b,
{
}

proof fn lemma_cancel_le(a: int, b: int, c: int)
    by (nonlinear_arith)
    requires
        a * c <= b * c,
        0 < c,
    ensures
        a <= b,
{
}

/// One squaring, rounded down, of a mantissa `y` known up to an error `a`:
/// `f` is the weight of the digit it yields and `y1` the next mantissa, which
/// is then known up to `3 * a + 2`.
proof fn lemma_digit_step(y: int, a: int, f: int, y1: int)
    requires
        MANTISSA_ONE <= y < 2 * MANTISSA_ONE,
        0 <= a < error_budget(),
        ({
            let z = (y * y) / (MANTISSA_ONE as int);
            if z >= 2 * MANTISSA_ONE {
                f == 2 && y1 == z / 2
            } else {
                f == 1 && y1 == z
            }
        }),
    ensures
        MANTISSA_ONE <= y1 < 2 * MANTISSA_ONE,
        (y1 * f) * MANTISSA_ONE <= y * y,
        (y + a) * (y + a) <= ((y1 + 3 * a + 2) * f) * MANTISSA_ONE,
{
    let m = MANTISSA_ONE as int;
    let p = y * y;
    let z = p / m;
    lemma_square_bounds(y as nat);
    assert((y + a) * (y + a) == p + 2 * (y * a) + a * a) by (nonlinear_arith)
        requires
            p == y * y,
    ;
    assert(a * a <= error_budget() * a) by (nonlinear_arith)
        requires
            0 <= a < error_budget(),
    ;
    if z >= 2 * m {
        assert(y * a <= 2 * m * a) by (nonlinear_arith)
            requires
                y < 2 * m,
                0 <= a,
        ;
    } else {
        assert(p < 2 * m * m);
        assert(20 * y <= 29 * m) by (nonlinear_arith)
            requires
                y * y < 2 * m * m,
                0 < m,
                0 <= y,
        ;
        assert(20 * (y * a) <= 29 * m * a) by (nonlinear_arith)
            requires
                20 * y <= 29 * m,
                0 <= a,
        ;
    }
}

/// The digits that `log2_digits` appends keep the expansion within the
/// logarithm it stands for. `big` is the number whose logarithm `acc` expands
/// so far and `y` its mantissa, exact up to an error `a`.
proof fn lemma_digits_bracket(y: nat, acc: nat, n: nat, big: nat, a: nat)
    requires
        MANTISSA_ONE <= y < 2 * MANTISSA_ONE,
        (a + 1) * pow(3, n) <= error_budget(),
        y * pow2(acc) <= big * MANTISSA_ONE,
        big * MANTISSA_ONE <= (y + a) * pow2(acc),
    ensures
        pow2(log2_digits(y, acc, n)) <= pow(big as int, pow2(n)),
        2048 * pow(big as int, pow2(n)) < 4097 * pow2(log2_digits(y, acc, n)),
    decreases n,
{
    let m = MANTISSA_ONE as int;
    let scale = pow2(acc) as int;
    let yi = y as int;
    let ai = a as int;
    let bg = big as int;
    lemma_pow2_pos(acc);
    if n == 0 {
        lemma2_to64();
        lemma_pow1(bg);
        assert(pow(3, 0) == 1) by {
            reveal(pow);
        }
        assert((ai + 1) * 1 == ai + 1);
        // 2^acc <= big
        lemma_mul_le(m, yi, scale);
        assert(scale * m == m * scale) by (nonlinear_arith);
        lemma_cancel_le(scale, bg, m);
        // big * m <= (y + a) * 2^acc < (2m + m / 2048) * 2^acc
        lemma_mul_le(2048 * (yi + ai), 4097 * m - 1, scale);
        assert(2048 * (bg * m) <= (2048 * (yi + ai)) * scale) by (nonlinear_arith)
            requires
                bg * m <= (yi + ai) * scale,
        ;
        assert((4097 * m - 1) * scale < (4097 * scale) * m) by (nonlinear_arith)
            requires
                scale > 0,
        ;
        assert(2048 * (bg * m) == (2048 * bg) * m) by (nonlinear_arith);
        assert((2048 * bg) * m < (4097 * scale) * m);
        assert(2048 * bg < 4097 * scale) by (nonlinear_arith)
            requires
                (2048 * bg) * m < (4097 * scale) * m,
                0 < m,
        ;
    } else {
        let z = (y * y) / (MANTISSA_ONE as nat);
        let f: int = if z >= 2 * MANTISSA_ONE {
            2
        } else {
            1
        };
        let y1: nat = if z >= 2 * MANTISSA_ONE {
            z / 2
        } else {
            z
        };
        let acc1: nat = if z >= 2 * MANTISSA_ONE {
            2 * acc + 1
        } else {
            2 * acc
        };
        let a1: nat = 3 * a + 2;
        let rest = (n - 1) as nat;
        let y1i = y1 as int;
        let a1i = a1 as int;
        assert(pow(3, n) == 3 * pow(3, rest)) by {
            reveal(pow);
        }
        assert(pow(3, rest) >= 1) by {
            vstd::arithmetic::power::lemma_pow_positive(3, rest);
        }
        assert((a1i + 1) * pow(3, rest) == (ai + 1) * pow(3, n)) by (nonlinear_arith)
            requires
                a1i == 3 * ai + 2,
                pow(3, n) == 3 * pow(3, rest),
        ;
        assert(ai + 1 <= (ai + 1) * pow(3, n)) by (nonlinear_arith)
            requires
                pow(3, n) >= 1,
                ai >= 0,
        ;
        lemma_digit_step(yi, ai, f, y1i);

        // the scale of the next mantissa: 2^acc1 = 2^acc * 2^acc * f
        let scale1 = pow2(acc1) as int;
        lemma_pow2_adds(acc, acc);
        lemma_pow2_unfold(2 * acc + 1);
        assert(scale1 == (scale * scale) * f);
        let sq = bg * bg;
        assert(sq >= 0) by (nonlinear_arith)
            requires
                sq == bg * bg,
        ;

        // lower bound: y1 * scale1 <= big^2 * m
        assert(0 <= yi * scale) by (nonlinear_arith)
            requires
                0 <= yi,
                0 <= scale,
        ;
        lemma_square_le(yi * scale, bg * m);
        assert(0 <= scale * scale) by (nonlinear_arith);
        lemma_mul_le((y1i * f) * m, yi * yi, scale * scale);
        assert(((y1i * f) * m) * (scale * scale) == (y1i * scale1) * m) by (nonlinear_arith)
            requires
                scale1 == (scale * scale) * f,
        ;
        assert((yi * yi) * (scale * scale) == (yi * scale) * (yi * scale))
            by (nonlinear_arith);
        assert((bg * m) * (bg * m) == (sq * m) * m) by (nonlinear_arith)
            requires
                sq == bg * bg,
        ;
        lemma_cancel_le(y1i * scale1, sq * m, m);

        // upper bound: big^2 * m <= (y1 + a1) * scale1
        assert(0 <= bg * m) by (nonlinear_arith)
            requires
                0 <= bg,
                0 <= m,
        ;
        lemma_square_le(bg * m, (yi + ai) * scale);
        lemma_mul_le((yi + ai) * (yi + ai), ((y1i + a1i) * f) * m, scale * scale);
        assert(((yi + ai) * scale) * ((yi + ai) * scale) == ((yi + ai) * (yi + ai)) * (scale
            * scale)) by (nonlinear_arith);
        assert((((y1i + a1i) * f) * m) * (scale * scale) == ((y1i + a1i) * scale1) * m)
            by (nonlinear_arith)
            requires
                scale1 == (scale * scale) * f,
        ;
        lemma_cancel_le(sq * m, (y1i + a1i) * scale1, m);

        lemma_digits_bracket(y1, acc1, rest, sq as nat, a1);

        // (big^2)^(2^(n-1)) = big^(2^n)
        lemma_square_is_pow2(bg);
        lemma_pow_multiplies(bg, 2, pow2(rest));
        lemma_pow2_unfold(n);
    }
}

proof fn lemma_error_budget()
    ensures
        pow(3, 32) == error_budget(),
{
    lemma_square_is_pow2(3);
    lemma_square_is_pow2(9);
    lemma_square_is_pow2(81);
    lemma_square_is_pow2(6561);
    lemma_square_is_pow2(43046721);
    lemma_pow_multiplies(3, 2, 2);
    lemma_pow_multiplies(3, 4, 2);
    lemma_pow_multiplies(3, 8, 2);
    lemma_pow_multiplies(3, 16, 2);
    assert(pow(3, 2) == 9);
    assert(pow(3, 4) == 81);
    assert(pow(3, 8) == 6561);
    assert(pow(3, 16) == 43046721);
}

/// The mantissa of `x` lies in `[2^62, 2^63)` and is `x` scaled by a power
/// of two.
proof fn lemma_mantissa(x: nat)
    requires
        0 < x <= i64::MAX,
    ensures
        floor_log2(x) <= 62,
        MANTISSA_ONE <= mantissa(x) < 2 * MANTISSA_ONE,
        mantissa(x) * pow2(floor_log2(x)) == x * MANTISSA_ONE,
{
    let e = floor_log2(x);
    lemma_floor_log2_bounds(x);
    lemma2_to64();
    lemma2_to64_rest();
    if e > 62 {
        lemma_pow2_at_most(63, e);
    }
    let s = (62 - e) as nat;
    let xi = x as int;
    let ps = pow2(s) as int;
    let pe = pow2(e) as int;
    lemma_pow2_adds(e, s);
    lemma_pow2_adds(e + 1, s);
    lemma_pow2_unfold(63);
    lemma_pow2_pos(s);
    lemma_mul_le(pe, xi, ps);
    lemma_mul_le(xi + 1, pow2(e + 1) as int, ps);
    assert((xi + 1) * ps == xi * ps + ps) by (nonlinear_arith);
    assert((xi * ps) * pe == xi * (pe * ps)) by (nonlinear_arith);
}

/// What `log2_fixed` says of the logarithm: with `e = log2_fixed(x)`,
///
/// `2^e <= x^(2^32) < (1 + 2^-12) * 2^(e + 1)`.
///
/// So `e` is `2^32 * log2(x)` rounded down, or one less than that where the
/// fraction lost is below `0.0004`.
pub proof fn lemma_log2_fixed_brackets(x: nat)
    requires
        0 < x <= i64::MAX,
    ensures
        pow2(log2_fixed(x)) <= pow(x as int, pow2(32)),
        4096 * pow(x as int, pow2(32)) < 4097 * pow2(log2_fixed(x) + 1),
{
    lemma_mantissa(x);
    lemma_error_budget();
    assert((0 + 1) * pow(3, 32) == pow(3, 32));
    lemma_digits_bracket(mantissa(x), floor_log2(x), 32, x, 0);
    lemma_pow2_unfold(log2_fixed(x) + 1);
}

/// `n` further digits leave the expansion between `acc * 2^n` and the next
/// multiple of `2^n`.
proof fn lemma_digits_range(y: nat, acc: nat, n: nat)
    ensures
        acc * pow2(n) <= log2_digits(y, acc, n) < (acc + 1) * pow2(n),
    decreases n,
{
    if n == 0 {
        lemma2_to64();
        assert(acc * 1 == acc);
        assert((acc + 1) * 1 == acc + 1);
    } else {
        let z = (y * y) / (MANTISSA_ONE as nat);
        let rest = (n - 1) as nat;
        let half = pow2(rest) as int;
        lemma_pow2_unfold(n);
        assert(acc * (2 * half) == (2 * acc) * half) by (nonlinear_arith);
        assert((acc + 1) * (2 * half) == (2 * acc + 1 + 1) * half) by (nonlinear_arith);
        assert((2 * acc + 1) * half == (2 * acc) * half + half) by (nonlinear_arith);
        assert((2 * acc + 1 + 1) * half == (2 * acc + 1) * half + half) by (nonlinear_arith);
        if z >= 2 * MANTISSA_ONE {
            lemma_digits_range(z / 2, 2 * acc + 1, rest);
        } else {
            lemma_digits_range(z, 2 * acc, rest);
        }
    }
}

/// A larger mantissa never expands to a smaller logarithm.
proof fn lemma_digits_monotone(y1: nat, y2: nat, acc: nat, n: nat)
    requires
        y1 <= y2,
    ensures
        log2_digits(y1, acc, n) <= log2_digits(y2, acc, n),
    decreases n,
{
    if n > 0 {
        let m = MANTISSA_ONE as nat;
        let z1 = (y1 * y1) / m;
        let z2 = (y2 * y2) / m;
        let rest = (n - 1) as nat;
        lemma_square_le(y1 as int, y2 as int);
        vstd::arithmetic::div_mod::lemma_div_is_ordered(
            (y1 * y1) as int,
            (y2 * y2) as int,
            m as int,
        );
        if z1 >= 2 * m {
            lemma_digits_monotone(z1 / 2, z2 / 2, 2 * acc + 1, rest);
        } else if z2 >= 2 * m {
            lemma_digits_range(z1, 2 * acc, rest);
            lemma_digits_range(z2 / 2, 2 * acc + 1, rest);
        } else {
            lemma_digits_monotone(z1, z2, 2 * acc, rest);
        }
    }
}

/// The logarithm never falls as the number grows.
pub proof fn lemma_log2_fixed_monotone(x: nat, y: nat)
    requires
        0 < x <= y <= i64::MAX,
    ensures
        log2_fixed(x) <= log2_fixed(y),
{
    let ex = floor_log2(x);
    let ey = floor_log2(y);
    lemma_floor_log2_bounds(x);
    lemma_floor_log2_bounds(y);
    lemma_mantissa(x);
    lemma_mantissa(y);
    if ex > ey {
        lemma_pow2_at_most(ey + 1, ex);
    }
    if ex == ey {
        lemma_mul_le(x as int, y as int, pow2((62 - ex) as nat) as int);
        lemma_digits_monotone(mantissa(x), mantissa(y), ex, 32);
    } else {
        lemma_digits_range(mantissa(x), ex, 32);
        lemma_digits_range(mantissa(y), ey, 32);
        lemma_mul_le(ex as int + 1, ey as int, pow2(32) as int);
    }
}

/// The logarithm of every number in range fits well inside the range.
pub proof fn lemma_log2_fixed_range(x: nat)
    requires
        0 < x <= i64::MAX,
    ensures
        log2_fixed(x) < 63 * ONE,
{
    lemma_mantissa(x);
    lemma_digits_range(mantissa(x), floor_log2(x), 32);
    lemma2_to64();
    lemma_mul_le(floor_log2(x) as int + 1, 63, pow2(32) as int);
}

/// A more probable event never costs more: the cost falls, or stays, as the
/// probability grows.
pub proof fn lemma_neg_log2_monotone(x: i64, y: i64)
    requires
        0 <= x <= y,
    ensures
        spec_neg_log2(x) >= spec_neg_log2(y),
{
    if y > 0 {
        lemma_log2_fixed_range(y as nat);
    }
    if x > 0 {
        lemma_log2_fixed_range(x as nat);
        lemma_log2_fixed_monotone(x as nat, y as nat);
    }
}

proof fn lemma_digits_of_one(acc: nat, n: nat)
    ensures
        log2_digits(MANTISSA_ONE as nat, acc, n) == acc * pow2(n),
    decreases n,
{
    if n == 0 {
        lemma2_to64();
        assert(acc * 1 == acc);
    } else {
        let rest = (n - 1) as nat;
        assert((MANTISSA_ONE * MANTISSA_ONE) / (MANTISSA_ONE as int) == MANTISSA_ONE) by {
            vstd::arithmetic::div_mod::lemma_div_multiples_vanish(
                MANTISSA_ONE as int,
                MANTISSA_ONE as int,
            );
        }
        lemma_digits_of_one(2 * acc, rest);
        lemma_pow2_unfold(n);
        assert((2 * acc) * pow2(rest) == acc * (2 * pow2(rest))) by (nonlinear_arith);
    }
}

/// Powers of two have exact costs: `2^k` raw units, the probability
/// `2^(k - 32)`, cost `32 - k` bits. So certainty costs nothing, and each
/// halving of the probability costs one bit more.
pub proof fn lemma_neg_log2_of_power_of_two(x: i64, k: nat)
    requires
        k <= 62,
        x == pow2(k),
    ensures
        spec_neg_log2(x) == (32 - k) * ONE,
{
    lemma_pow2_pos(k);
    lemma_pow2_unfold(k + 1);
    lemma_floor_log2_unique(x as nat, k);
    lemma_pow2_adds(k, (62 - k) as nat);
    lemma2_to64();
    lemma2_to64_rest();
    lemma_digits_of_one(k, 32);
    assert(k * pow2(32) <= 62 * pow2(32)) by (nonlinear_arith)
        requires
            k <= 62,
    ;
}

} // verus!
