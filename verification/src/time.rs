//! One rational conversion, used by everything that has a clock.
//!
//! A file's times are counted in ticks of a timescale it declares (§8.4.2
//! for a track, §8.2.2 for the movie), and every number a caller wants out
//! of them, be it a millisecond for a log line or a microsecond for a wire
//! field, is the same multiply and divide. Doing it twice in two places is
//! how two readers of the same file come to disagree by a tick, so it is
//! done here.
//!
//! **The arithmetic.** In `i128`, so a 64-bit tick count times a timescale
//! cannot wrap; rounded to nearest with halves going away from zero, so a
//! negative time rounds the mirror image of a positive one; clamped into
//! `i64` at the ends rather than wrapping.

use vstd::prelude::*;

verus! {

/// `n / d` rounded to the nearest whole number, halves going away from
/// zero.
pub open spec fn nearest(n: int, d: int) -> int
    recommends
        d > 0,
{
    if n >= 0 {
        (n + d / 2) / d
    } else {
        -((-n + d / 2) / d)
    }
}

/// A number held to the range of an `i64`.
pub open spec fn clamp64(v: int) -> i64 {
    if v < i64::MIN {
        i64::MIN
    } else if v > i64::MAX {
        i64::MAX
    } else {
        v as i64
    }
}

/// Two tick counts added, held at the ends of what 64 bits can say.
pub fn plus(a: i64, b: i64) -> (sum: i64)
    ensures
        sum == clamp64(a + b),
{
    let sum: i128 = a as i128 + b as i128;
    if sum < i64::MIN as i128 {
        i64::MIN
    } else if sum > i64::MAX as i128 {
        i64::MAX
    } else {
        sum as i64
    }
}

/// One tick count less another, held the same way.
pub fn minus(a: i64, b: i64) -> (difference: i64)
    ensures
        difference == clamp64(a - b),
{
    let difference: i128 = a as i128 - b as i128;
    if difference < i64::MIN as i128 {
        i64::MIN
    } else if difference > i64::MAX as i128 {
        i64::MAX
    } else {
        difference as i64
    }
}

/// The divisor a timescale stands for: itself, or one where it is zero.
pub open spec fn divisor(timescale: u64) -> int {
    if timescale == 0 {
        1
    } else {
        timescale as int
    }
}

pub open spec fn rescale_spec(value: i64, from: u64, to: u64) -> i64 {
    clamp64(nearest(value * to, divisor(from)))
}

pub open spec fn ms_spec(ticks: i64, timescale: u32) -> i64 {
    rescale(ticks, timescale as u64, 1000)
}

pub open spec fn ticks_to_micros_spec(ticks: i64, time_base_num: i32, time_base_den: i32) -> u64 {
    if ticks <= 0 || time_base_num <= 0 || time_base_den <= 0 {
        0
    } else {
        rescale(ticks, time_base_den as u64, (time_base_num * 1_000_000) as u64) as u64
    }
}

/// `value` counted in `from` ticks a second, counted in `to` ticks a second
/// instead.
///
/// A `from` of zero is treated as one: a file that declares a timescale of
/// zero has said nothing, and refusing to divide is better than dividing by
/// it.
#[verifier::when_used_as_spec(rescale_spec)]
pub fn rescale(value: i64, from: u64, to: u64) -> (out: i64)
    ensures
        out == rescale_spec(value, from, to),
{
    let from: i128 = if from == 0 {
        1
    } else {
        from as i128
    };
    let to: i128 = to as i128;
    proof {
        lemma_product_fits(value as int, to as int);
    }
    let scaled: i128 = value as i128 * to;
    if scaled >= 0 {
        let rounded: i128 = (scaled + from / 2) / from;
        proof {
            vstd::arithmetic::div_mod::lemma_div_pos_is_pos(scaled + from / 2, from as int);
        }
        if rounded > i64::MAX as i128 {
            i64::MAX
        } else {
            rounded as i64
        }
    } else {
        let rounded: i128 = (-scaled + from / 2) / from;
        proof {
            vstd::arithmetic::div_mod::lemma_div_pos_is_pos(-scaled + from / 2, from as int);
            lemma_div_shrinks(-scaled + from / 2, from as int);
        }
        if -rounded < i64::MIN as i128 {
            i64::MIN
        } else {
            (-rounded) as i64
        }
    }
}

/// A tick count of a track's own timescale, as milliseconds: the number
/// ffprobe prints as `pts_time`, times a thousand.
#[verifier::when_used_as_spec(ms_spec)]
pub fn ms(ticks: i64, timescale: u32) -> (out: i64)
    ensures
        out == ms_spec(ticks, timescale),
{
    rescale(ticks, timescale as u64, 1000)
}

/// A tick count of a `num/den` time base, as the microseconds a wire field
/// counts, clamped at zero on the way into an unsigned one.
///
/// This is [`rescale`] with the numerator folded into the target: a tick is
/// `num/den` seconds, so it is `num * 1_000_000 / den` microseconds.
#[verifier::when_used_as_spec(ticks_to_micros_spec)]
pub fn ticks_to_micros(ticks: i64, time_base_num: i32, time_base_den: i32) -> (out: u64)
    ensures
        out == ticks_to_micros_spec(ticks, time_base_num, time_base_den),
{
    if ticks <= 0 || time_base_num <= 0 || time_base_den <= 0 {
        return 0;
    }
    let to: u64 = time_base_num as u64 * 1_000_000;
    let scaled: i64 = rescale(ticks, time_base_den as u64, to);
    proof {
        law_rescale_keeps_sign(ticks, time_base_den as u64, to);
    }
    scaled as u64
}

proof fn lemma_product_fits(value: int, to: int)
    by (nonlinear_arith)
    requires
        i64::MIN <= value <= i64::MAX,
        0 <= to <= u64::MAX,
    ensures
        -0x7fff_ffff_ffff_ffff_8000_0000_0000_0000 <= value * to
            <= 0x7fff_ffff_ffff_ffff_8000_0000_0000_0000,
{
}

proof fn lemma_div_shrinks(n: int, d: int)
    by (nonlinear_arith)
    requires
        n >= 0,
        d >= 1,
    ensures
        0 <= n / d <= n,
{
}

proof fn lemma_nearest_bounds(n: int, d: int)
    requires
        d > 0,
    ensures
        n >= 0 ==> nearest(n, d) >= 0,
        n <= 0 ==> nearest(n, d) <= 0,
        n >= 0 ==> 2 * n - d < 2 * (nearest(n, d) * d) <= 2 * n + d,
        n <= 0 ==> 2 * n - d <= 2 * (nearest(n, d) * d) < 2 * n + d,
{
    let m = if n >= 0 {
        n
    } else {
        -n
    };
    let q = (m + d / 2) / d;
    vstd::arithmetic::div_mod::lemma_fundamental_div_mod(m + d / 2, d);
    vstd::arithmetic::div_mod::lemma_div_pos_is_pos(m + d / 2, d);
    assert(d * q == q * d) by (nonlinear_arith);
    assert((-q) * d == -(q * d)) by (nonlinear_arith);
    assert(d / 2 * 2 <= d < d / 2 * 2 + 2);
    if n == 0 {
        vstd::arithmetic::div_mod::lemma_basic_div(d / 2, d);
    }
}

/// The result is the nearest whole number to the exact quotient, and where
/// two are as near it is the one farther from zero.
pub proof fn law_nearest_is_nearest(n: int, d: int)
    requires
        d > 0,
    ensures
        -d <= 2 * (nearest(n, d) * d - n) <= d,
        n > 0 ==> 2 * (nearest(n, d) * d - n) != -d,
        n < 0 ==> 2 * (nearest(n, d) * d - n) != d,
{
    lemma_nearest_bounds(n, d);
}

/// A negative time is the mirror image of a positive one, short of the one
/// value whose mirror image an `i64` cannot hold.
pub proof fn law_rescale_mirrors(value: i64, from: u64, to: u64)
    requires
        value > i64::MIN,
        rescale(value, from, to) > i64::MIN,
        rescale((-value) as i64, from, to) > i64::MIN,
    ensures
        rescale((-value) as i64, from, to) == -rescale(value, from, to),
{
    assert((-value) * to == -(value * to)) by (nonlinear_arith);
    lemma_nearest_bounds(value * to, divisor(from));
}

/// Rescaling never turns a time before zero into one after it, or back.
pub proof fn law_rescale_keeps_sign(value: i64, from: u64, to: u64)
    ensures
        value >= 0 ==> rescale(value, from, to) >= 0,
        value <= 0 ==> rescale(value, from, to) <= 0,
{
    let product = value * to;
    assert(value >= 0 ==> product >= 0) by (nonlinear_arith)
        requires
            product == value * to,
            to >= 0,
    ;
    assert(value <= 0 ==> product <= 0) by (nonlinear_arith)
        requires
            product == value * to,
            to >= 0,
    ;
    lemma_nearest_bounds(product, divisor(from));
}

/// Rescaling keeps the order of two times.
pub proof fn law_rescale_keeps_order(one: i64, other: i64, from: u64, to: u64)
    requires
        one <= other,
    ensures
        rescale(one, from, to) <= rescale(other, from, to),
{
    let d = divisor(from);
    let a = one * to;
    let b = other * to;
    assert(a <= b) by (nonlinear_arith)
        requires
            a == one * to,
            b == other * to,
            one <= other,
            to >= 0,
    ;
    let p = nearest(a, d);
    let q = nearest(b, d);
    lemma_nearest_bounds(a, d);
    lemma_nearest_bounds(b, d);
    if a < 0 && b >= 0 {
    } else if a >= 0 {
        vstd::arithmetic::div_mod::lemma_div_is_ordered(a + d / 2, b + d / 2, d);
    } else {
        vstd::arithmetic::div_mod::lemma_div_is_ordered(-b + d / 2, -a + d / 2, d);
    }
}

/// A time rescaled to the timescale it is already in is itself.
pub proof fn law_rescale_to_itself(value: i64, scale: u64)
    requires
        scale > 0,
    ensures
        rescale(value, scale, scale) == value,
{
    let d = scale as int;
    let n = value * d;
    lemma_nearest_bounds(n, d);
    let r = nearest(n, d);
    assert(n >= 0 <==> value >= 0) by (nonlinear_arith)
        requires
            n == value * d,
            d > 0,
    ;
    assert(r == value) by (nonlinear_arith)
        requires
            d > 0,
            n == value * d,
            n >= 0 ==> 2 * n - d < 2 * (r * d) <= 2 * n + d,
            n <= 0 ==> 2 * n - d <= 2 * (r * d) < 2 * n + d,
    ;
}

/// A time in one timescale is the same time in another, to the nearest tick:
/// the two sides of the proportion are no more than half a tick apart.
///
/// Left out are times that an `i64` cannot count in the second timescale.
pub proof fn law_rescale_is_to_the_nearest(value: i64, from: u64, to: u64)
    requires
        from > 0,
        -(i64::MAX * from) <= value * to <= i64::MAX * from,
    ensures
        -(from as int) <= 2 * (rescale(value, from, to) * from - value * to) <= from,
        value * to > 0 ==> -(from as int) < 2 * (rescale(value, from, to) * from - value * to),
        value * to < 0 ==> 2 * (rescale(value, from, to) * from - value * to) < from,
{
    let n = value * to;
    let d = from as int;
    let q = nearest(n, d);
    law_nearest_is_nearest(n, d);
    assert(-(i64::MAX as int) <= q <= i64::MAX) by (nonlinear_arith)
        requires
            d > 0,
            -d <= 2 * (q * d - n) <= d,
            -(i64::MAX * d) <= n <= i64::MAX * d,
    ;
}

/// A time that does not fit is held at the end it is past.
pub proof fn law_rescale_holds_at_the_ends(value: i64, from: u64, to: u64)
    requires
        from > 0,
    ensures
        value * to >= i64::MAX * from ==> rescale(value, from, to) == i64::MAX,
        value * to <= i64::MIN * from ==> rescale(value, from, to) == i64::MIN,
{
    let n = value * to;
    let d = from as int;
    let q = nearest(n, d);
    law_nearest_is_nearest(n, d);
    assert(n >= i64::MAX * d ==> q >= i64::MAX) by (nonlinear_arith)
        requires
            d > 0,
            -d <= 2 * (q * d - n) <= d,
            n > 0 ==> 2 * (q * d - n) != -d,
    ;
    assert(n <= i64::MIN * d ==> q <= i64::MIN) by (nonlinear_arith)
        requires
            d > 0,
            -d <= 2 * (q * d - n) <= d,
            n < 0 ==> 2 * (q * d - n) != d,
    ;
}

/// A timescale of zero counts as one tick a second.
pub proof fn law_a_timescale_of_zero_is_one(value: i64, to: u64)
    ensures
        rescale(value, 0, to) == rescale(value, 1, to),
{
}

/// Milliseconds are thousandths of a second, to the nearest: a second of ticks
/// is a thousand of them.
pub proof fn law_milliseconds(ticks: i64, timescale: u32)
    requires
        timescale > 0,
        -(i64::MAX * timescale) <= ticks * 1000 <= i64::MAX * timescale,
    ensures
        -(timescale as int) <= 2 * (ms(ticks, timescale) * timescale - ticks * 1000) <= timescale,
{
    law_rescale_is_to_the_nearest(ticks, timescale as u64, 1000);
}

/// Microseconds are millionths of a second, to the nearest, for a tick of
/// `num/den` of one; a time that is not after zero, or a time base that is
/// not, gives none.
pub proof fn law_microseconds(ticks: i64, num: i32, den: i32)
    requires
        ticks * (num * 1_000_000) <= i64::MAX * den,
    ensures
        ticks > 0 && num > 0 && den > 0 ==> -(den as int) <= 2 * (ticks_to_micros(ticks, num, den)
            * den - ticks * (num * 1_000_000)) <= den,
        ticks <= 0 || num <= 0 || den <= 0 ==> ticks_to_micros(ticks, num, den) == 0,
{
    if ticks > 0 && num > 0 && den > 0 {
        let to = (num * 1_000_000) as u64;
        assert(ticks * to >= 0) by (nonlinear_arith)
            requires
                ticks > 0,
                to >= 0,
        ;
        law_rescale_is_to_the_nearest(ticks, den as u64, to);
        law_rescale_keeps_sign(ticks, den as u64, to);
    }
}

} // verus!
