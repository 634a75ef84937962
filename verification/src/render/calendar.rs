//! The calendar undoes itself: a civil time made a Julian day and back is the
//! same time.
use crate::binary64;
use crate::binary64::Binary64;
use crate::exact;
use crate::exact::{step, steps};
use crate::number;
use crate::render::sun::{JulianDate, UtcDateTime};
use crate::rounding::Format;
use vstd::arithmetic::power2::*;
use vstd::prelude::*;

verus! {

/// A year with a twenty-ninth of February.
pub open spec fn leap(year: int) -> bool {
    year % 4 == 0 && (year % 100 != 0 || year % 400 == 0)
}

/// How many days a month has.
pub open spec fn days_in_month(year: int, month: int) -> int {
    if month == 2 {
        if leap(year) {
            29
        } else {
            28
        }
    } else if month == 4 || month == 6 || month == 9 || month == 11 {
        30
    } else {
        31
    }
}

/// A date of the calendar, in years whose milliseconds a double still counts.
pub open spec fn is_date(year: int, month: int, day: int) -> bool {
    &&& -4712 <= year <= 100_000
    &&& 1 <= month <= 12
    &&& 1 <= day <= days_in_month(year, month)
}

/// The year that began in March.
spec fn march_year(year: int, month: int) -> int {
    if month <= 2 {
        year - 1
    } else {
        year
    }
}

/// The month, January and February counted after December, and one more.
spec fn march_month(month: int) -> int {
    if month <= 2 {
        month + 13
    } else {
        month + 1
    }
}

/// Days before the year, in a calendar that leaps every fourth.
spec fn days_before_year(year: int) -> int {
    (1461 * (year + 4716)) / 4
}

/// Days before the month.
spec fn days_before_month(count: int) -> int {
    (306001 * count) / 10000
}

/// The days that centuries put right.
spec fn correction(century: int) -> int {
    2 - century + century / 4
}

/// The number of the day that begins at a civil midnight.
spec fn day_number(year: int, month: int, day: int) -> int {
    days_before_year(march_year(year, month)) + days_before_month(march_month(month)) - 1524 + day
        + correction(march_year(year, month) / 100)
}

/// The days before each month.
proof fn lemma_months(count: int)
    requires
        4 <= count <= 15,
    ensures
        days_before_month(count) == if count == 4 {
            122int
        } else if count == 5 {
            153
        } else if count == 6 {
            183
        } else if count == 7 {
            214
        } else if count == 8 {
            244
        } else if count == 9 {
            275
        } else if count == 10 {
            306
        } else if count == 11 {
            336
        } else if count == 12 {
            367
        } else if count == 13 {
            397
        } else if count == 14 {
            428
        } else {
            459
        },
{
}

/// Where the day lies within its year and its month.
proof fn lemma_day_of_year(year: int, month: int, day: int)
    requires
        is_date(year, month, day),
    ensures
        4 <= march_month(month) <= 15,
        123 <= days_before_month(march_month(month)) + day <= 487 + if leap(
            march_year(year, month) + 1,
        ) {
            1int
        } else {
            0
        },
        day <= 31,
        march_month(month) < 15 ==> days_before_month(march_month(month)) + day
            <= days_before_month(march_month(month) + 1),
{
    lemma_months(march_month(month));
    if march_month(month) < 15 {
        lemma_months(march_month(month) + 1);
    }
}

/// The century comes back from the number of the day.
proof fn lemma_century(year: int, g: int)
    requires
        -4713 <= year <= 100_000,
        123 <= g <= 487 + if leap(year + 1) {
            1int
        } else {
            0
        },
    ensures
        ({
            let a = year / 100;
            let z = days_before_year(year) + g - 1524 + correction(a);
            &&& (a - 4) * 146097 <= 4 * z - 7468865
            &&& 4 * z - 7468865 <= (a - 3) * 146097 - 1
        }),
{
    let a = year / 100;
    let r = year % 100;
    let q = a / 4;
    let s = a % 4;
    assert(year == 100 * a + r && 0 <= r < 100 && a == 4 * q + s && 0 <= s < 4);
    let f = days_before_year(year);
    assert(f == 36525 * a + (1461 * r) / 4 + 1722519);
    let z = f + g - 1524 + correction(a);
    assert(4 * z - 7468865 - (a - 4) * 146097 == 4 * ((1461 * r) / 4) + 4 * g - 489 - s);
    if r == 99 {
        assert((year + 1) % 100 == 0 && (year + 1) / 100 == a + 1);
        assert(leap(year + 1) ==> s == 3) by {
            assert(year + 1 == 400 * q + 100 * (s + 1));
            if leap(year + 1) {
                assert((year + 1) % 400 == 0);
                assert(s == 3);
            }
        }
    } else {
        assert(r <= 98);
    }
}

/// The year comes back from the days counted.
proof fn lemma_year(year: int, g: int)
    requires
        -4713 <= year <= 100_000,
        123 <= g <= 487 + if leap(year + 1) {
            1int
        } else {
            0
        },
    ensures
        ({
            let b = days_before_year(year) + g;
            let n = year + 4716;
            7305 * n + 3 <= 20 * b - 2442 <= 7305 * (n + 1) - 2
        }),
{
    let n = year + 4716;
    let q = n / 4;
    let s = n % 4;
    assert(n == 4 * q + s && 0 <= s < 4);
    assert(days_before_year(year) == 1461 * q + (1461 * s) / 4);
    if leap(year + 1) {
        assert((n + 1) % 4 == 0);
        assert(s == 3);
    }
}

/// A ratio lies between steps that its value lies between.
proof fn lemma_ratio_within(n: u64, d: u64, low: int, j: nat)
    requires
        0 < n,
        0 < d,
        0 <= low < 0x10000000000000,
        j <= 40,
        low * d <= n * pow2(j) <= (low + 1) * d,
    ensures
        Binary64::ratio(n, d).is_finite(),
        low * step(j) <= Binary64::ratio(n, d).value() <= (low + 1) * step(j),
{
    reveal(Binary64::spec_ratio);
    reveal(Binary64::spec_is_nan);
    lemma_pow2_pos(j);
    let x = exact::lemma_number(low, j);
    let y = exact::lemma_number(low + 1, j);
    exact::lemma_step(j);
    number::lemma_constants(Format::Double);
    let one = Binary64::one();
    let c = Binary64::ratio(n, d);
    number::lemma_rounded(Format::Double, false, n as nat * one, d as nat);
    let s = step(j) as int;
    let p = pow2(j) as int;
    assert((low * s) * d <= n * one <= ((low + 1) * s) * d) by (nonlinear_arith)
        requires
            low * d <= n * p <= (low + 1) * d,
            s * p == one,
            s > 0,
    ;
    binary64::lemma_round_exact(x, d as nat);
    binary64::lemma_round_exact(y, d as nat);
    binary64::lemma_round_monotone(x.value() * d, n * one, d as nat);
    binary64::lemma_round_monotone(n * one, y.value() * d, d as nat);
    assert(!c.is_nan());
    binary64::lemma_between_finite(c, x, y);
}

proof fn lemma_whole(n: i64)
    requires
        -0x20000000000000 <= n <= 0x20000000000000,
    ensures
        steps(Binary64::of(n), n as int, 0),
{
    binary64::lemma_of(n);
    exact::lemma_step(0);
}

/// The whole part of a whole number divided by a small one.
proof fn lemma_whole_quotient(a: Binary64, m: int, n: i64)
    requires
        steps(a, m, 0),
        1 <= n <= 1000,
        -0x100000 <= m <= 0x100000,
    ensures
        steps((a / Binary64::of(n)).floor(), m / (n as int), 0),
{
    lemma_whole(n);
    exact::lemma_step(0);
    let one = Binary64::one() as int;
    let w = n as int;
    let k = m / w;
    vstd::arithmetic::div_mod::lemma_fundamental_div_mod(m, w);
    let r = m % w;
    assert(-0x100000 <= k <= 0x100000 && w * k <= m <= w * k + w - 1) by (nonlinear_arith)
        requires
            m == w * k + r,
            0 <= r < w,
            1 <= w,
            -0x100000 <= m <= 0x100000,
    ;
    assert(k * (w * one) <= m * one) by (nonlinear_arith)
        requires
            w * k <= m,
            one > 0,
    ;
    assert(m * 0x100000 <= ((k + 1) * 0x100000 - 1) * w) by (nonlinear_arith)
        requires
            m <= w * k + w - 1,
            1 <= w <= 1000,
    ;
    let top = (k + 1) * 0x100000 - 1;
    assert((m * one) * 0x100000 <= top * (w * one)) by (nonlinear_arith)
        requires
            m * 0x100000 <= top * w,
            one > 0,
    ;
    assert(w * one > 0) by (nonlinear_arith)
        requires
            w >= 1,
            one > 0,
    ;
    exact::lemma_quotient_floor(a, Binary64::of(n), k);
}

/// The days before a year come out exactly.
proof fn lemma_days_before_year(n: Binary64, m: int)
    requires
        steps(n, m, 0),
        0 <= m <= 0x100000,
    ensures
        steps((Binary64::ratio(1461, 4) * n).floor(), (1461 * m) / 4, 0),
{
    lemma2_to64();
    exact::lemma_ratio(1461, 4, 2);
    exact::lemma_product(Binary64::ratio(1461, 4), 1461, 2, n, m, 0);
    exact::lemma_step(2);
    let p = 1461 * m;
    let k = p / 4;
    let s = step(2) as int;
    let one = Binary64::one() as int;
    assert(k * one <= p * s < (k + 1) * one) by (nonlinear_arith)
        requires
            4 * k <= p < 4 * k + 4,
            s * 4 == one,
            s > 0,
    ;
    exact::lemma_floor(Binary64::ratio(1461, 4) * n, k);
}

/// The length of a month, near enough.
proof fn lemma_month_length()
    ensures
        Binary64::ratio(306001, 10000).is_finite(),
        64173060 * step(21) <= Binary64::ratio(306001, 10000).value() <= 64173061 * step(21),
        step(21) > 0,
        step(21) * 0x200000 == Binary64::one(),
{
    lemma2_to64();
    exact::lemma_step(21);
    lemma_ratio_within(306001, 10000, 64173060, 21);
}

/// The days before a month come out exactly.
proof fn lemma_days_before_month(n: Binary64, count: int)
    requires
        steps(n, count, 0),
        4 <= count <= 15,
    ensures
        steps(
            (Binary64::ratio(306001, 10000) * n).floor(),
            days_before_month(count),
            0,
        ),
{
    lemma_month_length();
    exact::lemma_step(0);
    lemma_months(count);
    let c = Binary64::ratio(306001, 10000);
    let s = step(21) as int;
    let one = Binary64::one() as int;
    let v = c.value();
    let x = exact::lemma_number(64173060 * count, 21);
    let y = exact::lemma_number(64173061 * count, 21);
    assert((64173060 * count) * s * one <= v * (count * one) <= (64173061 * count) * s * one)
        by (nonlinear_arith)
        requires
            64173060 * s <= v <= 64173061 * s,
            count >= 4,
            one > 0,
    ;
    binary64::lemma_product_between(c, n, x, y);
    let k = days_before_month(count);
    assert(k * 0x200000 <= 64173060 * count && 64173061 * count < (k + 1) * 0x200000);
    assert(k * one <= (64173060 * count) * s && (64173061 * count) * s < (k + 1) * one)
        by (nonlinear_arith)
        requires
            k * 0x200000 <= 64173060 * count,
            64173061 * count < (k + 1) * 0x200000,
            s * 0x200000 == one,
            s > 0,
    ;
    exact::lemma_floor(c * n, k);
}

/// A civil day starts half a day before its number, and the time of day is
/// added to that.
proof fn lemma_day_start(civil: UtcDateTime) -> (start: Binary64)
    requires
        is_date(civil.year as int, civil.month as int, civil.day as int),
    ensures
        steps(
            start,
            2 * day_number(civil.year as int, civil.month as int, civil.day as int) - 1,
            1,
        ),
        civil.julian_spec().0 == start + civil.day_fraction(),
{
    let (year, month, day) = (civil.year, civil.month, civil.day);
    let y = march_year(year as int, month as int);
    let count = march_month(month as int);
    let a = y / 100;
    lemma_day_of_year(year as int, month as int, day as int);
    lemma_months(count);
    lemma2_to64();
    lemma_whole(y as i64);
    lemma_whole(month as i64);
    lemma_whole(12);
    lemma_whole(4716);
    lemma_whole(1);
    lemma_whole(2);
    lemma_whole(day as i64);
    let early = month <= 2;
    let yf = if early {
        Binary64::of((year - 1) as i64)
    } else {
        Binary64::of(year as i64)
    };
    assert(yf == Binary64::of(y as i64));
    let mf = if early {
        Binary64::of(month as i64) + Binary64::of(12)
    } else {
        Binary64::of(month as i64)
    };
    if early {
        exact::lemma_sum(Binary64::of(month as i64), month as int, Binary64::of(12), 12, 0);
    }
    let century = (yf / Binary64::of(100)).floor();
    lemma_whole_quotient(yf, y, 100);
    lemma_whole_quotient(century, a, 4);
    exact::lemma_difference(Binary64::of(2), 2, century, a, 0);
    let leaps = (century / Binary64::of(4)).floor();
    let gregorian = (Binary64::of(2) - century) + leaps;
    exact::lemma_sum(Binary64::of(2) - century, 2 - a, leaps, a / 4, 0);
    let n = yf + Binary64::of(4716);
    exact::lemma_sum(yf, y, Binary64::of(4716), 4716, 0);
    lemma_days_before_year(n, y + 4716);
    let f = days_before_year(y);
    let whole_years = (Binary64::ratio(1461, 4) * n).floor();
    let m = mf + Binary64::of(1);
    exact::lemma_sum(mf, count - 1, Binary64::of(1), 1, 0);
    lemma_days_before_month(m, count);
    let g = days_before_month(count);
    let whole_months = (Binary64::ratio(306001, 10000) * m).floor();
    exact::lemma_sum(whole_years, f, whole_months, g, 0);
    let sum = whole_years + whole_months;
    exact::lemma_refine(sum, f + g, 0, 1);
    exact::lemma_ratio(3049, 2, 1);
    exact::lemma_difference(sum, 2 * (f + g), Binary64::ratio(3049, 2), 3049, 1);
    let s1 = sum - Binary64::ratio(3049, 2);
    exact::lemma_refine(Binary64::of(day as i64), day as int, 0, 1);
    exact::lemma_sum(s1, 2 * (f + g) - 3049, Binary64::of(day as i64), 2 * day, 1);
    let s2 = s1 + Binary64::of(day as i64);
    exact::lemma_refine(gregorian, correction(a), 0, 1);
    exact::lemma_sum(s2, 2 * (f + g) - 3049 + 2 * day, gregorian, 2 * correction(a), 1);
    let s3 = s2 + gregorian;
    s3
}

/// A civil midnight is half a day before its day's number.
proof fn lemma_to_julian(year: i32, month: u8, day: u8)
    requires
        is_date(year as int, month as int, day as int),
    ensures
        steps(
            UtcDateTime::midnight(year, month, day).julian_spec().0,
            2 * day_number(year as int, month as int, day as int) - 1,
            1,
        ),
{
    let civil = UtcDateTime::midnight(year, month, day);
    let n = 2 * day_number(year as int, month as int, day as int) - 1;
    let start = lemma_day_start(civil);
    lemma_day_of_year(year as int, month as int, day as int);
    lemma_no_time(civil);
    exact::lemma_refine(civil.day_fraction(), 0, 0, 1);
    exact::lemma_sum(start, n, civil.day_fraction(), 0, 1);
}

/// Nothing divided by a whole number is nothing.
proof fn lemma_nothing_divided(a: Binary64, n: i64)
    requires
        steps(a, 0, 0),
        1 <= n <= 0x20000000000000,
    ensures
        steps(a / Binary64::of(n), 0, 0),
{
    lemma_whole(n);
    lemma_whole(0);
    exact::lemma_step(0);
    let one = Binary64::one() as int;
    assert(n * one > 0) by (nonlinear_arith)
        requires
            n >= 1,
            one > 0,
    ;
    assert(0 * one == 0 && 0 * (n * one) == 0);
    binary64::lemma_quotient_between(a, Binary64::of(n), Binary64::of(0), Binary64::of(0));
}

/// At midnight no part of the day has gone by.
proof fn lemma_no_time(civil: UtcDateTime)
    requires
        civil.hour == 0,
        civil.minute == 0,
        civil.second == Binary64::of(0),
    ensures
        steps(civil.day_fraction(), 0, 0),
{
    let zero = Binary64::of(0);
    lemma_whole(0);
    lemma_whole(3600);
    lemma_whole(60);
    exact::lemma_product(zero, 0, 0, Binary64::of(3600), 3600, 0);
    exact::lemma_product(zero, 0, 0, Binary64::of(60), 60, 0);
    exact::lemma_sum(zero * Binary64::of(3600), 0, zero * Binary64::of(60), 0, 0);
    exact::lemma_sum(zero * Binary64::of(3600) + zero * Binary64::of(60), 0, zero, 0, 0);
    lemma_nothing_divided((zero * Binary64::of(3600) + zero * Binary64::of(60)) + zero, 86400);
}

/// Taking a half day to the millisecond leaves it alone.
proof fn lemma_milliseconds(time: JulianDate, n: int)
    requires
        steps(time.0, n, 1),
        -100_000_000 <= n <= 100_000_000,
    ensures
        steps(UtcDateTime::to_milliseconds(time), n, 1),
{
    lemma2_to64();
    lemma_whole(86400000);
    exact::lemma_product(time.0, n, 1, Binary64::of(86400000), 86400000, 0);
    let product = time.0 * Binary64::of(86400000);
    assert(n * 86400000 == (n * 43200000) * pow2(1));
    exact::lemma_coarsen(product, n * 43200000, 0, 1);
    exact::lemma_step(1);
    exact::lemma_step(0);
    exact::lemma_round(product, n * 43200000);
    let x = exact::lemma_number(n, 1);
    let one = Binary64::one() as int;
    let s = step(1) as int;
    assert((n * s) * (86400000 * one) == ((n * 43200000) * one) * one && 86400000 * one > 0)
        by (nonlinear_arith)
        requires
            s * 2 == one,
            one > 0,
    ;
    binary64::lemma_quotient_between(product.round(), Binary64::of(86400000), x, x);
}

/// The date comes back from the number of its day.
proof fn lemma_civil(year: int, month: int, day: int, integral: Binary64)
    requires
        is_date(year, month, day),
        steps(integral, day_number(year, month, day), 0),
    ensures
        steps(UtcDateTime::civil_of(integral).0, year, 0),
        steps(UtcDateTime::civil_of(integral).1, month, 0),
        steps(UtcDateTime::civil_of(integral).2, day, 0),
{
    let y = march_year(year, month);
    let count = march_month(month);
    let z = day_number(year, month, day);
    let a0 = y / 100;
    let f = days_before_year(y);
    let g = days_before_month(count);
    lemma_day_of_year(year, month, day);
    lemma_months(count);
    lemma_century(y, g + day);
    lemma_year(y, g + day);
    lemma2_to64();
    lemma_whole(1);
    lemma_whole(2);
    lemma_whole(13);
    lemma_whole(14);
    lemma_whole(1524);
    lemma_whole(4715);
    lemma_whole(4716);
    let one = Binary64::one() as int;
    exact::lemma_step(0);

    let alpha = ((integral - Binary64::ratio(7468865, 4)) / Binary64::ratio(146097, 4)).floor();
    lemma_alpha(integral, z, a0 - 4);
    let a = ((integral + Binary64::of(1)) + alpha) - (alpha / Binary64::of(4)).floor();
    exact::lemma_sum(integral, z, Binary64::of(1), 1, 0);
    exact::lemma_sum(integral + Binary64::of(1), z + 1, alpha, a0 - 4, 0);
    lemma_whole_quotient(alpha, a0 - 4, 4);
    let k = (a0 - 4) / 4;
    exact::lemma_difference(
        (integral + Binary64::of(1)) + alpha,
        z + 1 + a0 - 4,
        (alpha / Binary64::of(4)).floor(),
        k,
        0,
    );
    let b = a + Binary64::of(1524);
    exact::lemma_sum(a, z + 1 + a0 - 4 - k, Binary64::of(1524), 1524, 0);
    let days = f + g + day;
    assert(k == a0 / 4 - 1);
    assert(z + 1 + a0 - 4 - k + 1524 == days);

    let c = ((b - Binary64::ratio(1221, 10)) / Binary64::ratio(1461, 4)).floor();
    lemma_year_part(b, days, y + 4716);
    let d = (Binary64::ratio(1461, 4) * c).floor();
    lemma_days_before_year(c, y + 4716);
    exact::lemma_difference(b, days, d, f, 0);
    let e = ((b - d) / Binary64::ratio(306001, 10000)).floor();
    lemma_month_part(b - d, count, g + day);
    lemma_days_before_month(e, count);
    let whole = (Binary64::ratio(306001, 10000) * e).floor();
    exact::lemma_difference(b - d, g + day, whole, g, 0);

    binary64::lemma_order(e, Binary64::of(14));
    assert((count * one < 14 * one) == (count < 14)) by (nonlinear_arith)
        requires
            one > 0,
    ;
    let m = if e < Binary64::of(14) {
        e - Binary64::of(1)
    } else {
        e - Binary64::of(13)
    };
    if count < 14 {
        exact::lemma_difference(e, count, Binary64::of(1), 1, 0);
    } else {
        exact::lemma_difference(e, count, Binary64::of(13), 13, 0);
    }
    binary64::lemma_order(Binary64::of(2), m);
    assert((2 * one < month * one) == (2 < month)) by (nonlinear_arith)
        requires
            one > 0,
    ;
    if month > 2 {
        exact::lemma_difference(c, y + 4716, Binary64::of(4716), 4716, 0);
    } else {
        exact::lemma_difference(c, y + 4716, Binary64::of(4715), 4715, 0);
    }
}

/// The century counted from the epoch of the formula.
proof fn lemma_alpha(integral: Binary64, z: int, k: int)
    requires
        steps(integral, z, 0),
        -100_000_000 <= z <= 100_000_000,
        -0x100000 <= k <= 0x100000,
        k * 146097 <= 4 * z - 7468865 <= (k + 1) * 146097 - 1,
    ensures
        steps(
            ((integral - Binary64::ratio(7468865, 4)) / Binary64::ratio(146097, 4)).floor(),
            k,
            0,
        ),
{
    lemma2_to64();
    exact::lemma_ratio(7468865, 4, 2);
    exact::lemma_ratio(146097, 4, 2);
    exact::lemma_refine(integral, z, 0, 2);
    exact::lemma_difference(integral, z * 4, Binary64::ratio(7468865, 4), 7468865, 2);
    exact::lemma_step(2);
    let s = step(2) as int;
    let p = 4 * z - 7468865;
    assert(k * (146097 * s) <= p * s && 146097 * s > 0) by (nonlinear_arith)
        requires
            k * 146097 <= p,
            s > 0,
    ;
    let top = (k + 1) * 0x100000 - 1;
    assert(p * 0x100000 <= top * 146097);
    assert((p * s) * 0x100000 <= top * (146097 * s)) by (nonlinear_arith)
        requires
            p * 0x100000 <= top * 146097,
            s > 0,
    ;
    exact::lemma_quotient_floor(
        integral - Binary64::ratio(7468865, 4),
        Binary64::ratio(146097, 4),
        k,
    );
}

/// The year counted from the epoch of the formula.
proof fn lemma_year_part(b: Binary64, days: int, n: int)
    requires
        steps(b, days, 0),
        0 <= days <= 100_000_000,
        0 <= n <= 0x100000,
        7305 * n + 3 <= 20 * days - 2442 <= 7305 * (n + 1) - 2,
    ensures
        steps(
            ((b - Binary64::ratio(1221, 10)) / Binary64::ratio(1461, 4)).floor(),
            n,
            0,
        ),
{
    lemma2_to64();
    let c = Binary64::ratio(1221, 10);
    lemma_ratio_within(1221, 10, 256062259, 21);
    exact::lemma_ratio(1461, 4, 2);
    binary64::lemma_negate(c);
    exact::lemma_refine(b, days, 0, 21);
    exact::lemma_step(21);
    exact::lemma_step(2);
    let s = step(21) as int;
    let low = days * 0x200000 - 256062260;
    let x = exact::lemma_number(low, 21);
    let y = exact::lemma_number(low + 1, 21);
    assert((days * 0x200000) * s - 256062260 * s == low * s && (days * 0x200000) * s - 256062259 * s
        == (low + 1) * s) by (nonlinear_arith)
        requires
            low == days * 0x200000 - 256062260,
    ;
    let a = b - c;
    assert(a == b + c.negate());
    binary64::lemma_sum_between(b, c.negate(), x, y);
    let v = a.value();
    let t = step(2) as int;
    assert(t == 0x80000 * s) by {
        lemma_pow2_adds(1053, 19);
    }
    let w = 1461 * t;
    assert(n * (1461 * 0x80000) <= low) by (nonlinear_arith)
        requires
            7305 * n + 3 <= 20 * days - 2442,
            low == days * 0x200000 - 256062260,
    ;
    assert(n * w <= v && w > 0) by (nonlinear_arith)
        requires
            n * (1461 * 0x80000) <= low,
            low * s <= v,
            w == 1461 * t,
            t == 0x80000 * s,
            s > 0,
    ;
    let top = (n + 1) * 0x100000 - 1;
    assert((low + 1) * 0x100000 <= top * (1461 * 0x80000));
    assert(v * 0x100000 <= top * w) by (nonlinear_arith)
        requires
            (low + 1) * 0x100000 <= top * (1461 * 0x80000),
            v <= (low + 1) * s,
            w == 1461 * t,
            t == 0x80000 * s,
            s > 0,
    ;
    exact::lemma_quotient_floor(a, Binary64::ratio(1461, 4), n);
}

/// The month counted from March.
proof fn lemma_month_part(x: Binary64, count: int, g: int)
    requires
        steps(x, g, 0),
        4 <= count <= 15,
        days_before_month(count) < g <= days_before_month(count) + 31,
        count < 15 ==> g <= days_before_month(count + 1),
        count == 15 ==> g <= 488,
    ensures
        steps((x / Binary64::ratio(306001, 10000)).floor(), count, 0),
{
    lemma_months(count);
    if count < 15 {
        lemma_months(count + 1);
    }
    lemma_month_length();
    exact::lemma_step(0);
    let c = Binary64::ratio(306001, 10000);
    let s = step(21) as int;
    let one = Binary64::one() as int;
    let v = c.value();
    assert(count * 64173061 <= g * 0x200000);
    assert(count * v <= g * one && v > 0) by (nonlinear_arith)
        requires
            count * 64173061 <= g * 0x200000,
            64173060 * s <= v <= 64173061 * s,
            s * 0x200000 == one,
            s > 0,
            count >= 4,
    ;
    let top = (count + 1) * 0x100000 - 1;
    assert(g * 0x200000 * 0x100000 <= top * 64173060);
    assert((g * one) * 0x100000 <= top * v) by (nonlinear_arith)
        requires
            g * 0x200000 * 0x100000 <= top * 64173060,
            64173060 * s <= v,
            s * 0x200000 == one,
            s > 0,
            top >= 0,
    ;
    exact::lemma_quotient_floor(x, c, count);
}

/// No part of a day is no time on the clock.
proof fn lemma_clock(fraction: Binary64)
    requires
        steps(fraction, 0, 0),
    ensures
        steps(UtcDateTime::clock_of(fraction).0, 0, 0),
        steps(UtcDateTime::clock_of(fraction).1, 0, 0),
        steps(UtcDateTime::clock_of(fraction).2, 0, 0),
{
    lemma_whole(86400000);
    lemma_whole(3600000);
    lemma_whole(60000);
    exact::lemma_step(0);
    let one = Binary64::one() as int;
    assert(0 * one == 0 && (0 + 1) * one == one) by (nonlinear_arith);
    exact::lemma_product(fraction, 0, 0, Binary64::of(86400000), 86400000, 0);
    let ms = (fraction * Binary64::of(86400000)).round();
    exact::lemma_round(fraction * Binary64::of(86400000), 0);
    lemma_nothing_divided(ms, 3600000);
    exact::lemma_floor(ms / Binary64::of(3600000), 0);
    let hour = (ms / Binary64::of(3600000)).floor();
    exact::lemma_product(hour, 0, 0, Binary64::of(3600000), 3600000, 0);
    let rest = ms - hour * Binary64::of(3600000);
    exact::lemma_difference(ms, 0, hour * Binary64::of(3600000), 0, 0);
    lemma_nothing_divided(rest, 60000);
    exact::lemma_floor(rest / Binary64::of(60000), 0);
    let minute = (rest / Binary64::of(60000)).floor();
    exact::lemma_product(minute, 0, 0, Binary64::of(60000), 60000, 0);
    exact::lemma_difference(rest, 0, minute * Binary64::of(60000), 0, 0);
    lemma_nothing_divided(rest - minute * Binary64::of(60000), 1000);
}

/// A civil midnight made a Julian day and back is the same midnight, whatever
/// the leap years and centuries in between.
pub proof fn a_midnight_survives_the_round_trip(year: i32, month: u8, day: u8)
    requires
        is_date(year as int, month as int, day as int),
    ensures
        ({
            let back = UtcDateTime::from_julian_spec(
                UtcDateTime::midnight(year, month, day).julian_spec(),
            );
            &&& back.year == year
            &&& back.month == month
            &&& back.day == day
            &&& back.hour == 0
            &&& back.minute == 0
            &&& back.second.same(Binary64::of(0))
        }),
{
    let time = UtcDateTime::midnight(year, month, day).julian_spec();
    let z = day_number(year as int, month as int, day as int);
    lemma_to_julian(year, month, day);
    lemma_day_of_year(year as int, month as int, day as int);
    lemma_milliseconds(time, 2 * z - 1);
    lemma2_to64();
    exact::lemma_ratio(1, 2, 1);
    let rounded = UtcDateTime::to_milliseconds(time);
    exact::lemma_sum(rounded, 2 * z - 1, Binary64::ratio(1, 2), 1, 1);
    let shifted = rounded + Binary64::ratio(1, 2);
    assert(2 * z == z * pow2(1));
    exact::lemma_coarsen(shifted, z, 0, 1);
    exact::lemma_step(0);
    let one = Binary64::one() as int;
    assert(z * one < (z + 1) * one) by (nonlinear_arith)
        requires
            one > 0,
    ;
    exact::lemma_floor(shifted, z);
    let integral = shifted.floor();
    lemma_civil(year as int, month as int, day as int, integral);
    exact::lemma_difference(shifted, z, integral, z, 0);
    lemma_clock(shifted - integral);
    let (y, m, d) = UtcDateTime::civil_of(integral);
    let (hour, minute, second) = UtcDateTime::clock_of(shifted - integral);
    exact::lemma_to_integer(y, year as int, i32::MIN as i64, i32::MAX as i64);
    exact::lemma_to_integer(m, month as int, 0, 255);
    exact::lemma_to_integer(d, day as int, 0, 255);
    exact::lemma_to_integer(hour, 0, 0, 255);
    exact::lemma_to_integer(minute, 0, 0, 255);
    lemma_whole(0);
    binary64::lemma_order(second, Binary64::of(0));
}

/// The number lies within one step above `m` steps.
spec fn in_step(x: Binary64, m: int, j: nat) -> bool {
    x.is_finite() && m * step(j) <= x.value() <= (m + 1) * step(j)
}

/// How much of a day has gone by after so many milliseconds, in thirtieth
/// binary places.
spec fn day_part(t: int) -> int {
    (t * 0x40000000) / 86400000
}

/// So many days are so many milliseconds, but for less than a step.
spec fn worth(part: int, t: int) -> bool {
    part * 86400000 <= t * 0x40000000 < (part + 1) * 86400000
}

proof fn lemma_day_part(t: int)
    requires
        0 <= t < 86400000,
    ensures
        0 <= day_part(t) <= 0x3ffffff3,
        worth(day_part(t), t),
{
}

/// A sum of steps with a number that lies within one.
proof fn lemma_sum_in_step(a: Binary64, p: int, b: Binary64, r: int, j: nat)
    requires
        steps(a, p, j),
        in_step(b, r, j),
        exact::fits(p + r),
        exact::fits(p + r + 1),
        j <= 1000,
    ensures
        in_step(a + b, p + r, j),
        in_step(b + a, p + r, j),
{
    let low = exact::lemma_number(p + r, j);
    let high = exact::lemma_number(p + r + 1, j);
    assert((p + r) * step(j) == p * step(j) + r * step(j)) by (nonlinear_arith);
    assert((p + r + 1) * step(j) == p * step(j) + (r + 1) * step(j)) by (nonlinear_arith);
    binary64::lemma_sum_between(a, b, low, high);
    binary64::lemma_sum_between(b, a, low, high);
}

/// The time of day as a part of the day.
proof fn lemma_fraction(civil: UtcDateTime, milliseconds: int)
    requires
        civil.hour < 24,
        civil.minute < 60,
        0 <= milliseconds < 60000,
        civil.second == Binary64::of(milliseconds as i64) / Binary64::of(1000),
    ensures
        in_step(
            civil.day_fraction(),
            day_part((civil.hour * 3600 + civil.minute * 60) * 1000 + milliseconds),
            30,
        ),
{
    let (h, m) = (civil.hour as int, civil.minute as int);
    let s = h * 3600 + m * 60;
    let t = s * 1000 + milliseconds;
    let k = day_part(t);
    lemma_day_part(t);
    lemma2_to64();
    lemma2_to64_rest();
    lemma_whole(civil.hour as i64);
    lemma_whole(civil.minute as i64);
    lemma_whole(milliseconds as i64);
    lemma_whole(3600);
    lemma_whole(60);
    lemma_whole(1000);
    lemma_whole(86400);
    exact::lemma_step(0);
    exact::lemma_step(30);
    exact::lemma_step(36);
    let one = Binary64::one() as int;
    let e = step(36) as int;
    let d = step(30) as int;
    assert(e * 0x1000000000 == one && d * 0x40000000 == one);
    assert(d == 64 * e);
    let hours = Binary64::of(civil.hour as i64) * Binary64::of(3600);
    let minutes = Binary64::of(civil.minute as i64) * Binary64::of(60);
    exact::lemma_product(Binary64::of(civil.hour as i64), h, 0, Binary64::of(3600), 3600, 0);
    exact::lemma_product(Binary64::of(civil.minute as i64), m, 0, Binary64::of(60), 60, 0);
    exact::lemma_sum(hours, h * 3600, minutes, m * 60, 0);
    let whole = hours + minutes;
    exact::lemma_refine(whole, s, 0, 36);
    let p = (milliseconds * 0x1000000000) / 1000;
    let low = exact::lemma_number(p, 36);
    let high = exact::lemma_number(p + 1, 36);
    assert((p * e) * (1000 * one) <= (milliseconds * one) * one <= ((p + 1) * e) * (1000 * one))
        by (nonlinear_arith)
        requires
            p * 1000 <= milliseconds * 0x1000000000 <= (p + 1) * 1000,
            e * 0x1000000000 == one,
            e > 0,
            one > 0,
    ;
    binary64::lemma_quotient_between(
        Binary64::of(milliseconds as i64),
        Binary64::of(1000),
        low,
        high,
    );
    lemma_sum_in_step(whole, s * 0x1000000000, civil.second, p, 36);
    let sum = whole + civil.second;
    let q = s * 0x1000000000 + p;
    assert(k * 5529600 <= q && q + 1 <= (k + 1) * 5529600);
    let v = sum.value();
    let bottom = exact::lemma_number(k, 30);
    let top = exact::lemma_number(k + 1, 30);
    assert((k * d) * (86400 * one) <= v * one <= ((k + 1) * d) * (86400 * one)) by (nonlinear_arith)
        requires
            k * 5529600 <= q,
            q + 1 <= (k + 1) * 5529600,
            q * e <= v <= (q + 1) * e,
            d == 64 * e,
            e > 0,
            one > 0,
    ;
    binary64::lemma_quotient_between(sum, Binary64::of(86400), bottom, top);
}

/// So many milliseconds come out of their part of a day.
proof fn lemma_counted(x: Binary64, part: int, t: int)
    requires
        in_step(x, part, 30),
        worth(part, t),
        -0x2000000000000 <= t <= 0x2fffffffffff8,
    ensures
        steps((x * Binary64::of(86400000)).round(), t, 0),
{
    lemma2_to64();
    lemma_whole(86400000);
    exact::lemma_step(0);
    exact::lemma_step(3);
    exact::lemma_step(30);
    let one = Binary64::one() as int;
    let d = step(30) as int;
    let c = step(3) as int;
    let v = x.value();
    assert(c * 8 == one && d * 0x40000000 == one);
    assert(c == 0x8000000 * d);
    let low = exact::lemma_number(8 * t - 1, 3);
    let high = exact::lemma_number(8 * t + 1, 3);
    assert((8 * t - 1) * 0x8000000 <= part * 86400000);
    assert((part + 1) * 86400000 <= (8 * t + 1) * 0x8000000);
    assert(((8 * t - 1) * c) * one <= v * (86400000 * one) <= ((8 * t + 1) * c) * one)
        by (nonlinear_arith)
        requires
            (8 * t - 1) * 0x8000000 <= part * 86400000,
            (part + 1) * 86400000 <= (8 * t + 1) * 0x8000000,
            part * d <= v <= (part + 1) * d,
            c == 0x8000000 * d,
            d > 0,
            one > 0,
    ;
    binary64::lemma_product_between(x, Binary64::of(86400000), low, high);
    assert((8 * t - 1) * c == t * one - c && (8 * t + 1) * c == t * one + c) by (nonlinear_arith)
        requires
            c * 8 == one,
    ;
    exact::lemma_round(x * Binary64::of(86400000), t);
}

/// So many milliseconds made days.
proof fn lemma_in_days(x: Binary64, part: int, t: int)
    requires
        steps(x, t, 0),
        worth(part, t),
        exact::fits(part),
        exact::fits(part + 1),
    ensures
        in_step(x / Binary64::of(86400000), part, 30),
{
    lemma2_to64();
    lemma_whole(86400000);
    exact::lemma_step(0);
    exact::lemma_step(30);
    let one = Binary64::one() as int;
    let d = step(30) as int;
    let low = exact::lemma_number(part, 30);
    let high = exact::lemma_number(part + 1, 30);
    assert((part * d) * (86400000 * one) <= (t * one) * one <= ((part + 1) * d) * (86400000 * one))
        by (nonlinear_arith)
        requires
            part * 86400000 <= t * 0x40000000 <= (part + 1) * 86400000,
            d * 0x40000000 == one,
            d > 0,
            one > 0,
    ;
    binary64::lemma_quotient_between(x, Binary64::of(86400000), low, high);
}

/// The whole part of a count of milliseconds in larger units.
proof fn lemma_units(a: Binary64, t: int, n: i64)
    requires
        steps(a, t, 0),
        1 <= n <= 3600000,
        0 <= t < 86400000,
    ensures
        steps((a / Binary64::of(n)).floor(), t / (n as int), 0),
{
    lemma2_to64();
    lemma_whole(n);
    exact::lemma_step(0);
    exact::lemma_step(24);
    let one = Binary64::one() as int;
    let w = n as int;
    let k = t / w;
    vstd::arithmetic::div_mod::lemma_fundamental_div_mod(t, w);
    let r = t % w;
    assert(0 <= k <= t && k * w <= t <= (k + 1) * w - 1) by (nonlinear_arith)
        requires
            t == w * k + r,
            0 <= r < w,
            0 <= t,
    ;
    let top = (k + 1) * 0x1000000 - 1;
    let s = step(24) as int;
    let low = exact::lemma_number(k, 0);
    let high = exact::lemma_number(top, 24);
    assert((k * one) * (w * one) <= (t * one) * one) by (nonlinear_arith)
        requires
            k * w <= t,
            one > 0,
    ;
    assert(t * 0x1000000 <= top * w) by (nonlinear_arith)
        requires
            t <= (k + 1) * w - 1,
            top == (k + 1) * 0x1000000 - 1,
            1 <= w <= 0x1000000,
    ;
    assert((t * one) * one <= (top * s) * (w * one)) by (nonlinear_arith)
        requires
            t * 0x1000000 <= top * w,
            s * 0x1000000 == one,
            s > 0,
            one > 0,
    ;
    assert(w * one > 0) by (nonlinear_arith)
        requires
            w >= 1,
            one > 0,
    ;
    binary64::lemma_quotient_between(a, Binary64::of(n), low, high);
    assert(top * s < (k + 1) * one) by (nonlinear_arith)
        requires
            top == (k + 1) * 0x1000000 - 1,
            s * 0x1000000 == one,
            s > 0,
    ;
    exact::lemma_floor(a / Binary64::of(n), k);
}

/// The clock after so much of the day.
proof fn lemma_time(fraction: Binary64, h: int, m: int, milliseconds: int)
    requires
        0 <= h < 24,
        0 <= m < 60,
        0 <= milliseconds < 60000,
        in_step(fraction, day_part((h * 3600 + m * 60) * 1000 + milliseconds), 30),
    ensures
        steps(UtcDateTime::clock_of(fraction).0, h, 0),
        steps(UtcDateTime::clock_of(fraction).1, m, 0),
        UtcDateTime::clock_of(fraction).2.same(
            Binary64::of(milliseconds as i64) / Binary64::of(1000),
        ),
{
    let t = (h * 3600 + m * 60) * 1000 + milliseconds;
    lemma_day_part(t);
    lemma_counted(fraction, day_part(t), t);
    lemma_whole(3600000);
    lemma_whole(60000);
    lemma_whole(1000);
    lemma_whole(milliseconds as i64);
    let count = (fraction * Binary64::of(86400000)).round();
    lemma_units(count, t, 3600000);
    let hour = (count / Binary64::of(3600000)).floor();
    exact::lemma_product(hour, h, 0, Binary64::of(3600000), 3600000, 0);
    let rest = count - hour * Binary64::of(3600000);
    exact::lemma_difference(count, t, hour * Binary64::of(3600000), h * 3600000, 0);
    lemma_units(rest, t - h * 3600000, 60000);
    let minute = (rest / Binary64::of(60000)).floor();
    exact::lemma_product(minute, m, 0, Binary64::of(60000), 60000, 0);
    let left = rest - minute * Binary64::of(60000);
    exact::lemma_difference(
        rest,
        t - h * 3600000,
        minute * Binary64::of(60000),
        m * 60000,
        0,
    );
    exact::lemma_step(0);
    let thousand = Binary64::of(1000);
    binary64::lemma_div(left, thousand);
    binary64::lemma_div(Binary64::of(milliseconds as i64), thousand);
    binary64::lemma_order(left / thousand, Binary64::of(milliseconds as i64) / thousand);
}

/// A civil time made a Julian day and back is the same time. The calendar keeps
/// time to the millisecond, and does so over the years in which a double can
/// tell milliseconds apart with room to spare.
pub proof fn a_time_survives_the_round_trip(civil: UtcDateTime, milliseconds: u16)
    requires
        is_date(civil.year as int, civil.month as int, civil.day as int),
        civil.year <= 18_000,
        civil.hour < 24,
        civil.minute < 60,
        milliseconds < 60000,
        civil.second == Binary64::of(milliseconds as i64) / Binary64::of(1000),
    ensures
        ({
            let back = UtcDateTime::from_julian_spec(civil.julian_spec());
            &&& back.year == civil.year
            &&& back.month == civil.month
            &&& back.day == civil.day
            &&& back.hour == civil.hour
            &&& back.minute == civil.minute
            &&& back.second.same(civil.second)
        }),
{
    let time = civil.julian_spec();
    let (year, month, day) = (civil.year as int, civil.month as int, civil.day as int);
    let z = day_number(year, month, day);
    let t = (civil.hour * 3600 + civil.minute * 60) * 1000 + milliseconds;
    let k = day_part(t);
    lemma_day_of_year(year, month, day);
    assert(-100 <= z <= 8_350_000);
    lemma_day_part(t);
    lemma2_to64();
    lemma_fraction(civil, milliseconds as int);
    let start = lemma_day_start(civil);
    exact::lemma_refine(start, 2 * z - 1, 1, 29);
    let part = (2 * z - 1) * 0x20000000 + k;
    lemma_sum_in_step(start, (2 * z - 1) * 0x20000000, civil.day_fraction(), k, 30);
    let n = (2 * z - 1) * 43200000 + t;
    assert(worth(part, n));
    lemma_counted(time.0, part, n);
    let count = (time.0 * Binary64::of(86400000)).round();
    lemma_in_days(count, part, n);
    let rounded = UtcDateTime::to_milliseconds(time);
    let half = Binary64::ratio(1, 2);
    exact::lemma_ratio(1, 2, 1);
    exact::lemma_refine(half, 1, 1, 29);
    lemma_sum_in_step(half, 0x20000000, rounded, part, 30);
    let shifted = rounded + half;
    exact::lemma_step(0);
    exact::lemma_step(30);
    let one = Binary64::one() as int;
    let d = step(30) as int;
    let whole = z * 0x40000000 + k;
    assert(z * one <= whole * d && (whole + 1) * d < (z + 1) * one) by (nonlinear_arith)
        requires
            d * 0x40000000 == one,
            whole == z * 0x40000000 + k,
            0 <= k <= 0x3ffffff3,
            d > 0,
    ;
    exact::lemma_floor(shifted, z);
    let integral = shifted.floor();
    lemma_civil(year, month, day, integral);
    binary64::lemma_negate(integral);
    exact::lemma_refine(integral, z, 0, 30);
    let scaled = z * 0x40000000;
    assert((-scaled) * d == -(scaled * d)) by (nonlinear_arith);
    lemma_sum_in_step(integral.negate(), -scaled, shifted, whole, 30);
    let fraction = shifted - integral;
    assert(fraction == shifted + integral.negate());
    lemma_time(fraction, civil.hour as int, civil.minute as int, milliseconds as int);
    let (y, m, dd) = UtcDateTime::civil_of(integral);
    let (hour, minute, _) = UtcDateTime::clock_of(fraction);
    exact::lemma_to_integer(y, year, i32::MIN as i64, i32::MAX as i64);
    exact::lemma_to_integer(m, month, 0, 255);
    exact::lemma_to_integer(dd, day, 0, 255);
    exact::lemma_to_integer(hour, civil.hour as int, 0, 255);
    exact::lemma_to_integer(minute, civil.minute as int, 0, 255);
}

} // verus!
