//! UTC calendar arithmetic for quota resets: day numbers since 1970-01-01
//! to proleptic Gregorian dates and back, and the next reset instant of a
//! `daily` or `monthly` quota.
use vstd::prelude::*;
use crate::text::{chars_of, eq_chars};

verus! {

// ───────────────────────── the Gregorian calendar ─────────────────────────

/// Rust's `/` on signed integers, which rounds toward zero (`b > 0`).
pub open spec fn tdiv(a: int, b: int) -> int {
    if a >= 0 {
        a / b
    } else {
        -((-a) / b)
    }
}

pub open spec fn is_leap(y: int) -> bool {
    y % 4 == 0 && (y % 100 != 0 || y % 400 == 0)
}

pub open spec fn days_in_month(y: int, m: int) -> int {
    if m == 2 {
        if is_leap(y) {
            29
        } else {
            28
        }
    } else if m == 4 || m == 6 || m == 9 || m == 11 {
        30
    } else {
        31
    }
}

pub open spec fn valid_date(y: int, m: int, d: int) -> bool {
    1 <= m <= 12 && 1 <= d <= days_in_month(y, m)
}

/// The number of leap years among the years 1..=n (counted the proleptic way
/// for n < 1 too).
pub open spec fn leaps_through(n: int) -> int {
    n / 4 - n / 100 + n / 400
}

/// Days of year `y` before the first of month `m`.
pub open spec fn days_before_month(y: int, m: int) -> int {
    let base: int = if m == 1 {
        0
    } else if m == 2 {
        31
    } else if m == 3 {
        59
    } else if m == 4 {
        90
    } else if m == 5 {
        120
    } else if m == 6 {
        151
    } else if m == 7 {
        181
    } else if m == 8 {
        212
    } else if m == 9 {
        243
    } else if m == 10 {
        273
    } else if m == 11 {
        304
    } else {
        334
    };
    if m > 2 && is_leap(y) {
        base + 1
    } else {
        base
    }
}

/// The number of days from 1970-01-01 to the date y-m-d (negative before it).
pub open spec fn epoch_day(y: int, m: int, d: int) -> int {
    365 * (y - 1970) + leaps_through(y - 1) - leaps_through(1969) + days_before_month(y, m) + d
        - 1
}

/// The month after y-m, as (year, month).
pub open spec fn next_month(y: int, m: int) -> (int, int) {
    if m == 12 {
        (y + 1, 1)
    } else {
        (y, m + 1)
    }
}

// ───────────────────────── the algorithm's pieces ─────────────────────────
// Days are counted in 400-year eras of 146097 days that start on a March 1st;
// inside an era, `yoe` numbers the March-to-February years and `mp` numbers
// the months from March (0) to February (11).

spec fn year_start(yoe: int) -> int {
    365 * yoe + yoe / 4 - yoe / 100
}

spec fn yoe_of(doe: int) -> int {
    (doe - doe / 1460 + doe / 36524 - doe / 146096) / 365
}

spec fn month_start(mp: int) -> int {
    (153 * mp + 2) / 5
}

spec fn mp_of(doy: int) -> int {
    (5 * doy + 2) / 153
}

/// Whether the March-year `yoe` of an era holds a February 29th.
spec fn march_leap(yoe: int) -> bool {
    (yoe + 1) % 4 == 0 && ((yoe + 1) % 100 != 0 || yoe == 399)
}

spec fn march_year_len(yoe: int) -> int {
    if march_leap(yoe) {
        366
    } else {
        365
    }
}

/// Every day of an era falls in exactly one March-year, found by `yoe_of`.
proof fn lemma_yoe_of(doe: u32)
    requires
        doe < 146097,
    ensures
        yoe_of(doe as int) <= 399,
        year_start(yoe_of(doe as int)) <= doe,
        doe < year_start(yoe_of(doe as int)) + march_year_len(yoe_of(doe as int)),
{
    assert({
        let e = doe - doe / 1460 + doe / 36524 - doe / 146096;
        let yoe = e / 365;
        let leap = (yoe + 1) % 4 == 0 && ((yoe + 1) % 100 != 0 || yoe == 399);
        doe < 146097 ==> {
            &&& yoe <= 399
            &&& 365 * yoe + yoe / 4 - yoe / 100 <= doe
            &&& (leap ==> doe < 365 * yoe + yoe / 4 - yoe / 100 + 366)
            &&& (!leap ==> doe < 365 * yoe + yoe / 4 - yoe / 100 + 365)
        }
    }) by (bit_vector);
}

/// `yoe_of` recovers the March-year of any of its days.
#[verifier::rlimit(100)]
proof fn lemma_yoe_of_inverse(yoe: u32, doy: u32)
    requires
        yoe <= 399,
        doy < march_year_len(yoe as int),
    ensures
        yoe_of(year_start(yoe as int) + doy) == yoe,
        year_start(yoe as int) + doy < 146097,
{
    assert({
        let y = yoe + 0;
        let doe = 365 * y + y / 4 - y / 100 + doy;
        let leap = (y + 1) % 4 == 0 && ((y + 1) % 100 != 0 || y == 399);
        (y <= 399 && doy < 366 && (!leap ==> doy < 365)) ==> {
            &&& (doe - doe / 1460 + doe / 36524 - doe / 146096) / 365 <= y
            &&& (doe - doe / 1460 + doe / 36524 - doe / 146096) / 365 >= y
            &&& doe < 146097
        }
    }) by (bit_vector);
}

/// Every day of a March-year falls in exactly one month, found by `mp_of`.
proof fn lemma_mp_of(doy: u32)
    requires
        doy < 366,
    ensures
        mp_of(doy as int) <= 11,
        month_start(mp_of(doy as int)) <= doy < month_start(mp_of(doy as int) + 1),
{
    assert({
        let mp = (5 * doy + 2) / 153;
        doy < 366 ==> {
            &&& mp <= 11
            &&& (153 * mp + 2) / 5 <= doy
            &&& doy < (153 * (mp + 1) + 2) / 5
        }
    }) by (bit_vector);
}

proof fn lemma_mp_of_inverse(mp: u32, k: u32)
    requires
        mp <= 11,
        k < month_start(mp as int + 1) - month_start(mp as int),
    ensures
        mp_of(month_start(mp as int) + k) == mp,
{
    assert({
        let m = mp + 0;
        let s = (153 * m + 2) / 5;
        (m <= 11 && k + s < (153 * (m + 1) + 2) / 5) ==> {
            &&& (5 * (s + k) + 2) / 153 <= m
            &&& (5 * (s + k) + 2) / 153 >= m
        }
    }) by (bit_vector);
}

/// The lengths of the months from March on, as the algorithm lays them out.
proof fn lemma_month_starts()
    ensures
        month_start(0) == 0,
        month_start(1) == 31,
        month_start(2) == 61,
        month_start(3) == 92,
        month_start(4) == 122,
        month_start(5) == 153,
        month_start(6) == 184,
        month_start(7) == 214,
        month_start(8) == 245,
        month_start(9) == 275,
        month_start(10) == 306,
        month_start(11) == 337,
        month_start(12) == 367,
{
}

/// The March-year `yoe` of era `era` ends in a leap February exactly when the
/// calendar year `400 * era + yoe + 1` is a leap year.
proof fn lemma_march_leap(era: int, yoe: int)
    requires
        0 <= yoe <= 399,
    ensures
        march_leap(yoe) == is_leap(400 * era + yoe + 1),
{
    let y = 400 * era + yoe + 1;
    assert(y % 4 == (yoe + 1) % 4) by (nonlinear_arith)
        requires
            y == 400 * era + yoe + 1,
    ;
    assert(y % 100 == (yoe + 1) % 100) by (nonlinear_arith)
        requires
            y == 400 * era + yoe + 1,
    ;
    assert(y % 400 == (yoe + 1) % 400) by (nonlinear_arith)
        requires
            y == 400 * era + yoe + 1,
    ;
}

/// Leap years through year `400 * era + yoe`, in terms of the era.
proof fn lemma_leaps_era(era: int, yoe: int)
    requires
        0 <= yoe <= 399,
    ensures
        365 * (400 * era + yoe) + leaps_through(400 * era + yoe) == 146097 * era + year_start(
            yoe,
        ),
{
    let y = 400 * era + yoe;
    assert(y / 4 == 100 * era + yoe / 4) by (nonlinear_arith)
        requires
            y == 400 * era + yoe,
            0 <= yoe <= 399,
    ;
    assert(y / 100 == 4 * era + yoe / 100) by (nonlinear_arith)
        requires
            y == 400 * era + yoe,
            0 <= yoe <= 399,
    ;
    assert(y / 400 == era) by (nonlinear_arith)
        requires
            y == 400 * era + yoe,
            0 <= yoe <= 399,
    ;
}

/// One year more adds one to the leap count exactly in a leap year.
proof fn lemma_leaps_step(y: int)
    ensures
        leaps_through(y) == leaps_through(y - 1) + (if is_leap(y) {
            1int
        } else {
            0int
        }),
{
    assert((y / 4 - (y - 1) / 4) == (if y % 4 == 0 {
        1int
    } else {
        0int
    })) by (nonlinear_arith);
    assert((y / 100 - (y - 1) / 100) == (if y % 100 == 0 {
        1int
    } else {
        0int
    })) by (nonlinear_arith);
    assert((y / 400 - (y - 1) / 400) == (if y % 400 == 0 {
        1int
    } else {
        0int
    })) by (nonlinear_arith);
    if y % 400 == 0 {
        assert(y % 100 == 0 && y % 4 == 0) by (nonlinear_arith)
            requires
                y % 400 == 0,
        ;
    }
    if y % 100 == 0 {
        assert(y % 4 == 0) by (nonlinear_arith)
            requires
                y % 100 == 0,
        ;
    }
}

/// The date that the algorithm assembles from an era, a March-year and a day
/// of that year.
spec fn assemble(era: int, yoe: int, doy: int) -> (int, int, int) {
    let mp = mp_of(doy);
    let d = doy - month_start(mp) + 1;
    let m = if mp < 10 {
        mp + 3
    } else {
        mp - 9
    };
    let y = yoe + 400 * era;
    (if m <= 2 {
        y + 1
    } else {
        y
    }, m, d)
}

/// The assembled date is valid and lies `146097 * era + year_start(yoe) + doy
/// - 719468` days after 1970-01-01.
proof fn lemma_assemble(era: int, yoe: int, doy: int)
    requires
        0 <= yoe <= 399,
        0 <= doy < march_year_len(yoe),
    ensures
        valid_date(assemble(era, yoe, doy).0, assemble(era, yoe, doy).1, assemble(era, yoe, doy).2),
        epoch_day(assemble(era, yoe, doy).0, assemble(era, yoe, doy).1, assemble(era, yoe, doy).2)
            == 146097 * era + year_start(yoe) + doy - 719468,
{
    lemma_mp_of(doy as u32);
    lemma_month_starts();
    lemma_leaps_era(era, yoe);
    lemma_march_leap(era, yoe);
    let mp = mp_of(doy);
    let yy = yoe + 400 * era;
    lemma_leaps_step(yy);
    if mp < 10 {
        assert(0 <= mp <= 9);
    } else {
        assert(mp == 10 || mp == 11);
    }
}

/// The day number that the algorithm assigns to a valid date, taken apart.
proof fn lemma_disassemble(y: int, m: int, d: int)
    requires
        valid_date(y, m, d),
    ensures
        ({
            let yy = if m <= 2 {
                y - 1
            } else {
                y
            };
            let era = yy / 400;
            let yoe = yy % 400;
            let mp = if m > 2 {
                m - 3
            } else {
                m + 9
            };
            let doy = month_start(mp) + d - 1;
            &&& 0 <= yoe <= 399
            &&& 0 <= doy < march_year_len(yoe)
            &&& assemble(era, yoe, doy) == (y, m, d)
            &&& epoch_day(y, m, d) == 146097 * era + year_start(yoe) + doy - 719468
        }),
{
    let yy = if m <= 2 {
        y - 1
    } else {
        y
    };
    let era = yy / 400;
    let yoe = yy % 400;
    let mp = if m > 2 {
        m - 3
    } else {
        m + 9
    };
    let doy = month_start(mp) + d - 1;
    lemma_month_starts();
    assert(yy == 400 * era + yoe);
    lemma_march_leap(era, yoe);
    lemma_leaps_era(era, yoe);
    lemma_leaps_step(yy);
    assert(0 <= doy < march_year_len(yoe)) by {
        if m == 2 {
            assert(y == 400 * era + yoe + 1);
        }
    }
    assert(d - 1 < month_start(mp + 1) - month_start(mp));
    lemma_mp_of_inverse(mp as u32, (d - 1) as u32);
    assert(mp_of(doy) == mp);
}

/// At most one valid date lies on a given day.
pub proof fn lemma_epoch_day_injective(y1: int, m1: int, d1: int, y2: int, m2: int, d2: int)
    requires
        valid_date(y1, m1, d1),
        valid_date(y2, m2, d2),
        epoch_day(y1, m1, d1) == epoch_day(y2, m2, d2),
    ensures
        y1 == y2 && m1 == m2 && d1 == d2,
{
    lemma_disassemble(y1, m1, d1);
    lemma_disassemble(y2, m2, d2);
    let yy1 = if m1 <= 2 {
        y1 - 1
    } else {
        y1
    };
    let yy2 = if m2 <= 2 {
        y2 - 1
    } else {
        y2
    };
    let (era1, yoe1) = (yy1 / 400, yy1 % 400);
    let (era2, yoe2) = (yy2 / 400, yy2 % 400);
    let mp1 = if m1 > 2 {
        m1 - 3
    } else {
        m1 + 9
    };
    let mp2 = if m2 > 2 {
        m2 - 3
    } else {
        m2 + 9
    };
    let doy1 = month_start(mp1) + d1 - 1;
    let doy2 = month_start(mp2) + d2 - 1;
    let doe1 = year_start(yoe1) + doy1;
    let doe2 = year_start(yoe2) + doy2;
    lemma_yoe_of_inverse(yoe1 as u32, doy1 as u32);
    lemma_yoe_of_inverse(yoe2 as u32, doy2 as u32);
    assert(146097 * era1 + doe1 == 146097 * era2 + doe2);
    assert(era1 == era2 && doe1 == doe2) by (nonlinear_arith)
        requires
            146097 * era1 + doe1 == 146097 * era2 + doe2,
            0 <= doe1 < 146097,
            0 <= doe2 < 146097,
    ;
    assert(yoe1 == yoe2);
    assert(doy1 == doy2);
}

/// The proleptic Gregorian date of day `z` after 1970-01-01.
pub open spec fn date_of(z: int) -> (int, int, int) {
    choose|t: (int, int, int)| valid_date(t.0, t.1, t.2) && epoch_day(t.0, t.1, t.2) == z
}

/// Every day number has exactly one proleptic Gregorian date: `date_of(z)` is
/// valid and lies on day `z`.
pub proof fn lemma_date_of(z: int)
    ensures
        valid_date(date_of(z).0, date_of(z).1, date_of(z).2),
        epoch_day(date_of(z).0, date_of(z).1, date_of(z).2) == z,
{
    let zz = z + 719468;
    let era = zz / 146097;
    let doe = zz % 146097;
    lemma_yoe_of(doe as u32);
    let yoe = yoe_of(doe);
    let doy = doe - year_start(yoe);
    lemma_assemble(era, yoe, doy);
    let t = assemble(era, yoe, doy);
    assert(valid_date(t.0, t.1, t.2) && epoch_day(t.0, t.1, t.2) == z);
}

/// A valid date is the date of its own day number.
pub proof fn lemma_date_of_epoch_day(y: int, m: int, d: int)
    requires
        valid_date(y, m, d),
    ensures
        date_of(epoch_day(y, m, d)) == (y, m, d),
{
    let z = epoch_day(y, m, d);
    lemma_date_of(z);
    let t = date_of(z);
    lemma_epoch_day_injective(y, m, d, t.0, t.1, t.2);
}

/// The first of the next month lies `days_in_month(y, m)` days after the first
/// of month `m`.
pub proof fn lemma_month_length(y: int, m: int)
    requires
        1 <= m <= 12,
    ensures
        epoch_day(next_month(y, m).0, next_month(y, m).1, 1) == epoch_day(y, m, 1)
            + days_in_month(y, m),
{
    if m == 12 {
        lemma_leaps_step(y);
    }
}

/// A reset lies in the future, at 00:00 UTC of a day: for `daily` the day
/// after `now_ms`, for `monthly` the first day of the month after the one in
/// which `now_ms` falls.
pub proof fn lemma_next_reset_ahead(mode: Seq<char>, now_ms: int)
    requires
        now_ms >= 0,
    ensures
        next_reset(mode, now_ms) matches Some(r) ==> {
            &&& now_ms < r
            &&& r % 86400000 == 0
            &&& date_of(r / 86400000).2 == (if mode == "daily"@ {
                date_of(now_ms / 86400000 + 1).2
            } else {
                1
            })
        },
        mode == "daily"@ ==> next_reset(mode, now_ms) == Some((now_ms / 86400000 + 1) * 86400000),
{
    let day = reset_day(now_ms);
    assert(day == now_ms / 86400000) by (nonlinear_arith)
        requires
            now_ms >= 0,
            day == (now_ms / 1000) / 86400,
    ;
    assert(now_ms < (day + 1) * 86400000) by (nonlinear_arith)
        requires
            now_ms >= 0,
            day == now_ms / 86400000,
    ;
    if mode == "daily"@ {
        let r = (day + 1) * 86400 * 1000;
        assert(r % 86400000 == 0 && r / 86400000 == day + 1) by (nonlinear_arith)
            requires
                r == (day + 1) * 86400 * 1000,
        ;
    } else if mode == "monthly"@ {
        lemma_date_of(day);
        let t = date_of(day);
        let nm = next_month(t.0, t.1);
        lemma_month_length(t.0, t.1);
        let e = epoch_day(nm.0, nm.1, 1);
        assert(epoch_day(t.0, t.1, 1) == day - t.2 + 1);
        assert(e >= day + 1);
        let r = e * 86400 * 1000;
        assert(now_ms < r && r % 86400000 == 0 && r / 86400000 == e) by (nonlinear_arith)
            requires
                r == e * 86400 * 1000,
                e >= day + 1,
                now_ms < (day + 1) * 86400000,
        ;
        assert(valid_date(nm.0, nm.1, 1));
        lemma_date_of_epoch_day(nm.0, nm.1, 1);
    }
}

// ───────────────────────── conversions ─────────────────────────

/// Days since 1970-01-01 to (year, month, day) (H. Hinnant's `civil_from_days`).
pub fn civil_from_days(z: i64) -> (r: (i64, u32, u32))
    requires
        z <= i64::MAX - 719_468,
    ensures
        valid_date(r.0 as int, r.1 as int, r.2 as int),
        epoch_day(r.0 as int, r.1 as int, r.2 as int) == z,
        (r.0 as int, r.1 as int, r.2 as int) == date_of(z as int),
{
    let z = z + 719_468;
    let era = (if z >= 0 {
        z
    } else {
        z - 146_096
    }) / 146_097;
    proof {
        assert(era == z / 146097) by (nonlinear_arith)
            requires
                z >= 0 ==> era == z / 146097,
                z < 0 ==> era == -((146096 - z) / 146097),
        ;
        assert(0 <= z - era * 146097 < 146097) by (nonlinear_arith)
            requires
                era == z / 146097,
        ;
    }
    let doe = (z - era * 146_097) as u64;
    proof {
        lemma_yoe_of(doe as u32);
    }
    let yoe = (doe - doe / 1460 + doe / 36_524 - doe / 146_096) / 365;
    let y = yoe as i64 + era * 400;
    let doy = doe - (365 * yoe + yoe / 4 - yoe / 100);
    proof {
        lemma_mp_of(doy as u32);
    }
    let mp = (5 * doy + 2) / 153;
    let d = (doy - (153 * mp + 2) / 5 + 1) as u32;
    let m = (if mp < 10 {
        mp + 3
    } else {
        mp - 9
    }) as u32;
    let y = if m <= 2 {
        y + 1
    } else {
        y
    };
    proof {
        lemma_assemble(era as int, yoe as int, doy as int);
        assert((y as int, m as int, d as int) == assemble(era as int, yoe as int, doy as int));
        let t = (y as int, m as int, d as int);
        let c = date_of(z - 719468);
        assert(valid_date(t.0, t.1, t.2) && epoch_day(t.0, t.1, t.2) == z - 719468);
        lemma_epoch_day_injective(t.0, t.1, t.2, c.0, c.1, c.2);
    }
    (y, m, d)
}

/// Whether every intermediate value of `days_from_civil(y, m, d)` fits in `i64`.
pub open spec fn days_from_civil_fits(y: int, m: int, d: int) -> bool {
    let yy = if m <= 2 {
        y - 1
    } else {
        y
    };
    let era = yy / 400;
    &&& i64::MIN + 400 <= yy
    &&& i64::MIN <= 146097 * era - 719468
    &&& 146097 * era + 146097 + d <= i64::MAX
}

/// (year, month, day) to days since 1970-01-01 (H. Hinnant's `days_from_civil`).
pub fn days_from_civil(y: i64, m: u32, d: u32) -> (r: i64)
    requires
        1 <= m <= 12,
        m != 3 || d >= 1,
        days_from_civil_fits(y as int, m as int, d as int),
    ensures
        r == epoch_day(y as int, m as int, d as int),
{
    let y = if m <= 2 {
        y - 1
    } else {
        y
    };
    let era = (if y >= 0 {
        y
    } else {
        y - 399
    }) / 400;
    proof {
        assert(era == y / 400) by (nonlinear_arith)
            requires
                y >= 0 ==> era == y / 400,
                y < 0 ==> era == -((399 - y) / 400),
        ;
        assert(0 <= y - era * 400 < 400) by (nonlinear_arith)
            requires
                era == y / 400,
        ;
        assert(i64::MIN <= era * 146097 <= i64::MAX) by (nonlinear_arith)
            requires
                i64::MIN <= 146097 * era - 719468,
                146097 * era + 146097 <= i64::MAX,
        ;
    }
    let yoe = (y - era * 400) as u64;
    let m = m as u64;
    let d = d as u64;
    let mp = if m > 2 {
        m - 3
    } else {
        m + 9
    };
    let doy = (153 * mp + 2) / 5 + d - 1;
    let doe = yoe * 365 + yoe / 4 - yoe / 100 + doy;
    proof {
        lemma_month_starts();
        assert(mp <= 11);
        assert(doe <= 146096 + d);
        let yr = if m <= 2 {
            y + 1
        } else {
            y as int
        };
        lemma_leaps_era(era as int, yoe as int);
        lemma_leaps_step(y as int);
        assert(y as int == 400 * era + yoe);
    }
    era * 146_097 + doe as i64 - 719_468
}

// ───────────────────────── quota resets ─────────────────────────

/// The characters of an optional string.
pub open spec fn opt_chars(o: Option<&str>) -> Option<Seq<char>> {
    match o {
        Some(s) => Some(s@),
        None => None,
    }
}

/// The reset policy a `quota_reset` column names.
pub open spec fn reset_mode(quota_reset: Option<Seq<char>>) -> Seq<char> {
    match quota_reset {
        Some(s) => s,
        None => "none"@,
    }
}

/// The start (00:00 UTC) of the day in which `now_ms` falls, as the day count
/// the reset computation uses (`/` rounds toward zero, as in Rust).
pub open spec fn reset_day(now_ms: int) -> int {
    tdiv(tdiv(now_ms, 1000), 86400)
}

/// The next reset instant (ms since the epoch) of a quota under `mode` at
/// `now_ms`; `None` for `none`, the empty mode and any unknown mode.
/// `daily`: 00:00 UTC of the next day. `monthly`: 00:00 UTC of the first day
/// of the next month.
pub open spec fn next_reset(mode: Seq<char>, now_ms: int) -> Option<int> {
    let day = reset_day(now_ms);
    if mode == "daily"@ {
        Some((day + 1) * 86400 * 1000)
    } else if mode == "monthly"@ {
        let today = date_of(day);
        let nm = next_month(today.0, today.1);
        Some(epoch_day(nm.0, nm.1, 1) * 86400 * 1000)
    } else {
        None
    }
}

proof fn lemma_reset_day_bounds(now_ms: int)
    requires
        i64::MIN <= now_ms <= i64::MAX,
    ensures
        -106751991168 <= reset_day(now_ms) <= 106751991167,
        tdiv(now_ms, 1000) * 1 == tdiv(now_ms, 1000),
{
}

/// The next reset instant of a forward's quota (`quota_reset` is `none`,
/// `daily` or `monthly`; no value counts as `none`).
pub fn compute_next_reset_at_ms(quota_reset: Option<&str>, now_ms: i64) -> (r: Option<i64>)
    requires
        next_reset(reset_mode(opt_chars(quota_reset)), now_ms as int) matches Some(v) ==> i64::MIN
            <= v <= i64::MAX,
    ensures
        r matches Some(v) ==> next_reset(reset_mode(opt_chars(quota_reset)), now_ms as int)
            == Some(v as int),
        r is None ==> next_reset(reset_mode(opt_chars(quota_reset)), now_ms as int) is None,
{
    let mode = match quota_reset {
        Some(s) => chars_of(s),
        None => chars_of("none"),
    };
    let ghost mode_v = reset_mode(opt_chars(quota_reset));
    assert(mode@ == mode_v);
    let daily = chars_of("daily");
    let monthly = chars_of("monthly");
    let now_s = now_ms / 1000;
    let secs_per_day = 86_400i64;
    let day = now_s / secs_per_day;
    proof {
        assert(day == reset_day(now_ms as int));
        assert(-106751991168 <= day <= 106751991167) by (nonlinear_arith)
            requires
                day == reset_day(now_ms as int),
                i64::MIN <= now_ms <= i64::MAX,
        ;
    }
    if eq_chars(mode.as_slice(), daily.as_slice()) {
        let day_start = day * secs_per_day;
        Some((day_start + secs_per_day) * 1000)
    } else if eq_chars(mode.as_slice(), monthly.as_slice()) {
        let (y, m, _) = civil_from_days(day);
        let (ny, nm) = if m == 12 {
            (y + 1, 1u32)
        } else {
            (y, m + 1)
        };
        proof {
            assert(-300000000 <= y <= 300000000) by {
                let t = date_of(day as int);
                lemma_date_range(day as int, y as int, m as int);
            }
        }
        let next_first = days_from_civil(ny, nm, 1);
        Some(next_first * secs_per_day * 1000)
    } else {
        None
    }
}

/// Dates of days near the epoch have years near 1970.
proof fn lemma_date_range(z: int, y: int, m: int)
    requires
        -106751991168 <= z <= 106751991167,
        exists|d: int| valid_date(y, m, d) && epoch_day(y, m, d) == z,
    ensures
        -300000000 <= y <= 300000000,
{
    let d = choose|d: int| valid_date(y, m, d) && epoch_day(y, m, d) == z;
    assert(-300000000 <= y <= 300000000) by (nonlinear_arith)
        requires
            epoch_day(y, m, d) == z,
            -106751991168 <= z <= 106751991167,
            1 <= d <= 31,
            0 <= days_before_month(y, m) <= 335,
            epoch_day(y, m, d) == 365 * (y - 1970) + leaps_through(y - 1) - leaps_through(1969)
                + days_before_month(y, m) + d - 1,
    ;
}

} // verus!
