//! Dates of the Gregorian calendar.
use vstd::arithmetic::div_mod::{lemma_fundamental_div_mod, lemma_fundamental_div_mod_converse};
use vstd::prelude::*;

use crate::text::{decimal, digits};

verus! {

/// Whether a year has a leap day.
pub open spec fn leap(y: int) -> bool {
    y % 4 == 0 && (y % 100 != 0 || y % 400 == 0)
}

/// Days of a month, counting from 1.
pub open spec fn month_days(y: int, m: int) -> int {
    if m == 2 {
        if leap(y) {
            29
        } else {
            28
        }
    } else if m == 4 || m == 6 || m == 9 || m == 11 {
        30
    } else {
        31
    }
}

/// Days from the start of year 0 to that of a year.
pub open spec fn days_to_year(y: int) -> int {
    365 * y + (y + 3) / 4 - (y + 99) / 100 + (y + 399) / 400
}

/// Days from the start of a year to that of a month.
pub open spec fn days_to_month(y: int, m: int) -> int
    decreases m,
{
    if m <= 1 {
        0
    } else {
        days_to_month(y, m - 1) + month_days(y, m - 1)
    }
}

/// A date is a year, a month of it, and a day of that.
pub open spec fn is_date(y: int, m: int, d: int) -> bool {
    1 <= m <= 12 && 1 <= d <= month_days(y, m)
}

/// Days from 1970-01-01 to a date.
pub open spec fn day_number(y: int, m: int, d: int) -> int {
    days_to_year(y) + days_to_month(y, m) + d - 1 - 719528
}

/// Zeros in front of a text, up to a width.
pub open spec fn zeros(s: Seq<char>, width: nat) -> Seq<char> {
    if s.len() >= width {
        s
    } else {
        Seq::new((width - s.len()) as nat, |i: int| '0') + s
    }
}

/// A year in at least four characters, its sign among them.
pub open spec fn year_text(y: int) -> Seq<char> {
    if y >= 0 {
        zeros(digits(y as nat), 4)
    } else {
        seq!['-'] + zeros(digits((-y) as nat), 3)
    }
}

/// A date as year-month-day.
pub open spec fn date_text(y: int, m: int, d: int) -> Seq<char> {
    year_text(y) + "-"@ + zeros(digits(m as nat), 2) + "-"@ + zeros(digits(d as nat), 2)
}

/// Days from the start of a year to that of a month, in closed form.
proof fn lemma_days_to_month(y: int, m: int)
    requires
        1 <= m <= 13,
    ensures
        days_to_month(y, m) == if m == 1 {
            0
        } else if m == 2 {
            31
        } else {
            59 + (if leap(y) {
                1int
            } else {
                0int
            }) + (153 * (m - 3) + 2) / 5
        },
    decreases m,
{
    if m > 1 {
        lemma_days_to_month(y, m - 1);
    }
}

/// How often a number of years comes round from one year to the next.
proof fn lemma_comes_round(y: int)
    ensures
        (y + 4) / 4 - (y + 3) / 4 == if y % 4 == 0 {
            1int
        } else {
            0int
        },
        (y + 100) / 100 - (y + 99) / 100 == if y % 100 == 0 {
            1int
        } else {
            0int
        },
        (y + 400) / 400 - (y + 399) / 400 == if y % 400 == 0 {
            1int
        } else {
            0int
        },
        y % 100 == 0 ==> y % 4 == 0,
        y % 400 == 0 ==> y % 100 == 0,
{
    lemma_round(y, 4);
    lemma_round(y, 100);
    lemma_round(y, 400);
    assert(y % 100 == 0 ==> y % 4 == 0);
    assert(y % 400 == 0 ==> y % 100 == 0);
}

/// How often a number comes round from one to the next.
proof fn lemma_round(y: int, k: int)
    requires
        k > 0,
    ensures
        (y + k) / k - (y + k - 1) / k == if y % k == 0 {
            1int
        } else {
            0int
        },
{
    let (q, r) = (y / k, y % k);
    lemma_fundamental_div_mod(y, k);
    assert(k * (q + 1) == k * q + k) by (nonlinear_arith);
    lemma_fundamental_div_mod_converse(y + k, k, q + 1, r);
    if r == 0 {
        lemma_fundamental_div_mod_converse(y + k - 1, k, q, k - 1);
    } else {
        lemma_fundamental_div_mod_converse(y + k - 1, k, q + 1, r - 1);
    }
}

/// A year has 365 days, or one more.
proof fn lemma_year(y: int)
    ensures
        days_to_year(y + 1) == days_to_year(y) + 365 + if leap(y) {
            1int
        } else {
            0int
        },
{
    lemma_comes_round(y);
}

/// Whole divisors more leave what is left over as it is.
proof fn lemma_whole_more(n: int, k: int, by: int)
    requires
        by > 0,
    ensures
        (n + k * by) / by == n / by + k,
        (n + k * by) % by == n % by,
{
    let (q, r) = (n / by, n % by);
    lemma_fundamental_div_mod(n, by);
    assert(n + k * by == (q + k) * by + r) by (nonlinear_arith)
        requires
            n == by * q + r,
    ;
    lemma_fundamental_div_mod_converse(n + k * by, by, q + k, r);
}

/// The years of an era start where they do in every era.
proof fn lemma_era(era: int, yoe: int)
    requires
        0 <= yoe < 400,
    ensures
        ({
            let y = yoe + era * 400;
            &&& days_to_year(y) + (if leap(y) {
                1int
            } else {
                0int
            }) == era * 146097 + era_days(yoe) + 1
            &&& leap(y + 1) <==> leap(yoe + 1)
            &&& leap(y) <==> leap(yoe)
        }),
{
    let y = yoe + era * 400;
    let start = days_to_year(y);
    assert(start == days_to_year(yoe) + era * 146097) by {
        lemma_whole_more(yoe + 3, era * 100, 4);
        lemma_whole_more(yoe + 99, era * 4, 100);
        lemma_whole_more(yoe + 399, era, 400);
    }
    assert(leap(y) == leap(yoe)) by {
        lemma_whole_more(yoe, era * 100, 4);
        lemma_whole_more(yoe, era * 4, 100);
        lemma_whole_more(yoe, era, 400);
    }
    assert(leap(y + 1) == leap(yoe + 1)) by {
        lemma_whole_more(yoe + 1, era * 100, 4);
        lemma_whole_more(yoe + 1, era * 4, 100);
        lemma_whole_more(yoe + 1, era, 400);
    }
    assert(days_to_year(yoe) + (if leap(yoe) {
        1int
    } else {
        0int
    }) == era_days(yoe) + 1) by {
        lemma_comes_round(yoe);
        lemma_whole_more(yoe, 1, 4);
        lemma_whole_more(yoe, 1, 100);
        lemma_whole_more(yoe, 1, 400);
        assert(yoe / 400 == 0);
    }
}

/// Days from the start of an era of 400 years, which starts in March, to that
/// of a year of it.
spec fn era_days(y: int) -> int {
    365 * y + y / 4 - y / 100
}

/// The year of an era that a day of it is in.
#[verifier::spinoff_prover]
proof fn lemma_year_of_era(day: int, y: int)
    requires
        0 <= day < 146097,
        y == (day - day / 1460 + day / 36524 - day / 146096) / 365,
    ensures
        0 <= y < 400,
        era_days(y) <= day,
        y < 399 ==> day < era_days(y + 1),
{
    let c = day / 36524;
    assert(0 <= c <= 4);
}

/// Writes a number with zeros in front, up to a width.
fn write_zeros(n: u64, width: usize) -> (s: String)
    requires
        width <= 8,
    ensures
        s@ == zeros(digits(n as nat), width as nat),
{
    let number = decimal(n);
    let len: usize = number.as_str().unicode_len();
    let mut s = String::new();
    let mut i: usize = len;
    assert(s@ =~= Seq::new(0, |i: int| '0'));
    while i < width
        invariant
            len <= i,
            i <= width || i == len,
            s@ == Seq::new((i - len) as nat, |i: int| '0'),
        decreases width - i,
    {
        s.push('0');
        i = i + 1;
        assert(s@ =~= Seq::new((i - len) as nat, |i: int| '0'));
    }
    s.append(&number);
    assert(s@ =~= zeros(digits(n as nat), width as nat));
    s
}

/// The date that a day is: the only one with that number.
pub fn civil(days: i64) -> (r: (i64, u64, u64))
    requires
        days <= i64::MAX - 719468,
    ensures
        is_date(r.0 as int, r.1 as int, r.2 as int),
        day_number(r.0 as int, r.1 as int, r.2 as int) == days,
        -30_000_000_000_000_000 <= r.0,
{
    // Count in 400-year eras of 146097 days, from a year that starts in March
    // so that leap days come last.
    let z: i64 = days + 719468;
    let era: i64 = floor_div(z);
    let day_of_era: i64 = z - era * 146097;
    let year_of_era: i64 = (day_of_era - day_of_era / 1460 + day_of_era / 36524 - day_of_era
        / 146096) / 365;
    proof {
        lemma_year_of_era(day_of_era as int, year_of_era as int);
    }
    let day_of_year: i64 = day_of_era - (365 * year_of_era + year_of_era / 4 - year_of_era / 100);
    let month_index: i64 = (5 * day_of_year + 2) / 153;
    let day: i64 = day_of_year - (153 * month_index + 2) / 5 + 1;
    let month: i64 = if month_index < 10 {
        month_index + 3
    } else {
        month_index - 9
    };
    let year: i64 = year_of_era + era * 400 + if month <= 2 {
        1
    } else {
        0
    };
    proof {
        lemma_civil(
            era as int,
            year_of_era as int,
            day_of_year as int,
            month_index as int,
            day as int,
        );
    }
    (year, month as u64, day as u64)
}

/// How many eras are behind a day, rounded down.
fn floor_div(z: i64) -> (era: i64)
    ensures
        era * 146097 <= z < era * 146097 + 146097,
{
    if z >= 0 {
        z / 146097
    } else {
        let n: i64 = -(z + 1);
        -(n / 146097) - 1
    }
}

/// The month and the day that a day of a year that starts in March is.
proof fn lemma_civil(era: int, yoe: int, doy: int, mp: int, d: int)
    requires
        0 <= yoe < 400,
        0 <= doy,
        yoe < 399 ==> era_days(yoe) + doy < era_days(yoe + 1),
        yoe == 399 ==> era_days(yoe) + doy < 146097,
        mp == (5 * doy + 2) / 153,
        d == doy - (153 * mp + 2) / 5 + 1,
    ensures
        0 <= mp <= 11,
        ({
            let m = if mp < 10 {
                mp + 3
            } else {
                mp - 9
            };
            let y = yoe + era * 400 + if m <= 2 {
                1int
            } else {
                0int
            };
            &&& is_date(y, m, d)
            &&& day_number(y, m, d) == era * 146097 + era_days(yoe) + doy - 719468
        }),
{
    let first = yoe + era * 400;
    lemma_year(first);
    lemma_era(era, yoe);
    lemma_last_day(yoe, doy);
    assert(0 <= mp <= 11);
    let m = if mp < 10 {
        mp + 3
    } else {
        mp - 9
    };
    lemma_days_to_month(first, m);
    lemma_days_to_month(first + 1, m);
    lemma_month(doy, mp, d);
}

/// A year that starts in March has 365 days, or one more where the next
/// February does.
proof fn lemma_last_day(yoe: int, doy: int)
    requires
        0 <= yoe < 400,
        yoe < 399 ==> era_days(yoe) + doy < era_days(yoe + 1),
        yoe == 399 ==> era_days(yoe) + doy < 146097,
    ensures
        doy <= 365,
        doy == 365 ==> leap(yoe + 1),
{
    let y = yoe + 1;
    assert(y / 4 - yoe / 4 == if y % 4 == 0 {
        1int
    } else {
        0int
    });
    assert(y / 100 - yoe / 100 == if y % 100 == 0 {
        1int
    } else {
        0int
    });
}

/// The day of a month is one that it has.
proof fn lemma_month(doy: int, mp: int, d: int)
    requires
        0 <= doy <= 365,
        mp == (5 * doy + 2) / 153,
        d == doy - (153 * mp + 2) / 5 + 1,
    ensures
        0 <= mp <= 11,
        1 <= d,
        mp == 11 ==> d <= 29,
        mp == 11 && d == 29 ==> doy == 365,
        mp == 1 || mp == 3 || mp == 6 || mp == 8 ==> d <= 30,
        d <= 31,
{
}

/// The date `days` after 1970-01-01, as year-month-day.
pub fn date(days: i64) -> (s: String)
    requires
        days <= i64::MAX - 719468,
    ensures
        exists|y: int, m: int, d: int|
            is_date(y, m, d) && day_number(y, m, d) == days && s@ == #[trigger] date_text(y, m, d),
{
    let (year, month, day) = civil(days);
    let mut s = String::new();
    if year >= 0 {
        s.append(&write_zeros(year as u64, 4));
        assert(s@ =~= year_text(year as int));
    } else {
        s.push('-');
        s.append(&write_zeros((-year) as u64, 3));
        assert(s@ =~= year_text(year as int));
    }
    s.append("-");
    s.append(&write_zeros(month, 2));
    s.append("-");
    s.append(&write_zeros(day, 2));
    assert(s@ == date_text(year as int, month as int, day as int));
    s
}

/// Years take at least 365 days each.
proof fn lemma_years_grow(y: int, z: int)
    requires
        y <= z,
    ensures
        days_to_year(y) + 365 * (z - y) <= days_to_year(z),
    decreases z - y,
{
    if y < z {
        lemma_years_grow(y, z - 1);
        lemma_year(z - 1);
    }
}

/// A date is in its year.
proof fn lemma_in_year(y: int, m: int, d: int)
    requires
        is_date(y, m, d),
    ensures
        0 <= days_to_month(y, m) + d - 1 < 365 + if leap(y) {
            1int
        } else {
            0int
        },
{
    lemma_days_to_month(y, m);
}

/// A day is one date: of two that have the same number, neither the year, the
/// month nor the day differs.
pub proof fn law_one_date(y: int, m: int, d: int, y2: int, m2: int, d2: int)
    requires
        is_date(y, m, d),
        is_date(y2, m2, d2),
        day_number(y, m, d) == day_number(y2, m2, d2),
    ensures
        y == y2,
        m == m2,
        d == d2,
{
    lemma_in_year(y, m, d);
    lemma_in_year(y2, m2, d2);
    lemma_year(y);
    lemma_year(y2);
    if y < y2 {
        lemma_years_grow(y + 1, y2);
    } else if y2 < y {
        lemma_years_grow(y2 + 1, y);
    }
    lemma_days_to_month(y, m);
    lemma_days_to_month(y, m2);
}

/// The date after a date is a day later: the next of its month, the first of
/// the next month behind its last, and of the next year behind December's.
pub proof fn law_next_day(y: int, m: int, d: int)
    requires
        is_date(y, m, d),
    ensures
        ({
            let (y2, m2, d2) = if d < month_days(y, m) {
                (y, m, d + 1)
            } else if m < 12 {
                (y, m + 1, 1)
            } else {
                (y + 1, 1, 1)
            };
            is_date(y2, m2, d2) && day_number(y2, m2, d2) == day_number(y, m, d) + 1
        }),
{
    lemma_year(y);
    lemma_days_to_month(y, 12);
}

/// Days are counted from the first of 1970, and 400 years are 146097 of them:
/// every fourth year has a day more, but of the last years of centuries only
/// every fourth.
pub proof fn law_days_are_counted(y: int, m: int, d: int)
    requires
        is_date(y, m, d),
    ensures
        day_number(y + 400, m, d) == day_number(y, m, d) + 146097,
        y == 1970 && m == 1 && d == 1 ==> day_number(y, m, d) == 0,
        month_days(y, 2) == if y % 4 == 0 && (y % 100 != 0 || y % 400 == 0) {
            29int
        } else {
            28
        },
{
    lemma_four_centuries(y);
    lemma_same_months(y, y + 400, m);
    if y == 1970 && m == 1 && d == 1 {
        assert(days_to_year(1970) == 719528);
        assert(days_to_month(1970, 1) == 0);
    }
}

/// Four centuries on, years come round.
proof fn lemma_four_centuries(y: int)
    ensures
        leap(y + 400) == leap(y),
        days_to_year(y + 400) == days_to_year(y) + 146097,
{
    assert(leap(y + 400) == leap(y)) by {
        lemma_whole_more(y, 100, 4);
        lemma_whole_more(y, 4, 100);
        lemma_whole_more(y, 1, 400);
    }
    assert(days_to_year(y + 400) == days_to_year(y) + 146097) by {
        lemma_whole_more(y + 3, 100, 4);
        lemma_whole_more(y + 99, 4, 100);
        lemma_whole_more(y + 399, 1, 400);
    }
}

/// Years that are leap years alike have months alike.
proof fn lemma_same_months(y: int, z: int, m: int)
    requires
        leap(y) == leap(z),
    ensures
        days_to_month(y, m) == days_to_month(z, m),
    decreases m,
{
    if m > 1 {
        lemma_same_months(y, z, m - 1);
    }
}

} // verus!
