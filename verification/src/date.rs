//! Calendar truncation for date bucketing.
//!
//! Timestamps are seconds since the Unix epoch, read as UTC, proleptic
//! Gregorian.  Each granularity maps a timestamp to an integer key (the
//! hour, day, month or year it falls in), and each key has one fixed-width,
//! sortable label; ascending keys are ascending in time.

use vstd::prelude::*;
use crate::entry::DateGranularity;
use crate::text::{padded, push_padded, string_push};

verus! {

pub open spec fn is_leap_year(y: nat) -> bool {
    y % 4 == 0 && (y % 100 != 0 || y % 400 == 0)
}

pub open spec fn days_in_year(y: nat) -> nat {
    if is_leap_year(y) {
        366
    } else {
        365
    }
}

pub open spec fn days_in_month(y: nat, m: nat) -> nat {
    if m == 2 {
        if is_leap_year(y) {
            29
        } else {
            28
        }
    } else if m == 4 || m == 6 || m == 9 || m == 11 {
        30
    } else {
        31
    }
}

/// Walks year by year from `y` until the day count lands inside one;
/// returns that year and the remaining day index within it.
pub open spec fn year_split(days: nat, y: nat) -> (nat, nat)
    decreases days,
{
    if days < days_in_year(y) {
        (y, days)
    } else {
        year_split((days - days_in_year(y)) as nat, y + 1)
    }
}

/// Walks month by month from `m` until the day index lands inside one;
/// returns that month and the remaining zero-based day index.
pub open spec fn month_split(y: nat, doy: nat, m: nat) -> (nat, nat)
    decreases doy,
{
    if doy < days_in_month(y, m) {
        (m, doy)
    } else {
        month_split(y, (doy - days_in_month(y, m)) as nat, m + 1)
    }
}

/// The civil date (year, month, day) of a day count from the epoch.
pub open spec fn civil_of_days(days: nat) -> (nat, nat, nat) {
    let ys = year_split(days, 1970);
    let ms = month_split(ys.0, ys.1, 1);
    (ys.0, ms.0, (ms.1 + 1) as nat)
}

/// The days of the months of `y` from `m` onward.
pub open spec fn sum_months_from(y: nat, m: nat) -> nat
    decreases 13int - m,
    when m <= 13
{
    if m >= 13 {
        0
    } else {
        days_in_month(y, m) + sum_months_from(y, (m + 1) as nat)
    }
}

proof fn lemma_year_months(y: nat)
    ensures
        sum_months_from(y, 1) == days_in_year(y),
{
    reveal_with_fuel(sum_months_from, 14);
}

/// The bucket key a timestamp truncates to under a granularity: the index
/// of its hour, day, month or year.  Keys grow with time, so ascending
/// keys are chronological.
pub open spec fn date_key(ts: u64, g: DateGranularity) -> nat {
    let days = (ts / 86400) as nat;
    match g {
        DateGranularity::Hour => (days * 24 + (ts % 86400) / 3600) as nat,
        DateGranularity::Day => days,
        DateGranularity::Month => {
            let c = civil_of_days(days);
            (c.0 * 12 + (c.1 - 1)) as nat
        },
        DateGranularity::Year => civil_of_days(days).0,
    }
}

/// The fixed-width label of a bucket key: `YYYY`, `YYYY-MM`, `YYYY-MM-DD`
/// or `YYYY-MM-DD-HH`.
pub open spec fn label_of_key(key: nat, g: DateGranularity) -> Seq<char> {
    match g {
        DateGranularity::Year => padded(key, 4),
        DateGranularity::Month => padded(key / 12, 4) + seq!['-'] + padded((key % 12 + 1) as nat, 2),
        DateGranularity::Day => {
            let c = civil_of_days(key);
            padded(c.0, 4) + seq!['-'] + padded(c.1, 2) + seq!['-'] + padded(c.2, 2)
        },
        DateGranularity::Hour => {
            let c = civil_of_days((key / 24) as nat);
            padded(c.0, 4) + seq!['-'] + padded(c.1, 2) + seq!['-'] + padded(c.2, 2) + seq!['-']
                + padded((key % 24) as nat, 2)
        },
    }
}

fn days_in_year_exec(y: u64) -> (r: u64)
    ensures
        r == days_in_year(y as nat),
{
    if y % 4 == 0 && (y % 100 != 0 || y % 400 == 0) {
        366
    } else {
        365
    }
}

fn days_in_month_exec(y: u64, m: u64) -> (r: u64)
    ensures
        r == days_in_month(y as nat, m as nat),
{
    if m == 2 {
        if y % 4 == 0 && (y % 100 != 0 || y % 400 == 0) {
            29
        } else {
            28
        }
    } else if m == 4 || m == 6 || m == 9 || m == 11 {
        30
    } else {
        31
    }
}

/// The civil date of a day count from the epoch.
pub fn civil_from_days(days: u64) -> (r: (u64, u64, u64))
    ensures
        (r.0 as nat, r.1 as nat, r.2 as nat) == civil_of_days(days as nat),
        1970 <= r.0,
        1 <= r.1 <= 12,
        1 <= r.2 <= 31,
{
    let mut y: u64 = 1970;
    let mut rem: u64 = days;
    while rem >= days_in_year_exec(y)
        invariant
            1970 <= y,
            rem <= days,
            (y - 1970) * 365 <= days - rem,
            year_split(days as nat, 1970) == year_split(rem as nat, y as nat),
        decreases rem,
    {
        let diy = days_in_year_exec(y);
        rem = rem - diy;
        y = y + 1;
    }
    let ghost doy = rem as nat;
    proof {
        assert(year_split(rem as nat, y as nat) == (y as nat, rem as nat));
        lemma_year_months(y as nat);
    }
    let mut m: u64 = 1;
    while rem >= days_in_month_exec(y, m)
        invariant
            1 <= m <= 12,
            rem < sum_months_from(y as nat, m as nat),
            month_split(y as nat, doy, 1) == month_split(y as nat, rem as nat, m as nat),
        decreases rem,
    {
        let dim = days_in_month_exec(y, m);
        proof {
            assert(sum_months_from(y as nat, m as nat) == days_in_month(y as nat, m as nat)
                + sum_months_from(y as nat, (m + 1) as nat));
            if m == 12 {
                assert(sum_months_from(y as nat, 13) == 0);
                assert(false);
            }
        }
        rem = rem - dim;
        m = m + 1;
    }
    let d = rem + 1;
    proof {
        assert(month_split(y as nat, rem as nat, m as nat) == (m as nat, rem as nat));
    }
    (y, m, d)
}

/// The bucket key of a timestamp under a granularity.
pub fn date_key_of(ts: u64, g: DateGranularity) -> (r: u64)
    ensures
        r as nat == date_key(ts, g),
{
    let days = ts / 86400;
    match g {
        DateGranularity::Hour => {
            proof {
                assert(days <= 0xFFFFFFFFFFFFFFFFu64 / 86400);
                assert((ts % 86400) / 3600 < 24);
            }
            days * 24 + (ts % 86400) / 3600
        },
        DateGranularity::Day => days,
        DateGranularity::Month => {
            let c = civil_from_days(days);
            proof {
                lemma_year_split_bound(days as nat, 1970);
            }
            c.0 * 12 + (c.1 - 1)
        },
        DateGranularity::Year => civil_from_days(days).0,
    }
}

pub proof fn lemma_year_split_bound(days: nat, y: nat)
    ensures
        y <= year_split(days, y).0 <= y + days,
        year_split(days, y).1 <= days,
    decreases days,
{
    if days >= days_in_year(y) {
        lemma_year_split_bound((days - days_in_year(y)) as nat, y + 1);
    }
}

/// The label of a bucket key, as a string.
pub fn label_of_key_exec(key: u64, g: DateGranularity) -> (r: String)
    ensures
        r@ == label_of_key(key as nat, g),
{
    let mut s = String::new();
    match g {
        DateGranularity::Year => {
            push_padded(&mut s, key, 4);
            proof {
                assert(s@ =~= label_of_key(key as nat, g));
            }
        },
        DateGranularity::Month => {
            push_padded(&mut s, key / 12, 4);
            string_push(&mut s, '-');
            push_padded(&mut s, key % 12 + 1, 2);
            proof {
                assert(s@ =~= label_of_key(key as nat, g));
            }
        },
        DateGranularity::Day => {
            let c = civil_from_days(key);
            push_padded(&mut s, c.0, 4);
            string_push(&mut s, '-');
            push_padded(&mut s, c.1, 2);
            string_push(&mut s, '-');
            push_padded(&mut s, c.2, 2);
            proof {
                assert(s@ =~= label_of_key(key as nat, g));
            }
        },
        DateGranularity::Hour => {
            let c = civil_from_days(key / 24);
            push_padded(&mut s, c.0, 4);
            string_push(&mut s, '-');
            push_padded(&mut s, c.1, 2);
            string_push(&mut s, '-');
            push_padded(&mut s, c.2, 2);
            string_push(&mut s, '-');
            push_padded(&mut s, key % 24, 2);
            proof {
                assert(s@ =~= label_of_key(key as nat, g));
            }
        },
    }
    s
}

proof fn lemma_year_split_rem(days: nat, y: nat)
    ensures
        year_split(days, y).1 < days_in_year(year_split(days, y).0),
    decreases days,
{
    if days >= days_in_year(y) {
        lemma_year_split_rem((days - days_in_year(y)) as nat, y + 1);
    }
}

proof fn lemma_year_split_monotone(d1: nat, d2: nat, y: nat)
    requires
        d1 <= d2,
    ensures
        year_split(d1, y).0 <= year_split(d2, y).0,
    decreases d1,
{
    if d1 < days_in_year(y) {
        lemma_year_split_bound(d2, y);
    } else {
        lemma_year_split_monotone(
            (d1 - days_in_year(y)) as nat,
            (d2 - days_in_year(y)) as nat,
            y + 1,
        );
    }
}

proof fn lemma_year_split_same_year(d1: nat, d2: nat, y: nat)
    requires
        d1 <= d2,
        year_split(d1, y).0 == year_split(d2, y).0,
    ensures
        year_split(d1, y).1 <= year_split(d2, y).1,
    decreases d1,
{
    if d1 < days_in_year(y) {
        if d2 >= days_in_year(y) {
            lemma_year_split_bound((d2 - days_in_year(y)) as nat, y + 1);
            assert(false);
        }
    } else {
        lemma_year_split_same_year(
            (d1 - days_in_year(y)) as nat,
            (d2 - days_in_year(y)) as nat,
            y + 1,
        );
    }
}

proof fn lemma_month_split_bound(y: nat, doy: nat, m: nat)
    ensures
        m <= month_split(y, doy, m).0,
    decreases doy,
{
    if doy >= days_in_month(y, m) {
        lemma_month_split_bound(y, (doy - days_in_month(y, m)) as nat, m + 1);
    }
}

proof fn lemma_month_split_in_year(y: nat, doy: nat, m: nat)
    requires
        1 <= m <= 12,
        doy < sum_months_from(y, m),
    ensures
        m <= month_split(y, doy, m).0 <= 12,
    decreases doy,
{
    assert(sum_months_from(y, m) == days_in_month(y, m) + sum_months_from(y, (m + 1) as nat));
    if doy >= days_in_month(y, m) {
        if m == 12 {
            assert(sum_months_from(y, 13) == 0);
            assert(false);
        }
        lemma_month_split_in_year(y, (doy - days_in_month(y, m)) as nat, (m + 1) as nat);
    }
}

proof fn lemma_month_split_monotone(y: nat, d1: nat, d2: nat, m: nat)
    requires
        d1 <= d2,
    ensures
        month_split(y, d1, m).0 <= month_split(y, d2, m).0,
    decreases d1,
{
    if d1 < days_in_month(y, m) {
        lemma_month_split_bound(y, d2, m);
    } else {
        lemma_month_split_monotone(
            y,
            (d1 - days_in_month(y, m)) as nat,
            (d2 - days_in_month(y, m)) as nat,
            m + 1,
        );
    }
}

/// Bucket keys are chronological: a later timestamp never truncates to an
/// earlier key, under any granularity.
pub proof fn lemma_date_key_monotone(ts1: u64, ts2: u64, g: DateGranularity)
    requires
        ts1 <= ts2,
    ensures
        date_key(ts1, g) <= date_key(ts2, g),
{
    vstd::arithmetic::div_mod::lemma_div_is_ordered(ts1 as int, ts2 as int, 86400);
    let d1 = (ts1 / 86400) as nat;
    let d2 = (ts2 / 86400) as nat;
    match g {
        DateGranularity::Day => {},
        DateGranularity::Hour => {
            let h1 = ((ts1 % 86400) / 3600) as nat;
            let h2 = ((ts2 % 86400) / 3600) as nat;
            assert(h1 < 24 && h2 < 24) by {
                assert(ts1 % 86400 < 86400);
                assert(ts2 % 86400 < 86400);
            }
            if d1 == d2 {
                assert(ts1 % 86400 <= ts2 % 86400) by {
                    assert(ts1 == 86400 * (ts1 as int / 86400) + ts1 as int % 86400) by {
                        vstd::arithmetic::div_mod::lemma_fundamental_div_mod(ts1 as int, 86400);
                    }
                    assert(ts2 == 86400 * (ts2 as int / 86400) + ts2 as int % 86400) by {
                        vstd::arithmetic::div_mod::lemma_fundamental_div_mod(ts2 as int, 86400);
                    }
                }
                vstd::arithmetic::div_mod::lemma_div_is_ordered(
                    (ts1 % 86400) as int,
                    (ts2 % 86400) as int,
                    3600,
                );
            } else {
                assert(d1 * 24 + 24 <= d2 * 24) by (nonlinear_arith)
                    requires
                        d1 < d2,
                ;
            }
        },
        DateGranularity::Year => {
            lemma_year_split_monotone(d1, d2, 1970);
        },
        DateGranularity::Month => {
            lemma_year_split_monotone(d1, d2, 1970);
            let c1 = civil_of_days(d1);
            let c2 = civil_of_days(d2);
            lemma_year_split_rem(d1, 1970);
            lemma_year_split_rem(d2, 1970);
            lemma_year_months(year_split(d1, 1970).0);
            lemma_year_months(year_split(d2, 1970).0);
            lemma_month_split_in_year(year_split(d1, 1970).0, year_split(d1, 1970).1, 1);
            lemma_month_split_in_year(year_split(d2, 1970).0, year_split(d2, 1970).1, 1);
            lemma_month_split_bound(year_split(d1, 1970).0, year_split(d1, 1970).1, 1);
            lemma_month_split_bound(year_split(d2, 1970).0, year_split(d2, 1970).1, 1);
            if c1.0 == c2.0 {
                lemma_year_split_same_year(d1, d2, 1970);
                lemma_month_split_monotone(c1.0, year_split(d1, 1970).1, year_split(d2, 1970).1, 1);
            } else {
                assert(c1.0 * 12 + 12 <= c2.0 * 12) by (nonlinear_arith)
                    requires
                        c1.0 < c2.0,
                ;
            }
        },
    }
}

} // verus!
