//! Calendar dates as plain year/month/day values, with the validity rules,
//! ordering, day arithmetic and the two renderings the adapters need.

use vstd::prelude::*;

use chrono::Datelike;

use crate::text::{dec_digits_pad, push_u32_pad};

verus! {

/// A calendar date. `year` is the full four-digit year.
#[derive(Clone, Copy, PartialEq, Eq, Structural, Debug)]
pub struct Date {
    pub year: u32,
    pub month: u32,
    pub day: u32,
}

pub open spec fn spec_is_leap_year(y: u32) -> bool {
    (y % 4 == 0 && y % 100 != 0) || y % 400 == 0
}

pub open spec fn spec_days_in_month(y: u32, m: u32) -> u32 {
    if m == 2 {
        if spec_is_leap_year(y) {
            29
        } else {
            28
        }
    } else if m == 4 || m == 6 || m == 9 || m == 11 {
        30
    } else {
        31
    }
}

impl Date {
    /// Validity: a real calendar day with a four-digit year.
    pub open spec fn valid(self) -> bool {
        1 <= self.year <= 9999 && 1 <= self.month <= 12 && 1 <= self.day
            <= spec_days_in_month(self.year, self.month)
    }

    /// Total order on dates via the obvious numeric key.
    pub open spec fn key(self) -> int {
        self.year * 10000 + self.month * 100 + self.day
    }

    pub open spec fn spec_le(self, other: Date) -> bool {
        self.key() <= other.key()
    }

    /// The next calendar day.
    pub open spec fn spec_succ(self) -> Date {
        if self.day < spec_days_in_month(self.year, self.month) {
            Date { year: self.year, month: self.month, day: (self.day + 1) as u32 }
        } else if self.month < 12 {
            Date { year: self.year, month: (self.month + 1) as u32, day: 1 }
        } else {
            Date { year: (self.year + 1) as u32, month: 1, day: 1 }
        }
    }

    /// ISO rendering, `YYYY-MM-DD`.
    pub open spec fn spec_iso(self) -> Seq<char> {
        dec_digits_pad(self.year as nat, 4) + seq!['-'] + dec_digits_pad(self.month as nat, 2)
            + seq!['-'] + dec_digits_pad(self.day as nat, 2)
    }

    /// United States rendering, `MM/DD/YYYY`.
    pub open spec fn spec_mdy(self) -> Seq<char> {
        dec_digits_pad(self.month as nat, 2) + seq!['/'] + dec_digits_pad(self.day as nat, 2)
            + seq!['/'] + dec_digits_pad(self.year as nat, 4)
    }

    /// The only constructor: `Some` exactly for valid calendar days.
    pub fn new(year: u32, month: u32, day: u32) -> (r: Option<Date>)
        ensures
            match r {
                Some(d) => d == (Date { year, month, day }) && d.valid(),
                None => !(Date { year, month, day }).valid(),
            },
    {
        let d = Date { year, month, day };
        if 1 <= year && year <= 9999 && 1 <= month && month <= 12 && 1 <= day && day
            <= days_in_month(year, month) {
            Some(d)
        } else {
            None
        }
    }

    pub fn le(&self, other: &Date) -> (r: bool)
        requires
            self.valid(),
            other.valid(),
        ensures
            r == self.spec_le(*other),
    {
        let a: u64 = self.year as u64 * 10000 + self.month as u64 * 100 + self.day as u64;
        let b: u64 = other.year as u64 * 10000 + other.month as u64 * 100 + other.day as u64;
        a <= b
    }

    pub fn lt(&self, other: &Date) -> (r: bool)
        requires
            self.valid(),
            other.valid(),
        ensures
            r == (self.spec_le(*other) && *self != *other),
    {
        let a: u64 = self.year as u64 * 10000 + self.month as u64 * 100 + self.day as u64;
        let b: u64 = other.year as u64 * 10000 + other.month as u64 * 100 + other.day as u64;
        a < b
    }

    /// The next calendar day; the last representable day has no successor.
    pub fn succ(&self) -> (r: Date)
        requires
            self.valid(),
            !(self.year == 9999 && self.month == 12 && self.day == 31),
        ensures
            r == self.spec_succ(),
            r.valid(),
    {
        if self.day < days_in_month(self.year, self.month) {
            Date { year: self.year, month: self.month, day: self.day + 1 }
        } else if self.month < 12 {
            Date { year: self.year, month: self.month + 1, day: 1 }
        } else {
            Date { year: self.year + 1, month: 1, day: 1 }
        }
    }

    pub fn format_iso(&self) -> (s: String)
        ensures
            s@ == self.spec_iso(),
    {
        let mut s = String::new();
        push_u32_pad(&mut s, self.year, 4);
        s.push('-');
        push_u32_pad(&mut s, self.month, 2);
        s.push('-');
        push_u32_pad(&mut s, self.day, 2);
        proof {
            assert(s@ =~= self.spec_iso());
        }
        s
    }

    pub fn format_mdy(&self) -> (s: String)
        ensures
            s@ == self.spec_mdy(),
    {
        let mut s = String::new();
        push_u32_pad(&mut s, self.month, 2);
        s.push('/');
        push_u32_pad(&mut s, self.day, 2);
        s.push('/');
        push_u32_pad(&mut s, self.year, 4);
        proof {
            assert(s@ =~= self.spec_mdy());
        }
        s
    }
}

pub fn days_in_month(y: u32, m: u32) -> (r: u32)
    ensures
        r == spec_days_in_month(y, m),
{
    if m == 2 {
        if (y % 4 == 0 && y % 100 != 0) || y % 400 == 0 {
            29
        } else {
            28
        }
    } else if m == 4 || m == 6 || m == 9 || m == 11 {
        30
    } else {
        31
    }
}

/// Relies on chrono's `Local::now` and `NaiveDate::date_naive`: the process
/// clock, read as a local calendar date. The clock can hold anything, so
/// nothing is promised of the value.
#[verifier::external_body]
fn now_ymd() -> (r: (i64, u32, u32)) {
    let now = chrono::Local::now().date_naive();
    (now.year() as i64, now.month(), now.day())
}

/// "Today" by the local process clock, checked into a valid date; a clock
/// reading outside the representable range falls back to the sync epoch.
pub fn today() -> (d: Date)
    ensures
        d.valid(),
{
    let (y, m, dd) = now_ymd();
    if 1 <= y && y <= 9999 {
        match Date::new(y as u32, m, dd) {
            Some(d) => d,
            None => Date { year: 2008, month: 1, day: 1 },
        }
    } else {
        Date { year: 2008, month: 1, day: 1 }
    }
}

} // verus!
