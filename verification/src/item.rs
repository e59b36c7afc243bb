//! The record type produced by the stream parser and consumed by the
//! indexer, together with the wall-clock date and time model and their
//! integer encodings (Julian day number, seconds from midnight).

use vstd::prelude::*;

verus! {

/// A wall-clock date in the proleptic Gregorian calendar, no timezone.
#[derive(Debug, Clone, Copy, PartialEq, Eq, Structural)]
pub struct Date {
    pub year: i32,
    pub month: u32,
    pub day: u32,
}

/// A wall-clock time of day, no timezone.
#[derive(Debug, Clone, Copy, PartialEq, Eq, Structural)]
pub struct Time {
    pub hour: u32,
    pub minute: u32,
    pub second: u32,
}

pub open spec fn is_leap_year(y: int) -> bool {
    y % 4 == 0 && (y % 100 != 0 || y % 400 == 0)
}

pub open spec fn days_in_month(y: int, m: int) -> int {
    if m == 2 {
        if is_leap_year(y) {
            29
        } else {
            28
        }
    } else if m == 4 || m == 6 || m == 9 || m == 11 {
        30
    } else {
        31
    }
}

/// The dates the index accepts: a four-digit year at most, so that the
/// integer encoding below stays well within `i64`.
pub open spec fn valid_date(d: Date) -> bool {
    &&& 1 <= d.year <= 9999
    &&& 1 <= d.month <= 12
    &&& 1 <= d.day <= days_in_month(d.year as int, d.month as int)
}

pub open spec fn valid_time(t: Time) -> bool {
    t.hour < 24 && t.minute < 60 && t.second < 60
}

/// The Julian day number of a date: the count of days since the epoch of
/// the Julian period (day 0 falls 2440588 days before 1970-01-01).  The
/// formula shifts the year to start in March so that the leap day is the
/// last day of the shifted year.
pub open spec fn julian_day(y: int, m: int, d: int) -> int
    recommends
        1 <= y,
        1 <= m <= 12,
{
    let yy = if m <= 2 {
        y - 1
    } else {
        y
    };
    let era = yy / 400;
    let yoe = yy - era * 400;
    let mp = if m > 2 {
        m - 3
    } else {
        m + 9
    };
    let doy = (153 * mp + 2) / 5 + d - 1;
    let doe = yoe * 365 + yoe / 4 - yoe / 100 + doy;
    era * 146097 + doe - 719468 + 2440588
}

/// Seconds from midnight.
pub open spec fn seconds_of(t: Time) -> int {
    t.hour * 3600 + t.minute * 60 + t.second
}

impl Date {
    /// The default used when the date field of a record is empty.
    pub fn first() -> (r: Date)
        ensures
            r == (Date { year: 1, month: 1, day: 1 }),
            valid_date(r),
    {
        Date { year: 1, month: 1, day: 1 }
    }

    pub fn is_valid(&self) -> (r: bool)
        ensures
            r == valid_date(*self),
    {
        let month_ok = 1 <= self.month && self.month <= 12;
        if !(1 <= self.year && self.year <= 9999 && month_ok) {
            return false;
        }
        let leap = self.year % 4 == 0 && (self.year % 100 != 0 || self.year % 400 == 0);
        let limit: u32 = if self.month == 2 {
            if leap {
                29
            } else {
                28
            }
        } else if self.month == 4 || self.month == 6 || self.month == 9 || self.month == 11 {
            30
        } else {
            31
        };
        1 <= self.day && self.day <= limit
    }
}

impl Time {
    /// The default used when a time or duration field is empty.
    pub fn midnight() -> (r: Time)
        ensures
            r == (Time { hour: 0, minute: 0, second: 0 }),
            valid_time(r),
    {
        Time { hour: 0, minute: 0, second: 0 }
    }

    pub fn is_valid(&self) -> (r: bool)
        ensures
            r == valid_time(*self),
    {
        self.hour < 24 && self.minute < 60 && self.second < 60
    }

    /// The integer encoding stored in a show row: seconds from midnight.
    pub fn seconds(&self) -> (r: u32)
        requires
            valid_time(*self),
        ensures
            r == seconds_of(*self),
            r < 86400,
    {
        self.hour * 3600 + self.minute * 60 + self.second
    }
}

/// The integer encoding of a date stored in a show row.
pub fn to_julian_day(date: &Date) -> (r: i64)
    requires
        valid_date(*date),
    ensures
        r == julian_day(date.year as int, date.month as int, date.day as int),
        0 < r < 5373900,
{
    let y: u64 = date.year as u64;
    let m: u64 = date.month as u64;
    let d: u64 = date.day as u64;
    let yy: u64 = if m <= 2 {
        y - 1
    } else {
        y
    };
    let era: u64 = yy / 400;
    let yoe: u64 = yy - era * 400;
    let mp: u64 = if m > 2 {
        m - 3
    } else {
        m + 9
    };
    let doy: u64 = (153 * mp + 2) / 5 + d - 1;
    let doe: u64 = yoe * 365 + yoe / 4 - yoe / 100 + doy;
    let days: u64 = era * 146097 + doe;
    (days as i64) - 719468 + 2440588
}

/// One show record: the parsed fields of a single catalog entry.
///
/// An empty `channel` or `topic` means "same as the previous record".
#[derive(Debug, Clone, PartialEq, Eq)]
pub struct Item {
    pub channel: String,
    pub topic: String,
    pub title: String,
    pub date: Date,
    pub time: Time,
    pub duration: Time,
    pub description: String,
    pub website: String,
    pub url: String,
    pub url_small: Option<String>,
    pub url_large: Option<String>,
}

/// The mathematical value of an `Item`: each string as its character
/// sequence.
pub struct ItemModel {
    pub channel: Seq<char>,
    pub topic: Seq<char>,
    pub title: Seq<char>,
    pub date: Date,
    pub time: Time,
    pub duration: Time,
    pub description: Seq<char>,
    pub website: Seq<char>,
    pub url: Seq<char>,
    pub url_small: Option<Seq<char>>,
    pub url_large: Option<Seq<char>>,
}

impl View for Item {
    type V = ItemModel;

    open spec fn view(&self) -> ItemModel {
        ItemModel {
            channel: self.channel@,
            topic: self.topic@,
            title: self.title@,
            date: self.date,
            time: self.time,
            duration: self.duration,
            description: self.description@,
            website: self.website@,
            url: self.url@,
            url_small: match self.url_small {
                Some(ref s) => Some(s@),
                None => None,
            },
            url_large: match self.url_large {
                Some(ref s) => Some(s@),
                None => None,
            },
        }
    }
}

/// The fields of an item that the integer encodings must accept.
pub open spec fn item_wf(m: ItemModel) -> bool {
    valid_date(m.date) && valid_time(m.time) && valid_time(m.duration)
}

impl Item {
    pub fn check_wf(&self) -> (r: bool)
        ensures
            r == item_wf(self@),
    {
        self.date.is_valid() && self.time.is_valid() && self.duration.is_valid()
    }
}

} // verus!
