//! Time stamps: the clock, calendar dates and times of day, and the stamps kept in a file
//! control block.

use vstd::prelude::*;
use vstd::string::StringSliceAdditionalSpecFns;

use chrono::Datelike;
use chrono::NaiveDate;
use chrono::NaiveDateTime;
use chrono::NaiveTime;
use chrono::Timelike;
use chrono::Utc;

use crate::error::FsError;
use crate::fs::attr_of_kind;
use crate::fs::date_pack;
use crate::fs::time_pack;
use crate::fs::Fcb;
use crate::fs::FcbAttr;
use crate::fs::ClusterId;
use crate::fs::NodeKind;
use crate::fs::U16Date;
use crate::fs::U16Time;
use crate::name::short_name_spec;
use crate::name::ShortName;

verus! {

#[verifier::external_type_specification]
#[verifier::external_body]
pub struct ExNaiveDate(NaiveDate);

#[verifier::external_type_specification]
#[verifier::external_body]
pub struct ExNaiveTime(NaiveTime);

#[verifier::external_type_specification]
#[verifier::external_body]
pub struct ExNaiveDateTime(NaiveDateTime);

/// A UTC date and time of day, as calendar fields.
#[derive(Debug, Clone, Copy, PartialEq, Eq, Structural)]
pub struct UtcDateTime {
    pub year: i32,
    pub month: u32,
    pub day: u32,
    pub hour: u32,
    pub minute: u32,
    pub second: u32,
}

impl UtcDateTime {
    /// Are the fields within their ranges?
    pub open spec fn valid(&self) -> bool {
        &&& 1 <= self.month <= 12
        &&& 1 <= self.day <= 31
        &&& self.hour <= 23
        &&& self.minute <= 59
        &&& self.second <= 59
    }

    /// Calls `Utc::now` and reads the calendar fields of the time it returns
    /// (`Datelike::year`, `month`, `day`, `Timelike::hour`, `minute`, `second`). Claimed: each
    /// field lies in its documented range (month 1 to 12, day 1 to 31, hour 0 to 23, minute and
    /// second 0 to 59); nothing is claimed of which time it is.
    #[verifier::external_body]
    pub(crate) fn now() -> (r: UtcDateTime)
        ensures
            r.valid(),
    {
        let t = Utc::now();
        UtcDateTime {
            year: t.year(),
            month: t.month(),
            day: t.day(),
            hour: t.hour(),
            minute: t.minute(),
            second: t.second(),
        }
    }
}

/// The year of a calendar date, as `Datelike::year` gives it.
pub uninterp spec fn date_year_of(d: NaiveDate) -> i32;

/// The month of a calendar date, as `Datelike::month` gives it.
pub uninterp spec fn date_month_of(d: NaiveDate) -> u32;

/// The day of the month of a calendar date, as `Datelike::day` gives it.
pub uninterp spec fn date_day_of(d: NaiveDate) -> u32;

/// The hour of a time of day, as `Timelike::hour` gives it.
pub uninterp spec fn time_hour_of(t: NaiveTime) -> u32;

/// The minute of a time of day, as `Timelike::minute` gives it.
pub uninterp spec fn time_minute_of(t: NaiveTime) -> u32;

/// The second of a time of day, as `Timelike::second` gives it.
pub uninterp spec fn time_second_of(t: NaiveTime) -> u32;

/// The date and time that `NaiveDateTime::new` joins from a date and a time of day.
pub uninterp spec fn datetime_of(d: NaiveDate, t: NaiveTime) -> NaiveDateTime;

/// Calls `Datelike::year` on a calendar date. Claimed: the result is the date's year, named
/// [`date_year_of`].
#[verifier::external_body]
fn naive_year(d: &NaiveDate) -> (r: i32)
    ensures
        r == date_year_of(*d),
{
    d.year()
}

/// Calls `Datelike::month` on a calendar date. Claimed: the result is the date's month, named
/// [`date_month_of`], documented to range from 1 to 12.
#[verifier::external_body]
fn naive_month(d: &NaiveDate) -> (r: u32)
    ensures
        r == date_month_of(*d),
        1 <= r <= 12,
{
    d.month()
}

/// Calls `Datelike::day` on a calendar date. Claimed: the result is the date's day, named
/// [`date_day_of`], documented to range from 1 to 31.
#[verifier::external_body]
fn naive_day(d: &NaiveDate) -> (r: u32)
    ensures
        r == date_day_of(*d),
        1 <= r <= 31,
{
    d.day()
}

/// Calls `Timelike::hour` on a time of day. Claimed: the result is its hour, named
/// [`time_hour_of`], documented to range from 0 to 23.
#[verifier::external_body]
fn naive_hour(t: &NaiveTime) -> (r: u32)
    ensures
        r == time_hour_of(*t),
        r <= 23,
{
    t.hour()
}

/// Calls `Timelike::minute` on a time of day. Claimed: the result is its minute, named
/// [`time_minute_of`], documented to range from 0 to 59.
#[verifier::external_body]
fn naive_minute(t: &NaiveTime) -> (r: u32)
    ensures
        r == time_minute_of(*t),
        r <= 59,
{
    t.minute()
}

/// Calls `Timelike::second` on a time of day. Claimed: the result is its second, named
/// [`time_second_of`], documented to range from 0 to 59.
#[verifier::external_body]
fn naive_second(t: &NaiveTime) -> (r: u32)
    ensures
        r == time_second_of(*t),
        r <= 59,
{
    t.second()
}

/// Is `y` a leap year of the Gregorian calendar?
pub open spec fn leap_year(y: int) -> bool {
    (y % 4 == 0 && y % 100 != 0) || y % 400 == 0
}

/// Number of days of month `m` of year `y`.
pub open spec fn days_in_month(y: int, m: int) -> int {
    if m == 2 {
        if leap_year(y) { 29 } else { 28 }
    } else if m == 4 || m == 6 || m == 9 || m == 11 {
        30
    } else {
        31
    }
}

/// Is (`y`, `m`, `d`) a day of the calendar?
pub open spec fn valid_ymd(y: int, m: int, d: int) -> bool {
    1 <= m <= 12 && 1 <= d <= days_in_month(y, m)
}

/// Calls `NaiveDate::from_ymd_opt`, documented to make the date of the given year, month and
/// day, and to return `None` exactly when the day does not exist, the month or day is out of
/// range, or the year is out of the type's range. Claimed for the years 1980 to 2107 (well inside
/// that range): `Some` exactly for a day of the calendar; and a date it returns has the given
/// year, month and day.
#[verifier::external_body]
fn naive_date_from_ymd(year: i32, month: u32, day: u32) -> (r: Option<NaiveDate>)
    ensures
        1980 <= year <= 2107 ==> ((r is Some) == valid_ymd(year as int, month as int, day as int)),
        r matches Some(d) ==> date_year_of(d) == year && date_month_of(d) == month && date_day_of(d) == day,
{
    NaiveDate::from_ymd_opt(year, month, day)
}

/// Calls `NaiveTime::from_hms_opt`, documented to make the time of day of the given hour,
/// minute and second, and to return `None` exactly on an invalid hour, minute or second.
/// Claimed: `Some` exactly when the hour is below 24, the minute and the second below 60; and a
/// time it returns has the given hour, minute and second.
#[verifier::external_body]
fn naive_time_from_hms(hour: u32, minute: u32, second: u32) -> (r: Option<NaiveTime>)
    ensures
        (r is Some) == (hour < 24 && minute < 60 && second < 60),
        r matches Some(t) ==> time_hour_of(t) == hour && time_minute_of(t) == minute && time_second_of(t) == second,
{
    NaiveTime::from_hms_opt(hour, minute, second)
}

/// Calls `NaiveDateTime::new`, which joins a date and a time. Claimed: the result is what
/// [`datetime_of`] names for them.
#[verifier::external_body]
pub(crate) fn naive_datetime_new(date: NaiveDate, time: NaiveTime) -> (r: NaiveDateTime)
    ensures
        r == datetime_of(date, time),
{
    NaiveDateTime::new(date, time)
}

/// A packed date that some calendar day of the FAT years packs to.
pub open spec fn stamp_date(raw: u16) -> bool {
    exists|y: int, m: int, d: int|
        #![trigger date_pack(y, m, d)]
        1980 <= y <= 2107 && 1 <= m <= 12 && 1 <= d <= 31 && raw == date_pack(y, m, d)
}

/// A packed time that some time of day packs to.
pub open spec fn stamp_time(raw: u16) -> bool {
    exists|h: int, mi: int, s: int|
        #![trigger time_pack(h, mi, s)]
        0 <= h <= 23 && 0 <= mi <= 59 && 0 <= s <= 59 && raw == time_pack(h, mi, s)
}

/// A stored date, read back as a calendar date and packed again, is the same stamp: its year
/// lies in the FAT range, and its year, month and day pack to it.
pub proof fn law_date_stamp_round_trip(raw: u16, d: NaiveDate)
    requires
        date_year_of(d) == crate::fs::date_year(raw),
        date_month_of(d) == crate::fs::date_month(raw),
        date_day_of(d) == crate::fs::date_day(raw),
    ensures
        1980 <= date_year_of(d) <= 2107,
        date_pack(date_year_of(d) as int, date_month_of(d) as int, date_day_of(d) as int) as u16 == raw,
{
    let r = raw as int;
    assert(date_pack(date_year_of(d) as int, date_month_of(d) as int, date_day_of(d) as int) == r) by (nonlinear_arith)
        requires
            0 <= r < 0x10000,
            date_year_of(d) == 1980 + (r / 512) % 128,
            date_month_of(d) == (r / 32) % 16,
            date_day_of(d) == r % 32,
    {
        assert(r / 512 < 128);
        assert(r == (r / 512) * 512 + ((r / 32) % 16) * 32 + r % 32);
    }
}

/// A stored time, read back as a time of day and packed again, is the same stamp.
pub proof fn law_time_stamp_round_trip(raw: u16, t: NaiveTime)
    requires
        time_hour_of(t) == crate::fs::time_hour(raw),
        time_minute_of(t) == crate::fs::time_minute(raw),
        time_second_of(t) == crate::fs::time_second(raw),
    ensures
        time_pack(time_hour_of(t) as int, time_minute_of(t) as int, time_second_of(t) as int) as u16 == raw,
{
    let r = raw as int;
    assert(time_pack(time_hour_of(t) as int, time_minute_of(t) as int, time_second_of(t) as int) == r) by (nonlinear_arith)
        requires
            0 <= r < 0x10000,
            time_hour_of(t) == (r / 2048) % 32,
            time_minute_of(t) == (r / 32) % 64,
            time_second_of(t) == (r % 32) * 2,
    {
        assert(r / 2048 < 32);
        assert(r == (r / 2048) * 2048 + ((r / 32) % 64) * 32 + r % 32);
    }
}

impl U16Date {
    /// The packed calendar date of a UTC time; years outside 1980..=2107 cannot be stored.
    pub fn from_datetime(value: &UtcDateTime) -> (r: Result<U16Date, FsError>)
        ensures
            1980 <= value.year <= 2107 ==> r == Ok::<U16Date, FsError>(
                U16Date(date_pack(value.year as int, value.month as int, value.day as int) as u16),
            ),
            !(1980 <= value.year <= 2107) ==> r is Err && r->Err_0 is InvalidConfig,
    {
        U16Date::from_ymd(value.year, value.month, value.day)
    }

    /// The calendar date this packs, if it is one.
    pub fn to_naive_date(self) -> (r: Result<NaiveDate, FsError>)
        ensures
            self.0 == 0 ==> r is Err && r->Err_0 is CorruptFs,
            self.0 != 0 ==> (r is Ok <==> valid_ymd(crate::fs::date_year(self.0), crate::fs::date_month(self.0), crate::fs::date_day(self.0))),
            r is Err ==> r->Err_0 is CorruptFs,
            r matches Ok(d) ==> date_year_of(d) == crate::fs::date_year(self.0) && date_month_of(d) == crate::fs::date_month(self.0)
                && date_day_of(d) == crate::fs::date_day(self.0),
    {
        if self.0 == 0 {
            return Err(FsError::CorruptFs(String::from_str("empty FAT date")));
        }
        let (year, month, day) = self.ymd();
        match naive_date_from_ymd(year, month, day) {
            Some(d) => Ok(d),
            None => Err(FsError::CorruptFs(crate::report::hex4_message("invalid FAT date: ", self.0))),
        }
    }
}

impl TryFrom<NaiveDate> for U16Date {
    type Error = FsError;

    /// Packs a calendar date; years outside 1980..=2107 cannot be stored.
    fn try_from(value: NaiveDate) -> (r: Result<U16Date, FsError>)
        ensures
            1980 <= date_year_of(value) <= 2107 ==> r == Ok::<U16Date, FsError>(
                U16Date(date_pack(date_year_of(value) as int, date_month_of(value) as int, date_day_of(value) as int) as u16),
            ),
            !(1980 <= date_year_of(value) <= 2107) ==> r is Err && r->Err_0 is InvalidConfig,
            r matches Ok(d) ==> stamp_date(d.0),
    {
        let year = naive_year(&value);
        let month = naive_month(&value);
        let day = naive_day(&value);
        let r = U16Date::from_ymd(year, month, day);
        r
    }
}

impl vstd::std_specs::convert::TryFromSpecImpl<NaiveDate> for U16Date {
    /// The conversion's result is stated by the `ensures` of `try_from` itself.
    open spec fn obeys_try_from_spec() -> bool {
        false
    }

    open spec fn try_from_spec(v: NaiveDate) -> Result<U16Date, FsError> {
        arbitrary()
    }
}

impl TryFrom<U16Date> for NaiveDate {
    type Error = FsError;

    /// The calendar date a packed date stands for.
    fn try_from(value: U16Date) -> (r: Result<NaiveDate, FsError>)
        ensures
            value.0 == 0 ==> r is Err && r->Err_0 is CorruptFs,
            value.0 != 0 ==> (r is Ok <==> valid_ymd(crate::fs::date_year(value.0), crate::fs::date_month(value.0), crate::fs::date_day(value.0))),
            r is Err ==> r->Err_0 is CorruptFs,
            r matches Ok(d) ==> date_year_of(d) == crate::fs::date_year(value.0) && date_month_of(d) == crate::fs::date_month(value.0)
                && date_day_of(d) == crate::fs::date_day(value.0),
    {
        value.to_naive_date()
    }
}

impl vstd::std_specs::convert::TryFromSpecImpl<U16Date> for NaiveDate {
    /// The conversion's result is stated by the `ensures` of `try_from` itself.
    open spec fn obeys_try_from_spec() -> bool {
        false
    }

    open spec fn try_from_spec(v: U16Date) -> Result<NaiveDate, FsError> {
        arbitrary()
    }
}

impl U16Time {
    /// The packed time of day of a UTC time.
    pub fn from_datetime(value: &UtcDateTime) -> (r: U16Time)
        ensures
            r.0 == time_pack(value.hour as int, value.minute as int, value.second as int),
    {
        U16Time::from_hms(value.hour, value.minute, value.second)
    }

    /// The time of day this packs, if it is one.
    pub fn to_naive_time(self) -> (r: Result<NaiveTime, FsError>)
        ensures
            self.0 == 0 ==> r is Err && r->Err_0 is CorruptFs,
            self.0 != 0 ==> (r is Ok <==> crate::fs::time_hour(self.0) < 24 && crate::fs::time_minute(self.0) < 60 && crate::fs::time_second(self.0) < 60),
            r is Err ==> r->Err_0 is CorruptFs,
            r matches Ok(t) ==> time_hour_of(t) == crate::fs::time_hour(self.0) && time_minute_of(t) == crate::fs::time_minute(self.0)
                && time_second_of(t) == crate::fs::time_second(self.0),
    {
        if self.0 == 0 {
            return Err(FsError::CorruptFs(String::from_str("empty FAT time")));
        }
        let (hour, minute, second) = self.hms();
        match naive_time_from_hms(hour, minute, second) {
            Some(t) => Ok(t),
            None => Err(FsError::CorruptFs(crate::report::hex4_message("invalid FAT time: ", self.0))),
        }
    }
}

impl TryFrom<NaiveTime> for U16Time {
    type Error = FsError;

    /// Packs a time of day at a 2-second resolution.
    fn try_from(value: NaiveTime) -> (r: Result<U16Time, FsError>)
        ensures
            r == Ok::<U16Time, FsError>(
                U16Time(time_pack(time_hour_of(value) as int, time_minute_of(value) as int, time_second_of(value) as int) as u16),
            ),
            r matches Ok(t) ==> stamp_time(t.0),
    {
        let hour = naive_hour(&value);
        let minute = naive_minute(&value);
        let second = naive_second(&value);
        let r = U16Time::from_hms(hour, minute, second);
        Ok(r)
    }
}

impl vstd::std_specs::convert::TryFromSpecImpl<NaiveTime> for U16Time {
    /// The conversion's result is stated by the `ensures` of `try_from` itself.
    open spec fn obeys_try_from_spec() -> bool {
        false
    }

    open spec fn try_from_spec(v: NaiveTime) -> Result<U16Time, FsError> {
        arbitrary()
    }
}

impl TryFrom<U16Time> for NaiveTime {
    type Error = FsError;

    /// The time of day a packed time stands for.
    fn try_from(value: U16Time) -> (r: Result<NaiveTime, FsError>)
        ensures
            value.0 == 0 ==> r is Err && r->Err_0 is CorruptFs,
            value.0 != 0 ==> (r is Ok <==> crate::fs::time_hour(value.0) < 24 && crate::fs::time_minute(value.0) < 60 && crate::fs::time_second(value.0) < 60),
            r is Err ==> r->Err_0 is CorruptFs,
            r matches Ok(t) ==> time_hour_of(t) == crate::fs::time_hour(value.0) && time_minute_of(t) == crate::fs::time_minute(value.0)
                && time_second_of(t) == crate::fs::time_second(value.0),
    {
        value.to_naive_time()
    }
}

impl vstd::std_specs::convert::TryFromSpecImpl<U16Time> for NaiveTime {
    /// The conversion's result is stated by the `ensures` of `try_from` itself.
    open spec fn obeys_try_from_spec() -> bool {
        false
    }

    open spec fn try_from_spec(v: U16Time) -> Result<NaiveTime, FsError> {
        arbitrary()
    }
}

impl Fcb {
    /// A file control block for a new entry named `name`.
    pub fn new(name: &str, kind: NodeKind, start_cluster: ClusterId, size: u32, mdatetime: UtcDateTime) -> (r: Result<Fcb, FsError>)
        ensures
            short_name_spec(name.spec_bytes()) is None ==> (r matches Err(FsError::InvalidName(s)) && s@ == name@),
            short_name_spec(name.spec_bytes()) is Some && !(1980 <= mdatetime.year <= 2107) ==> (r matches Err(e) && e is InvalidConfig),
            r matches Ok(f) ==> short_name_spec(name.spec_bytes()) == Some((f.short_name.base@, f.short_name.ext@))
                && f.attr.0 == attr_of_kind(kind) && f.reserved == 0 && f.start_cluster == start_cluster && f.size == size
                && f.mdate.0 == date_pack(mdatetime.year as int, mdatetime.month as int, mdatetime.day as int)
                && f.mtime.0 == time_pack(mdatetime.hour as int, mdatetime.minute as int, mdatetime.second as int),
            short_name_spec(name.spec_bytes()) is Some && 1980 <= mdatetime.year <= 2107 ==> r is Ok,
    {
        let short_name = ShortName::try_from(name)?;
        let mtime = U16Time::from_datetime(&mdatetime);
        let mdate = U16Date::from_datetime(&mdatetime)?;
        Ok(Fcb { short_name, attr: FcbAttr::from(kind), reserved: 0, mtime, mdate, start_cluster, size })
    }

    /// Sets the modification stamps to a UTC time.
    pub fn set_mdatetime(&mut self, mdatetime: UtcDateTime) -> (r: Result<(), FsError>)
        ensures
            1980 <= mdatetime.year <= 2107 ==> r is Ok && *final(self) == (Fcb {
                mtime: U16Time(time_pack(mdatetime.hour as int, mdatetime.minute as int, mdatetime.second as int) as u16),
                mdate: U16Date(date_pack(mdatetime.year as int, mdatetime.month as int, mdatetime.day as int) as u16),
                ..*old(self)
            }),
            !(1980 <= mdatetime.year <= 2107) ==> r is Err && *final(self) == *old(self) && r->Err_0 is InvalidConfig,
    {
        let mtime = U16Time::from_datetime(&mdatetime);
        let mdate = U16Date::from_datetime(&mdatetime)?;
        self.mtime = mtime;
        self.mdate = mdate;
        Ok(())
    }

    /// Sets the modification stamps to the current time.
    pub fn touch(&mut self) -> (r: Result<(), FsError>)
        ensures
            r is Ok ==> *final(self) == (Fcb { mtime: final(self).mtime, mdate: final(self).mdate, ..*old(self) })
                && stamp_date(final(self).mdate.0) && stamp_time(final(self).mtime.0),
            r is Err ==> *final(self) == *old(self) && r->Err_0 is InvalidConfig,
    {
        self.set_mdatetime(UtcDateTime::now())
    }
}

} // verus!
