//! Calendar date-times, their order, and the text formats backups use for them.
//! Parsing and formatting go through `chrono`.
use chrono::{Datelike, NaiveDate, NaiveDateTime, Timelike};
use vstd::prelude::*;

use crate::sort::SortKey;

verus! {

/// The earliest year a date-time can have.
pub const MIN_YEAR: i32 = -262143;

/// The latest year a date-time can have.
pub const MAX_YEAR: i32 = 262142;

/// The format of the time that a stored config records.
pub const CONFIG_TIME_FORMAT: &'static str = "%Y-%m-%d %H:%M:%S";

/// The format of the file name of a backup made at a given time.
pub const BACKUP_NAME_FORMAT: &'static str = "backup_%Y-%m-%d_%H-%M-%S.tar.zst";

/// The message of a time that no known format accepts.
pub const UNKNOWN_TIME_FORMAT: &'static str = "Unknown time format, try, e.g., `YYMMDD`";

/// A date and a time of day without a time zone.
#[derive(Clone, Copy, Debug, PartialEq, Eq, Structural)]
pub struct DateTime {
    pub year: i32,
    pub month: u32,
    pub day: u32,
    pub hour: u32,
    pub minute: u32,
    pub second: u32,
    pub nanosecond: u32,
}

pub open spec fn is_leap_year(year: int) -> bool {
    (year % 4 == 0 && year % 100 != 0) || year % 400 == 0
}

pub open spec fn days_in_month(year: int, month: int) -> int {
    if month == 2 {
        if is_leap_year(year) {
            29
        } else {
            28
        }
    } else if month == 4 || month == 6 || month == 9 || month == 11 {
        30
    } else {
        31
    }
}

impl DateTime {
    /// The fields describe a date-time of the calendar (a leap second is
    /// written as the 59th second with a nanosecond count of a second or more).
    pub open spec fn valid(self) -> bool {
        &&& MIN_YEAR <= self.year <= MAX_YEAR
        &&& 1 <= self.month <= 12
        &&& 1 <= self.day <= days_in_month(self.year as int, self.month as int)
        &&& self.hour < 24
        &&& self.minute < 60
        &&& self.second < 60
        &&& (self.nanosecond < 1_000_000_000 || (self.second == 59 && self.nanosecond
            < 2_000_000_000))
    }

    /// Chronological order: the fields compared from the year down.
    pub open spec fn before(self, other: DateTime) -> bool {
        if self.year != other.year {
            self.year < other.year
        } else if self.month != other.month {
            self.month < other.month
        } else if self.day != other.day {
            self.day < other.day
        } else if self.hour != other.hour {
            self.hour < other.hour
        } else if self.minute != other.minute {
            self.minute < other.minute
        } else if self.second != other.second {
            self.second < other.second
        } else {
            self.nanosecond < other.nanosecond
        }
    }

    /// Midnight at the start of a day.
    pub open spec fn spec_midnight(year: i32, month: u32, day: u32) -> DateTime {
        DateTime { year, month, day, hour: 0, minute: 0, second: 0, nanosecond: 0 }
    }

    /// Whether the fields describe a date-time of the calendar (see `valid`).
    pub fn is_valid(&self) -> (r: bool)
        ensures
            r == self.valid(),
    {
        let leap = (self.year % 4 == 0 && self.year % 100 != 0) || self.year % 400 == 0;
        let days: u32 = if self.month == 2 {
            if leap {
                29
            } else {
                28
            }
        } else if self.month == 4 || self.month == 6 || self.month == 9 || self.month == 11 {
            30
        } else {
            31
        };
        assert(leap == is_leap_year(self.year as int));
        MIN_YEAR <= self.year && self.year <= MAX_YEAR && 1 <= self.month && self.month <= 12
            && 1 <= self.day && self.day <= days && self.hour < 24 && self.minute < 60
            && self.second < 60 && (self.nanosecond < 1_000_000_000 || (self.second == 59
            && self.nanosecond < 2_000_000_000))
    }

    /// Whether `self` is strictly earlier than `other`.
    pub fn is_before(&self, other: &DateTime) -> (r: bool)
        ensures
            r == self.before(*other),
    {
        if self.year != other.year {
            self.year < other.year
        } else if self.month != other.month {
            self.month < other.month
        } else if self.day != other.day {
            self.day < other.day
        } else if self.hour != other.hour {
            self.hour < other.hour
        } else if self.minute != other.minute {
            self.minute < other.minute
        } else if self.second != other.second {
            self.second < other.second
        } else {
            self.nanosecond < other.nanosecond
        }
    }

    /// Midnight at the start of the given day.
    pub fn midnight(year: i32, month: u32, day: u32) -> (r: DateTime)
        ensures
            r == DateTime::spec_midnight(year, month, day),
    {
        DateTime { year, month, day, hour: 0, minute: 0, second: 0, nanosecond: 0 }
    }
}

pub proof fn lemma_before_irreflexive(a: DateTime)
    ensures
        !a.before(a),
{
}

pub proof fn lemma_before_transitive(a: DateTime, b: DateTime, c: DateTime)
    requires
        a.before(b),
        b.before(c),
    ensures
        a.before(c),
{
}

pub proof fn lemma_before_trichotomy(a: DateTime, b: DateTime)
    ensures
        a.before(b) || a == b || b.before(a),
{
}

/// Order of optional times: no time comes before every time.
pub open spec fn opt_before(a: Option<DateTime>, b: Option<DateTime>) -> bool {
    match (a, b) {
        (None, Some(_)) => true,
        (Some(x), Some(y)) => x.before(y),
        _ => false,
    }
}

/// Whether the optional time `a` is strictly earlier than `b` (no time is earliest).
pub fn opt_is_before(a: &Option<DateTime>, b: &Option<DateTime>) -> (r: bool)
    ensures
        r == opt_before(*a, *b),
{
    match (a, b) {
        (None, Some(_)) => true,
        (Some(x), Some(y)) => x.is_before(y),
        _ => false,
    }
}

impl SortKey for DateTime {
    open spec fn key_le(&self, other: &Self) -> bool {
        !other.before(*self)
    }

    proof fn lemma_key_le_total(a: &Self, b: &Self) {
        lemma_before_trichotomy(*a, *b);
    }

    proof fn lemma_key_le_transitive(a: &Self, b: &Self, c: &Self) {
        lemma_before_trichotomy(*a, *b);
        lemma_before_trichotomy(*b, *c);
    }

    fn less_or_equal(&self, other: &Self) -> (r: bool) {
        !other.is_before(self)
    }
}

/// The date-time that `chrono` reads from `input` in the given format
/// (`NaiveDateTime::parse_from_str`), or none when it rejects the input.
pub uninterp spec fn spec_parse_datetime(input: Seq<char>, format: Seq<char>) -> Option<DateTime>;

/// The date (year, month, day) that `chrono` reads from `input` in the given
/// format (`NaiveDate::parse_from_str`), or none when it rejects the input.
pub uninterp spec fn spec_parse_date(input: Seq<char>, format: Seq<char>) -> Option<(i32, u32, u32)>;

/// The text `chrono` writes for a date-time in the given format
/// (`NaiveDateTime::format`).
pub uninterp spec fn spec_format_datetime(time: DateTime, format: Seq<char>) -> Seq<char>;

/// The formats a time may be given in (tried in this order).
pub open spec fn datetime_formats() -> Seq<Seq<char>> {
    seq![
        "%Y-%m-%d_%H-%M-%S"@,
        "%Y-%m-%d %H:%M:%S"@,
        "%Y-%m-%d %H:%M"@,
        "%y-%m-%d %H:%M:%S"@,
        "%y-%m-%d %H:%M"@,
        "%Y.%m.%d %H:%M:%S"@,
        "%Y.%m.%d %H:%M"@,
        "%y.%m.%d %H:%M:%S"@,
        "%y.%m.%d %H:%M"@,
        "%Y%m%d%H%M%S"@,
        "%Y%m%d%H%M"@,
        "%y%m%d%H%M%S"@,
        "%y%m%d%H%M"@,
    ]
}

/// The formats a bare date may be given in (tried after the date-time formats).
pub open spec fn date_formats() -> Seq<Seq<char>> {
    seq!["%Y-%m-%d"@, "%y-%m-%d"@, "%Y.%m.%d"@, "%y.%m.%d"@, "%Y%m%d"@, "%y%m%d"@]
}

/// The formats the library writes date-times in.
pub open spec fn writable_format(format: Seq<char>) -> bool {
    format == CONFIG_TIME_FORMAT@ || format == BACKUP_NAME_FORMAT@
}

fn datetime_format(i: usize) -> (f: &'static str)
    requires
        i < 13,
    ensures
        f@ == datetime_formats()[i as int],
{
    match i {
        0 => "%Y-%m-%d_%H-%M-%S",
        1 => "%Y-%m-%d %H:%M:%S",
        2 => "%Y-%m-%d %H:%M",
        3 => "%y-%m-%d %H:%M:%S",
        4 => "%y-%m-%d %H:%M",
        5 => "%Y.%m.%d %H:%M:%S",
        6 => "%Y.%m.%d %H:%M",
        7 => "%y.%m.%d %H:%M:%S",
        8 => "%y.%m.%d %H:%M",
        9 => "%Y%m%d%H%M%S",
        10 => "%Y%m%d%H%M",
        11 => "%y%m%d%H%M%S",
        _ => "%y%m%d%H%M",
    }
}

fn date_format(i: usize) -> (f: &'static str)
    requires
        i < 6,
    ensures
        f@ == date_formats()[i as int],
{
    match i {
        0 => "%Y-%m-%d",
        1 => "%y-%m-%d",
        2 => "%Y.%m.%d",
        3 => "%y.%m.%d",
        4 => "%Y%m%d",
        _ => "%y%m%d",
    }
}

#[verifier::external_type_specification]
#[verifier::external_body]
pub struct ExChronoParseError(chrono::ParseError);

/// Reads a date-time with `chrono::NaiveDateTime::parse_from_str`; the result
/// is what the named parse gives, and a date-time `chrono` builds is valid.
#[verifier::external_body]
pub(crate) fn parse_datetime_str(input: &str, format: &str) -> (r: Result<DateTime, chrono::ParseError>)
    ensures
        r is Ok <==> spec_parse_datetime(input@, format@) is Some,
        r matches Ok(t) ==> spec_parse_datetime(input@, format@) == Some(t) && t.valid(),
{
    match NaiveDateTime::parse_from_str(input, format) {
        Ok(t) => Ok(DateTime {
            year: t.year(),
            month: t.month(),
            day: t.day(),
            hour: t.hour(),
            minute: t.minute(),
            second: t.second(),
            nanosecond: t.nanosecond(),
        }),
        Err(e) => Err(e),
    }
}

/// Reads a date with `chrono::NaiveDate::parse_from_str`; the result is what
/// the named parse gives.
#[verifier::external_body]
fn parse_date_str(input: &str, format: &str) -> (r: Option<(i32, u32, u32)>)
    ensures
        r == spec_parse_date(input@, format@),
        r matches Some(d) ==> DateTime::spec_midnight(d.0, d.1, d.2).valid(),
{
    match NaiveDate::parse_from_str(input, format) {
        Ok(d) => Some((d.year(), d.month(), d.day())),
        Err(_) => None,
    }
}

/// Writes a valid date-time with `chrono::NaiveDateTime::format` in one of the
/// library's formats; the text is what the named format gives.
#[verifier::external_body]
pub(crate) fn format_datetime(time: &DateTime, format: &str) -> (r: String)
    requires
        time.valid(),
        writable_format(format@),
    ensures
        r@ == spec_format_datetime(*time, format@),
{
    let d = NaiveDate::from_ymd_opt(time.year, time.month, time.day).unwrap();
    let t = d.and_hms_nano_opt(time.hour, time.minute, time.second, time.nanosecond).unwrap();
    t.format(format).to_string()
}

/// The first date-time format from index `i` on that reads `input`.
pub open spec fn first_datetime(input: Seq<char>, i: int) -> Option<DateTime>
    decreases 13 - i,
{
    if i < 0 || i >= 13 {
        None
    } else {
        match spec_parse_datetime(input, datetime_formats()[i]) {
            Some(t) => Some(t),
            None => first_datetime(input, i + 1),
        }
    }
}

/// The first date format from index `i` on that reads `input`, at midnight.
pub open spec fn first_date(input: Seq<char>, i: int) -> Option<DateTime>
    decreases 6 - i,
{
    if i < 0 || i >= 6 {
        None
    } else {
        match spec_parse_date(input, date_formats()[i]) {
            Some(d) => Some(DateTime::spec_midnight(d.0, d.1, d.2)),
            None => first_date(input, i + 1),
        }
    }
}

/// What a time given as text means: nothing for an empty text, else the
/// first format that reads it, date-time formats before date formats.
pub open spec fn spec_try_parse(input: Seq<char>) -> Option<Option<DateTime>> {
    if input.len() == 0 {
        Some(None)
    } else {
        match first_datetime(input, 0) {
            Some(t) => Some(Some(t)),
            None => match first_date(input, 0) {
                Some(t) => Some(Some(t)),
                None => None,
            },
        }
    }
}

/// Reads a time given as text in any of the known formats.
pub fn try_parse(input: &str) -> (r: Result<Option<DateTime>, &'static str>)
    ensures
        spec_try_parse(input@) matches Some(t) ==> r == Ok::<Option<DateTime>, &'static str>(t),
        spec_try_parse(input@) is None ==> (r matches Err(e) && e@ == UNKNOWN_TIME_FORMAT@),
        r matches Ok(Some(t)) ==> t.valid(),
{
    if input.is_empty() {
        return Ok(None);
    }
    let mut i: usize = 0;
    while i < 13
        invariant
            i <= 13,
            input@.len() > 0,
            first_datetime(input@, 0) == first_datetime(input@, i as int),
        decreases 13 - i,
    {
        match parse_datetime_str(input, datetime_format(i)) {
            Ok(t) => {
                return Ok(Some(t));
            },
            Err(_) => {},
        }
        i = i + 1;
    }
    let mut j: usize = 0;
    while j < 6
        invariant
            j <= 6,
            input@.len() > 0,
            first_datetime(input@, 0) is None,
            first_date(input@, 0) == first_date(input@, j as int),
        decreases 6 - j,
    {
        match parse_date_str(input, date_format(j)) {
            Some(d) => {
                return Ok(Some(DateTime::midnight(d.0, d.1, d.2)));
            },
            None => {},
        }
        j = j + 1;
    }
    Err(UNKNOWN_TIME_FORMAT)
}

/// Reads the time of a backup from its file name.
pub fn parse_backup_file_name(filename: &str) -> (r: Result<DateTime, chrono::ParseError>)
    ensures
        r is Ok <==> spec_parse_datetime(filename@, BACKUP_NAME_FORMAT@) is Some,
        r matches Ok(t) ==> spec_parse_datetime(filename@, BACKUP_NAME_FORMAT@) == Some(t)
            && t.valid(),
{
    parse_datetime_str(filename, BACKUP_NAME_FORMAT)
}

/// The file name of a backup made at `time`.
pub fn create_backup_file_name(time: &DateTime) -> (r: String)
    requires
        time.valid(),
    ensures
        r@ == spec_format_datetime(*time, BACKUP_NAME_FORMAT@),
{
    format_datetime(time, BACKUP_NAME_FORMAT)
}

/// The text a stored config records for a time.
pub fn format_config_time(time: &DateTime) -> (r: String)
    requires
        time.valid(),
    ensures
        r@ == spec_format_datetime(*time, CONFIG_TIME_FORMAT@),
{
    format_datetime(time, CONFIG_TIME_FORMAT)
}

/// Reads the time a stored config records (none for an empty text).
pub fn parse_config_time(text: &str) -> (r: Result<Option<DateTime>, chrono::ParseError>)
    ensures
        text@.len() == 0 ==> r matches Ok(None),
        text@.len() > 0 ==> (r is Ok <==> spec_parse_datetime(text@, CONFIG_TIME_FORMAT@) is Some),
        text@.len() > 0 ==> (r matches Ok(Some(t)) ==> spec_parse_datetime(
            text@,
            CONFIG_TIME_FORMAT@,
        ) == Some(t) && t.valid()),
        r matches Ok(x) ==> (text@.len() > 0 <==> x is Some),
{
    if text.is_empty() {
        return Ok(None);
    }
    match parse_datetime_str(text, CONFIG_TIME_FORMAT) {
        Ok(t) => Ok(Some(t)),
        Err(e) => Err(e),
    }
}

/// The conversions of a `chrono` format, in order: the letter after each `%`.
pub open spec fn conversions(format: Seq<char>) -> Seq<char>
    decreases format.len(),
{
    if format.len() < 2 {
        Seq::empty()
    } else if format[0] == '%' {
        seq![format[1]] + conversions(format.skip(2))
    } else {
        conversions(format.skip(1))
    }
}

/// The conversions read a year (`Y` with the century, `y` without), then
/// the month, then the day.
pub open spec fn year_month_day(c: Seq<char>) -> bool {
    &&& c.len() >= 3
    &&& (c[0] == 'Y' || c[0] == 'y')
    &&& c[1] == 'm'
    &&& c[2] == 'd'
}

proof fn lemma_date_format_0()
    ensures
        conversions(date_formats()[0]) == seq!['Y', 'm', 'd'],
{
    reveal_strlit("%Y-%m-%d");
    assert("%Y-%m-%d"@ =~= seq!['%', 'Y', '-', '%', 'm', '-', '%', 'd']);
    reveal_with_fuel(conversions, 20);
    assert(conversions(seq!['%', 'Y', '-', '%', 'm', '-', '%', 'd']) =~= seq!['Y', 'm', 'd']);
}

proof fn lemma_date_format_1()
    ensures
        conversions(date_formats()[1]) == seq!['y', 'm', 'd'],
{
    reveal_strlit("%y-%m-%d");
    assert("%y-%m-%d"@ =~= seq!['%', 'y', '-', '%', 'm', '-', '%', 'd']);
    reveal_with_fuel(conversions, 20);
    assert(conversions(seq!['%', 'y', '-', '%', 'm', '-', '%', 'd']) =~= seq!['y', 'm', 'd']);
}

proof fn lemma_date_format_2()
    ensures
        conversions(date_formats()[2]) == seq!['Y', 'm', 'd'],
{
    reveal_strlit("%Y.%m.%d");
    assert("%Y.%m.%d"@ =~= seq!['%', 'Y', '.', '%', 'm', '.', '%', 'd']);
    reveal_with_fuel(conversions, 20);
    assert(conversions(seq!['%', 'Y', '.', '%', 'm', '.', '%', 'd']) =~= seq!['Y', 'm', 'd']);
}

proof fn lemma_date_format_3()
    ensures
        conversions(date_formats()[3]) == seq!['y', 'm', 'd'],
{
    reveal_strlit("%y.%m.%d");
    assert("%y.%m.%d"@ =~= seq!['%', 'y', '.', '%', 'm', '.', '%', 'd']);
    reveal_with_fuel(conversions, 20);
    assert(conversions(seq!['%', 'y', '.', '%', 'm', '.', '%', 'd']) =~= seq!['y', 'm', 'd']);
}

proof fn lemma_date_format_4()
    ensures
        conversions(date_formats()[4]) == seq!['Y', 'm', 'd'],
{
    reveal_strlit("%Y%m%d");
    assert("%Y%m%d"@ =~= seq!['%', 'Y', '%', 'm', '%', 'd']);
    reveal_with_fuel(conversions, 20);
    assert(conversions(seq!['%', 'Y', '%', 'm', '%', 'd']) =~= seq!['Y', 'm', 'd']);
}

proof fn lemma_date_format_5()
    ensures
        conversions(date_formats()[5]) == seq!['y', 'm', 'd'],
{
    reveal_strlit("%y%m%d");
    assert("%y%m%d"@ =~= seq!['%', 'y', '%', 'm', '%', 'd']);
    reveal_with_fuel(conversions, 20);
    assert(conversions(seq!['%', 'y', '%', 'm', '%', 'd']) =~= seq!['y', 'm', 'd']);
}

proof fn lemma_datetime_format_0()
    ensures
        conversions(datetime_formats()[0]) == seq!['Y', 'm', 'd', 'H', 'M', 'S'],
{
    reveal_strlit("%Y-%m-%d_%H-%M-%S");
    assert("%Y-%m-%d_%H-%M-%S"@ =~= seq!['%', 'Y', '-', '%', 'm', '-', '%', 'd', '_', '%', 'H', '-', '%', 'M', '-', '%', 'S']);
    reveal_with_fuel(conversions, 20);
    assert(conversions(seq!['%', 'Y', '-', '%', 'm', '-', '%', 'd', '_', '%', 'H', '-', '%', 'M', '-', '%', 'S']) =~= seq!['Y', 'm', 'd', 'H', 'M', 'S']);
}

proof fn lemma_datetime_format_1()
    ensures
        conversions(datetime_formats()[1]) == seq!['Y', 'm', 'd', 'H', 'M', 'S'],
{
    reveal_strlit("%Y-%m-%d %H:%M:%S");
    assert("%Y-%m-%d %H:%M:%S"@ =~= seq!['%', 'Y', '-', '%', 'm', '-', '%', 'd', ' ', '%', 'H', ':', '%', 'M', ':', '%', 'S']);
    reveal_with_fuel(conversions, 20);
    assert(conversions(seq!['%', 'Y', '-', '%', 'm', '-', '%', 'd', ' ', '%', 'H', ':', '%', 'M', ':', '%', 'S']) =~= seq!['Y', 'm', 'd', 'H', 'M', 'S']);
}

proof fn lemma_datetime_format_2()
    ensures
        conversions(datetime_formats()[2]) == seq!['Y', 'm', 'd', 'H', 'M'],
{
    reveal_strlit("%Y-%m-%d %H:%M");
    assert("%Y-%m-%d %H:%M"@ =~= seq!['%', 'Y', '-', '%', 'm', '-', '%', 'd', ' ', '%', 'H', ':', '%', 'M']);
    reveal_with_fuel(conversions, 20);
    assert(conversions(seq!['%', 'Y', '-', '%', 'm', '-', '%', 'd', ' ', '%', 'H', ':', '%', 'M']) =~= seq!['Y', 'm', 'd', 'H', 'M']);
}

proof fn lemma_datetime_format_3()
    ensures
        conversions(datetime_formats()[3]) == seq!['y', 'm', 'd', 'H', 'M', 'S'],
{
    reveal_strlit("%y-%m-%d %H:%M:%S");
    assert("%y-%m-%d %H:%M:%S"@ =~= seq!['%', 'y', '-', '%', 'm', '-', '%', 'd', ' ', '%', 'H', ':', '%', 'M', ':', '%', 'S']);
    reveal_with_fuel(conversions, 20);
    assert(conversions(seq!['%', 'y', '-', '%', 'm', '-', '%', 'd', ' ', '%', 'H', ':', '%', 'M', ':', '%', 'S']) =~= seq!['y', 'm', 'd', 'H', 'M', 'S']);
}

proof fn lemma_datetime_format_4()
    ensures
        conversions(datetime_formats()[4]) == seq!['y', 'm', 'd', 'H', 'M'],
{
    reveal_strlit("%y-%m-%d %H:%M");
    assert("%y-%m-%d %H:%M"@ =~= seq!['%', 'y', '-', '%', 'm', '-', '%', 'd', ' ', '%', 'H', ':', '%', 'M']);
    reveal_with_fuel(conversions, 20);
    assert(conversions(seq!['%', 'y', '-', '%', 'm', '-', '%', 'd', ' ', '%', 'H', ':', '%', 'M']) =~= seq!['y', 'm', 'd', 'H', 'M']);
}

proof fn lemma_datetime_format_5()
    ensures
        conversions(datetime_formats()[5]) == seq!['Y', 'm', 'd', 'H', 'M', 'S'],
{
    reveal_strlit("%Y.%m.%d %H:%M:%S");
    assert("%Y.%m.%d %H:%M:%S"@ =~= seq!['%', 'Y', '.', '%', 'm', '.', '%', 'd', ' ', '%', 'H', ':', '%', 'M', ':', '%', 'S']);
    reveal_with_fuel(conversions, 20);
    assert(conversions(seq!['%', 'Y', '.', '%', 'm', '.', '%', 'd', ' ', '%', 'H', ':', '%', 'M', ':', '%', 'S']) =~= seq!['Y', 'm', 'd', 'H', 'M', 'S']);
}

proof fn lemma_datetime_format_6()
    ensures
        conversions(datetime_formats()[6]) == seq!['Y', 'm', 'd', 'H', 'M'],
{
    reveal_strlit("%Y.%m.%d %H:%M");
    assert("%Y.%m.%d %H:%M"@ =~= seq!['%', 'Y', '.', '%', 'm', '.', '%', 'd', ' ', '%', 'H', ':', '%', 'M']);
    reveal_with_fuel(conversions, 20);
    assert(conversions(seq!['%', 'Y', '.', '%', 'm', '.', '%', 'd', ' ', '%', 'H', ':', '%', 'M']) =~= seq!['Y', 'm', 'd', 'H', 'M']);
}

proof fn lemma_datetime_format_7()
    ensures
        conversions(datetime_formats()[7]) == seq!['y', 'm', 'd', 'H', 'M', 'S'],
{
    reveal_strlit("%y.%m.%d %H:%M:%S");
    assert("%y.%m.%d %H:%M:%S"@ =~= seq!['%', 'y', '.', '%', 'm', '.', '%', 'd', ' ', '%', 'H', ':', '%', 'M', ':', '%', 'S']);
    reveal_with_fuel(conversions, 20);
    assert(conversions(seq!['%', 'y', '.', '%', 'm', '.', '%', 'd', ' ', '%', 'H', ':', '%', 'M', ':', '%', 'S']) =~= seq!['y', 'm', 'd', 'H', 'M', 'S']);
}

proof fn lemma_datetime_format_8()
    ensures
        conversions(datetime_formats()[8]) == seq!['y', 'm', 'd', 'H', 'M'],
{
    reveal_strlit("%y.%m.%d %H:%M");
    assert("%y.%m.%d %H:%M"@ =~= seq!['%', 'y', '.', '%', 'm', '.', '%', 'd', ' ', '%', 'H', ':', '%', 'M']);
    reveal_with_fuel(conversions, 20);
    assert(conversions(seq!['%', 'y', '.', '%', 'm', '.', '%', 'd', ' ', '%', 'H', ':', '%', 'M']) =~= seq!['y', 'm', 'd', 'H', 'M']);
}

proof fn lemma_datetime_format_9()
    ensures
        conversions(datetime_formats()[9]) == seq!['Y', 'm', 'd', 'H', 'M', 'S'],
{
    reveal_strlit("%Y%m%d%H%M%S");
    assert("%Y%m%d%H%M%S"@ =~= seq!['%', 'Y', '%', 'm', '%', 'd', '%', 'H', '%', 'M', '%', 'S']);
    reveal_with_fuel(conversions, 20);
    assert(conversions(seq!['%', 'Y', '%', 'm', '%', 'd', '%', 'H', '%', 'M', '%', 'S']) =~= seq!['Y', 'm', 'd', 'H', 'M', 'S']);
}

proof fn lemma_datetime_format_10()
    ensures
        conversions(datetime_formats()[10]) == seq!['Y', 'm', 'd', 'H', 'M'],
{
    reveal_strlit("%Y%m%d%H%M");
    assert("%Y%m%d%H%M"@ =~= seq!['%', 'Y', '%', 'm', '%', 'd', '%', 'H', '%', 'M']);
    reveal_with_fuel(conversions, 20);
    assert(conversions(seq!['%', 'Y', '%', 'm', '%', 'd', '%', 'H', '%', 'M']) =~= seq!['Y', 'm', 'd', 'H', 'M']);
}

proof fn lemma_datetime_format_11()
    ensures
        conversions(datetime_formats()[11]) == seq!['y', 'm', 'd', 'H', 'M', 'S'],
{
    reveal_strlit("%y%m%d%H%M%S");
    assert("%y%m%d%H%M%S"@ =~= seq!['%', 'y', '%', 'm', '%', 'd', '%', 'H', '%', 'M', '%', 'S']);
    reveal_with_fuel(conversions, 20);
    assert(conversions(seq!['%', 'y', '%', 'm', '%', 'd', '%', 'H', '%', 'M', '%', 'S']) =~= seq!['y', 'm', 'd', 'H', 'M', 'S']);
}

proof fn lemma_datetime_format_12()
    ensures
        conversions(datetime_formats()[12]) == seq!['y', 'm', 'd', 'H', 'M'],
{
    reveal_strlit("%y%m%d%H%M");
    assert("%y%m%d%H%M"@ =~= seq!['%', 'y', '%', 'm', '%', 'd', '%', 'H', '%', 'M']);
    reveal_with_fuel(conversions, 20);
    assert(conversions(seq!['%', 'y', '%', 'm', '%', 'd', '%', 'H', '%', 'M']) =~= seq!['y', 'm', 'd', 'H', 'M']);
}

/// Every format of a bare date reads the year, the month and the day, in
/// that order and nothing else; every format of a date-time reads the year,
/// the month, the day, the hour and the minute, in that order, and at most
/// the seconds after them.
pub proof fn lemma_formats_read_year_month_day()
    ensures
        date_formats().len() == 6,
        datetime_formats().len() == 13,
        forall|i: int|
            0 <= i < date_formats().len() ==> {
                let c = conversions(#[trigger] date_formats()[i]);
                year_month_day(c) && c.len() == 3
            },
        forall|i: int|
            0 <= i < datetime_formats().len() ==> {
                let c = conversions(#[trigger] datetime_formats()[i]);
                &&& year_month_day(c)
                &&& c.len() == 5 || c.len() == 6
                &&& c[3] == 'H'
                &&& c[4] == 'M'
                &&& c.len() == 6 ==> c[5] == 'S'
            },
{
    lemma_date_format_0();
    lemma_date_format_1();
    lemma_date_format_2();
    lemma_date_format_3();
    lemma_date_format_4();
    lemma_date_format_5();
    lemma_datetime_format_0();
    lemma_datetime_format_1();
    lemma_datetime_format_2();
    lemma_datetime_format_3();
    lemma_datetime_format_4();
    lemma_datetime_format_5();
    lemma_datetime_format_6();
    lemma_datetime_format_7();
    lemma_datetime_format_8();
    lemma_datetime_format_9();
    lemma_datetime_format_10();
    lemma_datetime_format_11();
    lemma_datetime_format_12();
}

/// The formats a time may be given in, in the order they are tried.
pub proof fn lemma_format_tables()
    ensures
        datetime_formats() == seq!["%Y-%m-%d_%H-%M-%S"@, "%Y-%m-%d %H:%M:%S"@, "%Y-%m-%d %H:%M"@, "%y-%m-%d %H:%M:%S"@, "%y-%m-%d %H:%M"@, "%Y.%m.%d %H:%M:%S"@, "%Y.%m.%d %H:%M"@, "%y.%m.%d %H:%M:%S"@, "%y.%m.%d %H:%M"@, "%Y%m%d%H%M%S"@, "%Y%m%d%H%M"@, "%y%m%d%H%M%S"@, "%y%m%d%H%M"@],
        date_formats() == seq!["%Y-%m-%d"@, "%y-%m-%d"@, "%Y.%m.%d"@, "%y.%m.%d"@, "%Y%m%d"@, "%y%m%d"@],
{
}

/// Chronological order: an earlier year comes first; in the same year an
/// earlier month comes first, whatever the days; in the same month an
/// earlier day, whatever the time of day; and so on down to the nanosecond.
pub proof fn lemma_before_chronological(a: DateTime, b: DateTime)
    ensures
        a.year < b.year ==> a.before(b),
        a.year == b.year && a.month < b.month ==> a.before(b),
        a.year == b.year && a.month == b.month && a.day < b.day ==> a.before(b),
        a.year == b.year && a.month == b.month && a.day == b.day && a.hour < b.hour ==> a.before(b),
        a.year == b.year && a.month == b.month && a.day == b.day && a.hour == b.hour && a.minute
            < b.minute ==> a.before(b),
        a.year == b.year && a.month == b.month && a.day == b.day && a.hour == b.hour && a.minute
            == b.minute && a.second < b.second ==> a.before(b),
        a.year == b.year && a.month == b.month && a.day == b.day && a.hour == b.hour && a.minute
            == b.minute && a.second == b.second && a.nanosecond < b.nanosecond ==> a.before(b),
        a.before(b) ==> a.year <= b.year,
        a.before(b) && a.year == b.year ==> a.month <= b.month,
        a.before(b) && a.year == b.year && a.month == b.month ==> a.day <= b.day,
{
}

} // verus!
