//! The timestamp column: the fixed `YYYY-MM-DD HH-AP` layout and the hour of
//! UTC time that it denotes.

use chrono::{Datelike, TimeZone, Timelike};
use vstd::prelude::*;
use vstd::string::*;

verus! {

/// The 12-hour-clock format that the calendar library parses and prints.
pub const FORMAT: &'static str = "%Y-%m-%d %I:%M:%S-%p";

/// A whole hour of UTC time, held as its civil fields.
#[derive(Clone, Copy, Debug, PartialEq, Eq, PartialOrd, Ord, Hash, Structural)]
pub struct Timestamp {
    pub year: u16,
    pub month: u8,
    pub day: u8,
    pub hour: u8,
}

/// Why a text is not a timestamp of the fixed layout.
#[derive(Clone, Copy, Debug, PartialEq, Eq, Structural)]
pub enum TimestampFormatError {
    /// The text does not have exactly sixteen characters.
    UnexpectedLength,
    /// A position holds a character that the layout does not allow there.
    UnexpectedShape,
    /// The month, the day of the month or the hour does not exist.
    OutOfRange,
}

pub open spec fn is_digit(c: char) -> bool {
    '0' <= c && c <= '9'
}

pub open spec fn digit_value(c: char) -> int {
    c as int - 48
}

pub open spec fn digit_char(d: int) -> char {
    (d + 48) as char
}

/// The number that the two digits at `at` and `at + 1` write.
pub open spec fn two_digits(s: Seq<char>, at: int) -> int {
    digit_value(s[at]) * 10 + digit_value(s[at + 1])
}

pub open spec fn is_leap_year(year: int) -> bool {
    year % 4 == 0 && (year % 100 != 0 || year % 400 == 0)
}

/// Days of a month in the proleptic Gregorian calendar.
pub open spec fn days_in_month(year: int, month: int) -> int {
    if month == 2 {
        if is_leap_year(year) {
            29
        } else {
            28
        }
    } else if month == 4 || month == 6 || month == 9 || month == 11 {
        30
    } else {
        31
    }
}

/// Hour of the day, 0 to 23, of an hour of the 12-hour clock.
pub open spec fn hour_of_day(hour12: int, pm: bool) -> int {
    hour12 % 12 + if pm { 12int } else { 0int }
}

/// Hour of the 12-hour clock, 1 to 12, of an hour of the day.
pub open spec fn hour_on_dial(hour: int) -> int {
    if hour % 12 == 0 {
        12
    } else {
        hour % 12
    }
}

impl Timestamp {
    /// The fields name an hour that exists, in a year of four digits.
    pub open spec fn wf(&self) -> bool {
        &&& self.year <= 9999
        &&& 1 <= self.month <= 12
        &&& 1 <= self.day <= days_in_month(self.year as int, self.month as int)
        &&& self.hour <= 23
    }

    /// Whether the fields name an hour that exists, in a year of four digits.
    pub fn is_valid(&self) -> (r: bool)
        ensures
            r == self.wf(),
    {
        if self.year > 9999 || self.month < 1 || self.month > 12 || self.hour > 23 {
            return false;
        }
        let leap = self.year % 4 == 0 && (self.year % 100 != 0 || self.year % 400 == 0);
        let days: u8 = if self.month == 2 {
            if leap {
                29
            } else {
                28
            }
        } else if self.month == 4 || self.month == 6 || self.month == 9 || self.month == 11 {
            30
        } else {
            31
        };
        1 <= self.day && self.day <= days
    }
}

/// Every position of the sixteen holds a character of its class.
pub open spec fn layout_shape(s: Seq<char>) -> bool {
    &&& s.len() == 16
    &&& is_digit(s[0]) && is_digit(s[1]) && is_digit(s[2]) && is_digit(s[3])
    &&& s[4] == '-'
    &&& is_digit(s[5]) && is_digit(s[6])
    &&& s[7] == '-'
    &&& is_digit(s[8]) && is_digit(s[9])
    &&& s[10] == ' '
    &&& is_digit(s[11]) && is_digit(s[12])
    &&& s[13] == '-'
    &&& (s[14] == 'A' || s[14] == 'P')
    &&& s[15] == 'M'
}

pub open spec fn layout_year(s: Seq<char>) -> int {
    two_digits(s, 0) * 100 + two_digits(s, 2)
}

pub open spec fn layout_month(s: Seq<char>) -> int {
    two_digits(s, 5)
}

pub open spec fn layout_day(s: Seq<char>) -> int {
    two_digits(s, 8)
}

pub open spec fn layout_hour12(s: Seq<char>) -> int {
    two_digits(s, 11)
}

/// The month, the day and the hour that a text of the right shape writes exist.
pub open spec fn layout_in_range(s: Seq<char>) -> bool {
    &&& 1 <= layout_month(s) <= 12
    &&& 1 <= layout_day(s) <= days_in_month(layout_year(s), layout_month(s))
    &&& 1 <= layout_hour12(s) <= 12
}

/// The hour that a text of the right shape and range denotes.
pub open spec fn layout_instant(s: Seq<char>) -> Timestamp {
    Timestamp {
        year: layout_year(s) as u16,
        month: layout_month(s) as u8,
        day: layout_day(s) as u8,
        hour: hour_of_day(layout_hour12(s), s[14] == 'P') as u8,
    }
}

/// What a text of the timestamp column means: the hour it denotes, or the
/// first reason why it denotes none.
pub open spec fn normalized(s: Seq<char>) -> Result<Timestamp, TimestampFormatError> {
    if s.len() != 16 {
        Err(TimestampFormatError::UnexpectedLength)
    } else if !layout_shape(s) {
        Err(TimestampFormatError::UnexpectedShape)
    } else if !layout_in_range(s) {
        Err(TimestampFormatError::OutOfRange)
    } else {
        Ok(layout_instant(s))
    }
}

/// The minutes and seconds that the layout leaves out.
pub open spec fn zero_minutes() -> Seq<char> {
    seq![':', '0', '0', ':', '0', '0']
}

/// A text of the layout with its minutes and seconds written out.
pub open spec fn with_minutes(s: Seq<char>) -> Seq<char> {
    s.subrange(0, 13) + zero_minutes() + s.subrange(13, 16)
}

/// A text of twenty-two characters without the six that write minutes and seconds.
pub open spec fn without_minutes(t: Seq<char>) -> Seq<char> {
    t.subrange(0, 13) + t.subrange(19, 22)
}

/// The text is one of the layout with `:00:00` after the hour.
pub open spec fn expanded_shape(t: Seq<char>) -> bool {
    &&& t.len() == 22
    &&& t.subrange(13, 19) == zero_minutes()
    &&& layout_shape(without_minutes(t))
}

/// The sixteen characters that write an hour in the layout.
pub open spec fn layout_text(t: Timestamp) -> Seq<char> {
    let year = t.year as int;
    let month = t.month as int;
    let day = t.day as int;
    let dial = hour_on_dial(t.hour as int);
    seq![
        digit_char(year / 1000),
        digit_char(year / 100 % 10),
        digit_char(year / 10 % 10),
        digit_char(year % 10),
        '-',
        digit_char(month / 10),
        digit_char(month % 10),
        '-',
        digit_char(day / 10),
        digit_char(day % 10),
        ' ',
        digit_char(dial / 10),
        digit_char(dial % 10),
        '-',
        if t.hour >= 12 { 'P' } else { 'A' },
        'M',
    ]
}

/// `NaiveDateTime::parse_from_str` of chrono with [`FORMAT`], and the fields
/// of the date and time it returns.
///
/// Claimed of chrono, for a text `YYYY-MM-DD HH:00:00-AP` of digits: it is
/// accepted exactly when month, day of month and hour of the 12-hour clock
/// exist, and the fields returned are then the ones written, with `12-AM` as
/// hour 0 and `12-PM` as hour 12.
#[verifier::external_body]
fn parse_expanded(text: &str) -> (parsed: Result<Timestamp, chrono::ParseError>)
    requires
        expanded_shape(text@),
    ensures
        parsed is Ok <==> layout_in_range(without_minutes(text@)),
        parsed matches Ok(t) ==> t == layout_instant(without_minutes(text@)),
{
    let naive = chrono::NaiveDateTime::parse_from_str(text, FORMAT)?;
    Ok(Timestamp {
        year: naive.year() as u16,
        month: naive.month() as u8,
        day: naive.day() as u8,
        hour: naive.hour() as u8,
    })
}

/// The error of chrono's parsers. Nothing is read from it.
#[verifier::external_type_specification]
#[verifier::external_body]
pub struct ExParseError(chrono::ParseError);

/// The number written by two ASCII digits, if both characters are digits.
fn read_two_digits(raw: &str, at: usize) -> (r: Option<u8>)
    requires
        is_ascii(raw),
        raw@.len() == 16,
        at < 15,
    ensures
        r is Some <==> is_digit(raw@[at as int]) && is_digit(raw@[at + 1]),
        r matches Some(v) ==> v == two_digits(raw@, at as int),
{
    let hi = raw.get_ascii(at);
    let lo = raw.get_ascii(at + 1);
    if 48 <= hi && hi <= 57 && 48 <= lo && lo <= 57 {
        Some((hi - 48) * 10 + (lo - 48))
    } else {
        None
    }
}

/// Whether the character at `at` is the ASCII character `expected`.
fn holds(raw: &str, at: usize, expected: u8) -> (r: bool)
    requires
        is_ascii(raw),
        raw@.len() == 16,
        at < 16,
        expected < 128,
    ensures
        r == (raw@[at as int] as int == expected),
{
    raw.get_ascii(at) == expected
}

/// Whether every position of a text of sixteen ASCII characters holds a
/// character of its class.
fn has_layout_shape(raw: &str) -> (r: bool)
    requires
        is_ascii(raw),
        raw@.len() == 16,
    ensures
        r == layout_shape(raw@),
{
    read_two_digits(raw, 0).is_some() && read_two_digits(raw, 2).is_some() && holds(raw, 4, 45)
        && read_two_digits(raw, 5).is_some() && holds(raw, 7, 45) && read_two_digits(
        raw,
        8,
    ).is_some() && holds(raw, 10, 32) && read_two_digits(raw, 11).is_some() && holds(raw, 13, 45)
        && (holds(raw, 14, 65) || holds(raw, 14, 80)) && holds(raw, 15, 77)
}

/// The text with `:00:00` put in after the hour: what the layout leaves out
/// and the 12-hour-clock format asks for.
fn insert_minutes(raw: &str) -> (text: String)
    requires
        is_ascii(raw),
        raw@.len() == 16,
    ensures
        text@ == with_minutes(raw@),
{
    let mut text = String::from_str(raw.substring_ascii(0, 13));
    text.append(":00:00");
    text.append(raw.substring_ascii(13, 16));
    proof {
        reveal_strlit(":00:00");
        assert(":00:00"@ =~= zero_minutes());
    }
    text
}

/// A text of the right shape holds ASCII characters only.
proof fn lemma_shape_is_ascii(s: Seq<char>)
    requires
        layout_shape(s),
    ensures
        vstd::utf8::is_ascii_chars(s),
{
    assert forall|i: int| 0 <= i < s.len() implies '\0' <= #[trigger] s[i] <= '\u{7f}' by {
        let class = if i == 4 || i == 7 || i == 13 {
            s[i] == '-'
        } else if i == 10 {
            s[i] == ' '
        } else if i == 14 {
            s[i] == 'A' || s[i] == 'P'
        } else if i == 15 {
            s[i] == 'M'
        } else {
            is_digit(s[i])
        };
        assert(class);
    }
}

/// Reads a timestamp of the fixed layout `YYYY-MM-DD HH-AP` and normalizes
/// it to the hour of UTC time that it denotes.
///
/// The minutes and seconds that the layout omits are put in, the calendar
/// library parses the result on the 12-hour clock, and the time it returns
/// is taken as UTC. A text of another length or shape, or one that names a
/// month, day or hour that does not exist, is refused with the reason.
pub fn deserialize(raw: &str) -> (r: Result<Timestamp, TimestampFormatError>)
    ensures
        r == normalized(raw@),
{
    if raw.unicode_len() != 16 {
        return Err(TimestampFormatError::UnexpectedLength);
    }
    if !raw.is_ascii() {
        proof {
            if layout_shape(raw@) {
                lemma_shape_is_ascii(raw@);
            }
        }
        return Err(TimestampFormatError::UnexpectedShape);
    }
    if !has_layout_shape(raw) {
        return Err(TimestampFormatError::UnexpectedShape);
    }
    let expanded = insert_minutes(raw);
    proof {
        assert(without_minutes(expanded@) =~= raw@);
        assert(expanded@.subrange(13, 19) =~= zero_minutes());
    }
    match parse_expanded(expanded.as_str()) {
        Ok(t) => Ok(t),
        Err(_) => Err(TimestampFormatError::OutOfRange),
    }
}

/// `DateTime::<Utc>::format` of chrono with [`FORMAT`], on the hour that
/// `Utc.with_ymd_and_hms` builds from the fields with minute and second zero.
///
/// Claimed of chrono, for an hour that exists in a year from 0 to 9999: the
/// text is `YYYY-MM-DD HH:00:00-AP`, each number padded with zeros to its
/// width, the hour on the 12-hour clock and `AM` or `PM` in capitals.
#[verifier::external_body]
fn format_expanded(date: &Timestamp) -> (text: String)
    requires
        date.wf(),
    ensures
        text@ == with_minutes(layout_text(*date)),
{
    let utc = chrono::Utc.with_ymd_and_hms(
        date.year as i32,
        date.month as u32,
        date.day as u32,
        date.hour as u32,
        0,
        0,
    ).unwrap();
    utc.format(FORMAT).to_string()
}

/// Writes an hour in the fixed layout `YYYY-MM-DD HH-AP`: what the calendar
/// library prints on the 12-hour clock, without the minutes and seconds.
pub fn serialize(date: &Timestamp) -> (text: String)
    requires
        date.wf(),
    ensures
        text@ == layout_text(*date),
{
    let long = format_expanded(date);
    proof {
        lemma_text_has_shape(*date);
        lemma_shape_is_ascii(layout_text(*date));
        let short = layout_text(*date);
        assert forall|i: int| 0 <= i < long@.len() implies '\0' <= #[trigger] long@[i]
            <= '\u{7f}' by {
            if i < 13 {
                assert(long@[i] == short[i]);
            } else if i >= 19 {
                assert(long@[i] == short[i - 6]);
            }
        }
        assert(without_minutes(long@) =~= short);
    }
    let text = String::from_str(long.as_str().substring_ascii(0, 13));
    text.concat(long.as_str().substring_ascii(19, 22))
}

/// What is written for an hour that exists has the shape of the layout.
proof fn lemma_text_has_shape(t: Timestamp)
    requires
        t.wf(),
    ensures
        layout_shape(layout_text(t)),
        layout_in_range(layout_text(t)),
        layout_instant(layout_text(t)) == t,
{
}

/// Reading what was written gives the hour back: on every hour that exists,
/// [`deserialize`] undoes [`serialize`].
pub proof fn lemma_read_after_write(t: Timestamp)
    requires
        t.wf(),
    ensures
        normalized(layout_text(t)) == Ok::<Timestamp, TimestampFormatError>(t),
{
    lemma_text_has_shape(t);
}

/// Writing what was read gives the text back: on every text that
/// [`deserialize`] accepts, [`serialize`] undoes it, and the hour read exists.
/// With [`lemma_read_after_write`], the accepted texts and the hours that
/// exist correspond one to one.
pub proof fn lemma_write_after_read(s: Seq<char>)
    requires
        normalized(s) is Ok,
    ensures
        normalized(s)->Ok_0.wf(),
        layout_text(normalized(s)->Ok_0) == s,
{
    let t = normalized(s)->Ok_0;
    let written = layout_text(t);
    lemma_digits_written_back(s[0], s[1]);
    lemma_digits_written_back(s[2], s[3]);
    lemma_digits_written_back(s[5], s[6]);
    lemma_digits_written_back(s[8], s[9]);
    lemma_digits_written_back(s[11], s[12]);
    let year = layout_year(s);
    assert(year / 1000 == two_digits(s, 0) / 10 && year / 100 % 10 == two_digits(s, 0) % 10);
    assert(year / 10 % 10 == two_digits(s, 2) / 10 && year % 10 == two_digits(s, 2) % 10);
    assert(hour_on_dial(t.hour as int) == layout_hour12(s));
    assert(written[0] == s[0] && written[1] == s[1] && written[2] == s[2] && written[3] == s[3]);
    assert(written[5] == s[5] && written[6] == s[6]);
    assert(written[8] == s[8] && written[9] == s[9]);
    assert(written[11] == s[11] && written[12] == s[12]);
    assert(written[14] == s[14]);
    assert(written =~= s);
}

/// The two digits of a number under a hundred, written out, are the digits
/// that it was read from.
proof fn lemma_digits_written_back(hi: char, lo: char)
    requires
        is_digit(hi),
        is_digit(lo),
    ensures
        0 <= digit_value(hi) * 10 + digit_value(lo) <= 99,
        digit_char((digit_value(hi) * 10 + digit_value(lo)) / 10) == hi,
        digit_char((digit_value(hi) * 10 + digit_value(lo)) % 10) == lo,
{
}

/// Two texts that denote the same hour are the same text.
pub proof fn lemma_one_text_per_hour(a: Seq<char>, b: Seq<char>)
    requires
        normalized(a) is Ok,
        normalized(b) is Ok,
        normalized(a)->Ok_0 == normalized(b)->Ok_0,
    ensures
        a == b,
{
    lemma_write_after_read(a);
    lemma_write_after_read(b);
}

} // verus!
