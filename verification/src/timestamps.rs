use vstd::prelude::*;

verus! {

/// The seconds since the epoch that a date and time in `text` stand for
/// when read under the format `format`; `None` where the text does not fit
/// the format or names no date and time.
pub uninterp spec fn parsed_timestamp(text: Seq<char>, format: Seq<char>) -> Option<i64>;

/// The year of an ISO week date that is found when `text` is scanned under
/// `format`: `None` where the text does not fit the format, `Some(None)`
/// where it fits and gives no such year.
pub uninterp spec fn scanned_iso_year(text: Seq<char>, format: Seq<char>) -> Option<Option<i32>>;

/// The date and time that lie `seconds` seconds and `nanos` nanoseconds
/// behind the epoch, written under the format `format`; `None` where the
/// moment is out of the calendar's range or the format cannot be written.
pub uninterp spec fn formatted_timestamp(seconds: i64, nanos: u32, format: Seq<char>) -> Option<
    Seq<char>,
>;

/// The nanoseconds behind the whole second at which a time is written.
pub const WRITTEN_NANOS: u32 = 1;

/// Whether a scan has read the year of an ISO week date that lies at an end
/// of the 32-bit numbers.
pub open spec fn iso_year_at_end(scanned: Option<Option<i32>>) -> bool {
    scanned == Some(Some(i32::MIN)) || scanned == Some(Some(i32::MAX))
}

/// The texts and formats that are handed to the parser: all but those in
/// which the year of an ISO week date lies at an end of the 32-bit numbers.
/// The parser steps from such a year to the one before or behind it and so
/// leaves the numbers; it reads no time from any text with such a year.
pub open spec fn parses_safely(text: Seq<char>, format: Seq<char>) -> bool {
    !iso_year_at_end(scanned_iso_year(text, format))
}

/// The seconds since the epoch that are read from `text` under `format`:
/// what the parser reads where the two are handed to it, and nothing
/// otherwise.
pub open spec fn read_timestamp(text: Seq<char>, format: Seq<char>) -> Option<i64> {
    if parses_safely(text, format) {
        parsed_timestamp(text, format)
    } else {
        None
    }
}

/// The day of the epoch, counted from the first day of the calendar.
pub open spec fn epoch_day() -> int {
    719_163
}

/// Whether a time lies beyond every calendar day that can be counted: the
/// day it falls on has no 32-bit number.
pub open spec fn beyond_calendar(seconds: i64) -> bool {
    let day = seconds as int / 86_400 + epoch_day();
    day < i32::MIN || day > i32::MAX
}

/// The text that is written for a time under `format`: nothing for a time
/// beyond the calendar, else what the formatter writes.
pub open spec fn written_timestamp(seconds: i64, format: Seq<char>) -> Option<Seq<char>> {
    if beyond_calendar(seconds) {
        None
    } else {
        formatted_timestamp(seconds, WRITTEN_NANOS, format)
    }
}

/// What a text that may have been written stands for.
pub open spec fn written(text: Option<String>) -> Option<Seq<char>> {
    match text {
        Some(t) => Some(t@),
        None => None,
    }
}

/// Calls `chrono::format::parse` on the items that
/// `chrono::format::StrftimeItems::new` makes of `format`, and `isoyear` on
/// what was scanned. Nothing is proved of the calls: the result is taken to
/// be `scanned_iso_year` of the two texts, and an error of the scan to be
/// `None`.
#[verifier::external_body]
pub(crate) fn chrono_scan_iso_year(text: &str, format: &str) -> (year: Option<Option<i32>>)
    ensures
        year == scanned_iso_year(text@, format@),
{
    let mut scanned = chrono::format::Parsed::new();
    match chrono::format::parse(&mut scanned, text, chrono::format::StrftimeItems::new(format)) {
        Ok(()) => Some(scanned.isoyear()),
        Err(_) => None,
    }
}

/// Calls `chrono::NaiveDateTime::parse_from_str` and, on what it reads,
/// `timestamp`. Nothing is proved of the call: its result is taken to be
/// `parsed_timestamp` of the two texts, and an error of the parser to be
/// `None`. Texts on which the parser leaves the 32-bit numbers are left out.
#[allow(deprecated)]
#[verifier::external_body]
pub(crate) fn chrono_parse(text: &str, format: &str) -> (seconds: Option<i64>)
    requires
        parses_safely(text@, format@),
    ensures
        seconds == parsed_timestamp(text@, format@),
{
    match chrono::NaiveDateTime::parse_from_str(text, format) {
        Ok(moment) => Some(moment.timestamp()),
        Err(_) => None,
    }
}

/// Calls `chrono::NaiveDateTime::from_timestamp_opt`, then `format` on the
/// moment and `write_to` on what `format` gives. Nothing is proved of the
/// calls: the text that comes out is taken to be `formatted_timestamp` of the
/// arguments, and `None` to come out where the moment is out of range or the
/// format cannot be written. A moment whose day has no 32-bit number is out
/// of range.
#[allow(deprecated)]
#[verifier::external_body]
pub(crate) fn chrono_format(seconds: i64, nanos: u32, format: &str) -> (text: Option<String>)
    requires
        nanos < 1_000_000_000,
    ensures
        written(text) == formatted_timestamp(seconds, nanos, format@),
        beyond_calendar(seconds) ==> text is None,
{
    let moment = chrono::NaiveDateTime::from_timestamp_opt(seconds, nanos)?;
    let mut text = String::new();
    match moment.format(format).write_to(&mut text) {
        Ok(()) => Some(text),
        Err(_) => None,
    }
}

/// Reads a date and time from `text` under `format` as seconds since the
/// epoch.
pub fn parse_timestamp(text: &str, format: &str) -> (seconds: Option<i64>)
    ensures
        seconds == read_timestamp(text@, format@),
{
    match chrono_scan_iso_year(text, format) {
        Some(Some(year)) if year == i32::MIN || year == i32::MAX => None,
        _ => chrono_parse(text, format),
    }
}

/// Writes a time, given as seconds since the epoch, under `format`.
pub fn format_timestamp(seconds: i64, format: &str) -> (text: Option<String>)
    ensures
        written(text) == written_timestamp(seconds, format@),
{
    chrono_format(seconds, WRITTEN_NANOS, format)
}

} // verus!
