use crate::fields::append_field;
use crate::fields::lemma_row_of_six_fields;
use crate::fields::row_of_fields;
use crate::fields::texts;
use crate::median::Median;
use crate::record::stays;
use crate::record::Stay;
use crate::record::Visit;
use crate::timestamps::format_timestamp;
use crate::timestamps::written;
use crate::timestamps::written_timestamp;
use vstd::prelude::*;
use vstd::string::StringExecFns;

verus! {

/// The character that stands for the digit `d`.
pub open spec fn digit(d: int) -> char {
    if d == 0 {
        '0'
    } else if d == 1 {
        '1'
    } else if d == 2 {
        '2'
    } else if d == 3 {
        '3'
    } else if d == 4 {
        '4'
    } else if d == 5 {
        '5'
    } else if d == 6 {
        '6'
    } else if d == 7 {
        '7'
    } else if d == 8 {
        '8'
    } else {
        '9'
    }
}

/// The decimal digits of a natural number, without leading zeros.
pub open spec fn digits_of(n: nat) -> Seq<char>
    decreases n,
{
    if n < 10 {
        seq![digit(n as int)]
    } else {
        digits_of(n / 10).push(digit((n % 10) as int))
    }
}

/// An integer in decimal notation, with a minus sign where it is negative.
pub open spec fn decimal(n: int) -> Seq<char> {
    if n < 0 {
        seq!['-'] + digits_of((-n) as nat)
    } else {
        digits_of(n as nat)
    }
}

/// The text of one digit.
fn digit_text(d: u8) -> (text: &'static str)
    requires
        d < 10,
    ensures
        text@ == seq![digit(d as int)],
{
    proof {
        reveal_strlit("0");
        reveal_strlit("1");
        reveal_strlit("2");
        reveal_strlit("3");
        reveal_strlit("4");
        reveal_strlit("5");
        reveal_strlit("6");
        reveal_strlit("7");
        reveal_strlit("8");
        reveal_strlit("9");
    }
    let text = if d == 0 {
        "0"
    } else if d == 1 {
        "1"
    } else if d == 2 {
        "2"
    } else if d == 3 {
        "3"
    } else if d == 4 {
        "4"
    } else if d == 5 {
        "5"
    } else if d == 6 {
        "6"
    } else if d == 7 {
        "7"
    } else if d == 8 {
        "8"
    } else {
        "9"
    };
    assert(text@ == seq![digit(d as int)]);
    text
}

/// Appends the decimal digits of `n` to `out`.
fn append_digits(out: &mut String, n: u128)
    ensures
        final(out)@ == old(out)@ + digits_of(n as nat),
    decreases n,
{
    if n >= 10 {
        append_digits(out, n / 10);
    }
    let last = (n % 10) as u8;
    out.append(digit_text(last));
}

/// Writes the time from `start` to `end` as a decimal number.
pub fn duration_text(start: i64, end: i64) -> (text: String)
    ensures
        text@ == decimal(end - start),
{
    let span: i128 = end as i128 - start as i128;
    let mut text = String::new();
    if span < 0 {
        proof {
            reveal_strlit("-");
        }
        text.append("-");
        append_digits(&mut text, (-span) as u128);
    } else {
        append_digits(&mut text, span as u128);
    }
    text
}

/// A visit whose time cannot be written: its position among the visits.
#[derive(Clone, Copy, Debug, PartialEq, Eq, Structural)]
pub struct UnwritableTime {
    pub visit: usize,
}

/// The executable writer `show_coordinate` can be put to every median.
pub open spec fn shows_every_median<S: Fn(Median) -> String>(show_coordinate: S) -> bool {
    forall|m: Median| #[trigger] show_coordinate.requires((m,))
}

/// The executable writer `show_coordinate` writes each median as `shown` says.
pub open spec fn shows_as<S: Fn(Median) -> String>(
    show_coordinate: S,
    shown: spec_fn(Median) -> Seq<char>,
) -> bool {
    forall|m: Median, text: String| #[trigger]
        show_coordinate.ensures((m,), text) ==> text@ == shown(m)
}

/// The row of a stay: entity, start, end, the two coordinates and the
/// duration; `None` where the start or the end cannot be written.
pub open spec fn stay_row(
    stay: Stay,
    format: Seq<char>,
    shown: spec_fn(Median) -> Seq<char>,
) -> Option<Seq<char>> {
    let start = written_timestamp(stay.start_time, format);
    let end = written_timestamp(stay.end_time, format);
    if start is Some && end is Some {
        Some(stay_row_with(stay, start->0, end->0, shown(stay.point.x), shown(stay.point.y)))
    } else {
        None
    }
}

/// The rows of the stays, in order; or the first stay whose time cannot be
/// written.
pub open spec fn rows_of(
    stays: Seq<Stay>,
    format: Seq<char>,
    shown: spec_fn(Median) -> Seq<char>,
) -> Result<Seq<Seq<char>>, UnwritableTime>
    decreases stays.len(),
{
    if stays.len() == 0 {
        Ok(Seq::empty())
    } else {
        match rows_of(stays.drop_last(), format, shown) {
            Err(error) => Err(error),
            Ok(rows) => match stay_row(stays.last(), format, shown) {
                None => Err(UnwritableTime { visit: (stays.len() - 1) as usize }),
                Some(row) => Ok(rows.push(row)),
            },
        }
    }
}

/// Once the time of a stay cannot be written, the stays behind it change
/// nothing.
pub proof fn lemma_first_unwritable_stays(
    stays: Seq<Stay>,
    format: Seq<char>,
    shown: spec_fn(Median) -> Seq<char>,
    upto: int,
)
    requires
        0 <= upto <= stays.len(),
        rows_of(stays.take(upto), format, shown) is Err,
    ensures
        rows_of(stays, format, shown) == rows_of(stays.take(upto), format, shown),
    decreases stays.len(),
{
    if upto == stays.len() {
        assert(stays.take(upto) == stays);
    } else {
        assert(stays.drop_last().take(upto) == stays.take(upto));
        lemma_first_unwritable_stays(stays.drop_last(), format, shown, upto);
    }
}

/// What the result of writing all visits stands for.
pub open spec fn rows_view(rows: Result<Vec<String>, UnwritableTime>) -> Result<
    Seq<Seq<char>>,
    UnwritableTime,
> {
    match rows {
        Ok(rows) => Ok(texts(rows@)),
        Err(error) => Err(error),
    }
}

/// The row of a stay whose start, end and coordinates are written as given.
pub open spec fn stay_row_with(
    stay: Stay,
    start: Seq<char>,
    end: Seq<char>,
    x: Seq<char>,
    y: Seq<char>,
) -> Seq<char> {
    row_of_fields(seq![stay.id, start, end, x, y, decimal(stay.end_time - stay.start_time)])
}

/// Puts the row of a visit together: the entity, then the start, the end and
/// the coordinates as they are given, then the duration.
pub fn visit_row(visit: &Visit, start: &str, end: &str, x: &str, y: &str) -> (row: String)
    ensures
        row@ == stay_row_with(visit@, start@, end@, x@, y@),
{
    let duration = duration_text(visit.start_time, visit.end_time);
    let mut row = visit.id.clone();
    append_field(&mut row, start);
    append_field(&mut row, end);
    append_field(&mut row, x);
    append_field(&mut row, y);
    append_field(&mut row, duration.as_str());
    proof {
        lemma_row_of_six_fields(visit.id@, start@, end@, x@, y@, duration@);
    }
    row
}

/// Writes the row of one visit.
pub fn fmt_visit_csv<S: Fn(Median) -> String>(
    visit: &Visit,
    date_fmt: &str,
    show_coordinate: &S,
) -> (row: Option<String>)
    requires
        shows_every_median(*show_coordinate),
    ensures
        forall|shown: spec_fn(Median) -> Seq<char>| #[trigger]
            shows_as(*show_coordinate, shown) ==> written(row) == stay_row(
                visit@,
                date_fmt@,
                shown,
            ),
{
    let start = match format_timestamp(visit.start_time, date_fmt) {
        Some(start) => start,
        None => {
            return None;
        },
    };
    let end = match format_timestamp(visit.end_time, date_fmt) {
        Some(end) => end,
        None => {
            return None;
        },
    };
    let x = show_coordinate(visit.point.x);
    let y = show_coordinate(visit.point.y);
    Some(visit_row(visit, start.as_str(), end.as_str(), x.as_str(), y.as_str()))
}

/// Writes the visits as rows of a delimited text, one row for each visit.
/// `show_coordinate` writes a coordinate of the visit's place. The first
/// visit whose time cannot be written ends the writing.
pub fn fmt_visits_csv<S: Fn(Median) -> String>(
    visits: Vec<Visit>,
    date_fmt: &String,
    show_coordinate: S,
) -> (rows: Result<Vec<String>, UnwritableTime>)
    requires
        shows_every_median(show_coordinate),
    ensures
        forall|shown: spec_fn(Median) -> Seq<char>| #[trigger]
            shows_as(show_coordinate, shown) ==> rows_view(rows) == rows_of(
                stays(visits@),
                date_fmt@,
                shown,
            ),
{
    let mut output: Vec<String> = Vec::new();
    let mut at: usize = 0;
    assert(stays(visits@).take(0) == Seq::<Stay>::empty());
    assert(texts(output@) == Seq::<Seq<char>>::empty());
    while at < visits.len()
        invariant
            at <= visits.len(),
            shows_every_median(show_coordinate),
            forall|shown: spec_fn(Median) -> Seq<char>| #[trigger]
                shows_as(show_coordinate, shown) ==> rows_of(
                    stays(visits@).take(at as int),
                    date_fmt@,
                    shown,
                ) == Ok::<Seq<Seq<char>>, UnwritableTime>(texts(output@)),
        decreases visits.len() - at,
    {
        let ghost before = texts(output@);
        let ghost seen = stays(visits@).take(at + 1);
        proof {
            assert(seen.drop_last() == stays(visits@).take(at as int));
            assert(seen.last() == visits@[at as int]@);
        }
        match fmt_visit_csv(&visits[at], date_fmt.as_str(), &show_coordinate) {
            None => {
                proof {
                    assert forall|shown: spec_fn(Median) -> Seq<char>| #[trigger]
                        shows_as(show_coordinate, shown) implies rows_of(
                        stays(visits@),
                        date_fmt@,
                        shown,
                    ) == Err::<Seq<Seq<char>>, UnwritableTime>(UnwritableTime { visit: at }) by {
                        assert(rows_of(seen, date_fmt@, shown) is Err);
                        lemma_first_unwritable_stays(stays(visits@), date_fmt@, shown, at + 1);
                    }
                }
                return Err(UnwritableTime { visit: at });
            },
            Some(row) => {
                output.push(row);
                assert(texts(output@) == before.push(row@));
            },
        }
        at += 1;
    }
    assert(stays(visits@).take(at as int) == stays(visits@));
    Ok(output)
}

/// The names of the columns of a row, in order.
pub open spec fn column_names() -> Seq<Seq<char>> {
    seq!["id"@, "start"@, "end"@, "x"@, "y"@, "duration"@]
}

/// Writes the row that names the columns.
pub fn csv_header() -> (row: String)
    ensures
        row@ == row_of_fields(column_names()),
{
    let mut row = String::from_str("id");
    append_field(&mut row, "start");
    append_field(&mut row, "end");
    append_field(&mut row, "x");
    append_field(&mut row, "y");
    append_field(&mut row, "duration");
    proof {
        lemma_row_of_six_fields("id"@, "start"@, "end"@, "x"@, "y"@, "duration"@);
    }
    row
}

} // verus!
