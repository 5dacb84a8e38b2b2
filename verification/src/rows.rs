use crate::fields::fields_of;
use crate::fields::split_fields;
use crate::fields::texts;
use crate::geometry::Point;
use crate::record::samples;
use crate::record::Record;
use crate::record::Sample;
use crate::timestamps::parse_timestamp;
use crate::timestamps::read_timestamp;
use vstd::prelude::*;
use vstd::string::StrSliceExecFns;

verus! {

/// Why a row is rejected.
#[derive(Clone, Copy, Debug, PartialEq, Eq, Structural)]
pub enum Fault {
    /// The row has fewer fields than a sample needs.
    MissingField,
    /// The second field is no date and time in the expected format.
    BadTime,
    /// The fourth field is no coordinate.
    BadCoordinate,
}

/// A rejected row: its position among the lines, from 0, and the reason.
#[derive(Clone, Copy, Debug, PartialEq, Eq, Structural)]
pub struct RowError {
    pub line: usize,
    pub fault: Fault,
}

/// The executable reader `parse_coordinate` can be put to every text.
pub open spec fn reads_every_text<P: Fn(&str) -> Option<i64>>(parse_coordinate: P) -> bool {
    forall|text: &str| #[trigger] parse_coordinate.requires((text,))
}

/// The executable reader `parse_coordinate` reads each text as `reading` says.
pub open spec fn reads_as<P: Fn(&str) -> Option<i64>>(
    parse_coordinate: P,
    reading: spec_fn(Seq<char>) -> Option<i64>,
) -> bool {
    forall|text: &str, read: Option<i64>| #[trigger]
        parse_coordinate.ensures((text,), read) ==> read == reading(text@)
}

/// What the fields of a row say, given what was read from them: the
/// coordinate `x` from the third field, the time from the second and the
/// coordinate `y` from the fourth, each `None` where the field is missing or
/// holds no such thing. A row whose third field is no coordinate is a header
/// and says nothing. Any other row that does not give all four is rejected.
pub open spec fn row_from(
    fields: Seq<Seq<char>>,
    x: Option<i64>,
    time: Option<i64>,
    y: Option<i64>,
) -> Result<Option<Sample>, Fault> {
    if fields.len() < 3 {
        Err(Fault::MissingField)
    } else if x is None {
        Ok(None)
    } else if time is None {
        Err(Fault::BadTime)
    } else if fields.len() < 4 {
        Err(Fault::MissingField)
    } else if y is None {
        Err(Fault::BadCoordinate)
    } else {
        Ok(Some(Sample { id: fields[0], time: time->0, point: Point { x: x->0, y: y->0 } }))
    }
}

/// What a row says: its fields are the entity, the time, and the two
/// coordinates.
pub open spec fn row_of(
    row: Seq<char>,
    format: Seq<char>,
    reading: spec_fn(Seq<char>) -> Option<i64>,
) -> Result<Option<Sample>, Fault> {
    let fields = fields_of(row);
    row_from(
        fields,
        reading(fields[2]),
        read_timestamp(fields[1], format),
        reading(fields[3]),
    )
}

/// What the result of reading one row stands for.
pub open spec fn row_view(row: Result<Option<Record>, Fault>) -> Result<Option<Sample>, Fault> {
    match row {
        Ok(Some(record)) => Ok(Some(record@)),
        Ok(None) => Ok(None),
        Err(fault) => Err(fault),
    }
}

/// Puts a row together from its fields and from what was read from them.
pub fn row_from_fields(
    fields: &Vec<String>,
    x: Option<i64>,
    time: Option<i64>,
    y: Option<i64>,
) -> (read: Result<Option<Record>, Fault>)
    ensures
        row_view(read) == row_from(texts(fields@), x, time, y),
{
    assert(texts(fields@).len() == fields@.len());
    if fields.len() < 3 {
        return Err(Fault::MissingField);
    }
    let x = match x {
        Some(x) => x,
        None => {
            return Ok(None);
        },
    };
    let time = match time {
        Some(time) => time,
        None => {
            return Err(Fault::BadTime);
        },
    };
    if fields.len() < 4 {
        return Err(Fault::MissingField);
    }
    let y = match y {
        Some(y) => y,
        None => {
            return Err(Fault::BadCoordinate);
        },
    };
    assert(texts(fields@)[0] == fields@[0]@);
    Ok(Some(Record { id: fields[0].clone(), time, point: Point { x, y } }))
}

/// Reads one row. Each field is read only if the fields before it were
/// found in order.
pub fn parse_row<P: Fn(&str) -> Option<i64>>(
    row: &str,
    date_fmt: &str,
    parse_coordinate: &P,
) -> (read: Result<Option<Record>, Fault>)
    requires
        reads_every_text(*parse_coordinate),
    ensures
        forall|reading: spec_fn(Seq<char>) -> Option<i64>| #[trigger]
            reads_as(*parse_coordinate, reading) ==> row_view(read) == row_of(
                row@,
                date_fmt@,
                reading,
            ),
{
    let fields = split_fields(row);
    assert(texts(fields@).len() == fields@.len());
    let x = if fields.len() >= 3 {
        assert(texts(fields@)[2] == fields@[2]@);
        parse_coordinate(fields[2].as_str())
    } else {
        None
    };
    let time = if fields.len() >= 3 && x.is_some() {
        assert(texts(fields@)[1] == fields@[1]@);
        parse_timestamp(fields[1].as_str(), date_fmt)
    } else {
        None
    };
    let y = if fields.len() >= 4 && time.is_some() {
        assert(texts(fields@)[3] == fields@[3]@);
        parse_coordinate(fields[3].as_str())
    } else {
        None
    };
    row_from_fields(&fields, x, time, y)
}

/// The row on a line as it was read: the line without the line break at its
/// end. The last line of a text may end without one and is then the row.
pub open spec fn row_text(line: Seq<char>) -> Seq<char> {
    if line.len() > 0 && line.last() == '\n' {
        line.drop_last()
    } else {
        line
    }
}

/// What the lines say: the samples of their rows, in order, headers left
/// out; or the first row that is rejected.
pub open spec fn data_of(
    lines: Seq<Seq<char>>,
    format: Seq<char>,
    reading: spec_fn(Seq<char>) -> Option<i64>,
) -> Result<Seq<Sample>, RowError>
    decreases lines.len(),
{
    if lines.len() == 0 {
        Ok(Seq::empty())
    } else {
        match data_of(lines.drop_last(), format, reading) {
            Err(error) => Err(error),
            Ok(data) => match row_of(row_text(lines.last()), format, reading) {
                Err(fault) => Err(RowError { line: (lines.len() - 1) as usize, fault }),
                Ok(None) => Ok(data),
                Ok(Some(sample)) => Ok(data.push(sample)),
            },
        }
    }
}

/// Once a row is rejected, the lines behind it change nothing.
pub proof fn lemma_first_rejection_stays(
    lines: Seq<Seq<char>>,
    format: Seq<char>,
    reading: spec_fn(Seq<char>) -> Option<i64>,
    upto: int,
)
    requires
        0 <= upto <= lines.len(),
        data_of(lines.take(upto), format, reading) is Err,
    ensures
        data_of(lines, format, reading) == data_of(lines.take(upto), format, reading),
    decreases lines.len(),
{
    if upto == lines.len() {
        assert(lines.take(upto) == lines);
    } else {
        assert(lines.drop_last().take(upto) == lines.take(upto));
        lemma_first_rejection_stays(lines.drop_last(), format, reading, upto);
    }
}

/// What the result of reading all lines stands for.
pub open spec fn data_view(read: Result<Vec<Record>, RowError>) -> Result<Seq<Sample>, RowError> {
    match read {
        Ok(data) => Ok(samples(data@)),
        Err(error) => Err(error),
    }
}

/// Reads the samples from the lines of a delimited text, each line as it was
/// read, with its line break where it has one. `parse_coordinate` reads a coordinate field.
/// Header rows are skipped; the first row that is rejected ends the reading.
pub fn read_stdin_data<P: Fn(&str) -> Option<i64>>(
    lines: &Vec<String>,
    date_fmt: &String,
    parse_coordinate: P,
) -> (read: Result<Vec<Record>, RowError>)
    requires
        reads_every_text(parse_coordinate),
    ensures
        forall|reading: spec_fn(Seq<char>) -> Option<i64>| #[trigger]
            reads_as(parse_coordinate, reading) ==> data_view(read) == data_of(
                texts(lines@),
                date_fmt@,
                reading,
            ),
{
    let mut data: Vec<Record> = Vec::new();
    let mut at: usize = 0;
    assert(texts(lines@).take(0) == Seq::<Seq<char>>::empty());
    assert(samples(data@) == Seq::<Sample>::empty());
    while at < lines.len()
        invariant
            at <= lines.len(),
            reads_every_text(parse_coordinate),
            forall|reading: spec_fn(Seq<char>) -> Option<i64>| #[trigger]
                reads_as(parse_coordinate, reading) ==> data_of(
                    texts(lines@).take(at as int),
                    date_fmt@,
                    reading,
                ) == Ok::<Seq<Sample>, RowError>(samples(data@)),
        decreases lines.len() - at,
    {
        let line = lines[at].as_str();
        let len = line.unicode_len();
        let row = if len > 0 && line.get_char(len - 1) == '\n' {
            line.substring_char(0, len - 1)
        } else {
            line
        };
        let ghost before = samples(data@);
        let ghost seen = texts(lines@).take(at + 1);
        proof {
            assert(seen.drop_last() == texts(lines@).take(at as int));
            assert(seen.last() == lines@[at as int]@);
            assert(row@ == row_text(seen.last()));
        }
        match parse_row(row, date_fmt.as_str(), &parse_coordinate) {
            Err(fault) => {
                proof {
                    assert forall|reading: spec_fn(Seq<char>) -> Option<i64>| #[trigger]
                        reads_as(parse_coordinate, reading) implies data_of(
                        texts(lines@),
                        date_fmt@,
                        reading,
                    ) == Err::<Seq<Sample>, RowError>(RowError { line: at, fault }) by {
                        assert(data_of(seen, date_fmt@, reading) is Err);
                        lemma_first_rejection_stays(texts(lines@), date_fmt@, reading, at + 1);
                    }
                }
                return Err(RowError { line: at, fault });
            },
            Ok(None) => {},
            Ok(Some(record)) => {
                data.push(record);
                assert(samples(data@) == before.push(record@));
            },
        }
        at += 1;
    }
    assert(texts(lines@).take(at as int) == texts(lines@));
    Ok(data)
}

} // verus!
