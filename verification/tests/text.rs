use stay_points::csv::csv_header;
use stay_points::csv::duration_text;
use stay_points::csv::fmt_visit_csv;
use stay_points::csv::fmt_visits_csv;
use stay_points::csv::visit_row;
use stay_points::csv::UnwritableTime;
use stay_points::fields::append_field;
use stay_points::fields::split_fields;
use stay_points::median::Median;
use stay_points::record::MedianPoint;
use stay_points::record::Visit;
use stay_points::rows::parse_row;
use stay_points::rows::read_stdin_data;
use stay_points::rows::row_from_fields;
use stay_points::rows::Fault;
use stay_points::rows::RowError;
use stay_points::timestamps::format_timestamp;
use stay_points::timestamps::parse_timestamp;
use std::io::BufRead;

fn key(v: f64) -> i64 {
    let bits = v.to_bits() as i64;
    if bits < 0 {
        bits ^ i64::MAX
    } else {
        bits
    }
}

fn coordinate(k: i64) -> f64 {
    let bits = if k < 0 { k ^ i64::MAX } else { k };
    f64::from_bits(bits as u64)
}

fn parse_coordinate(text: &str) -> Option<i64> {
    text.parse::<f64>().ok().map(key)
}

fn show_coordinate(m: Median) -> String {
    match m {
        Median::Middle(v) => format!("{}", coordinate(v)),
        Median::Between(lo, hi) => format!("{}", (coordinate(hi) + coordinate(lo)) / 2.0),
    }
}

fn lines_as_read(input: &str) -> Vec<String> {
    let mut reader = input.as_bytes();
    let mut lines = Vec::new();
    loop {
        let mut line = String::new();
        if reader.read_line(&mut line).unwrap() == 0 {
            break;
        }
        lines.push(line);
    }
    lines
}

fn visit(id: &str, start_time: i64, end_time: i64, x: f64, y: f64) -> Visit {
    Visit {
        id: String::from(id),
        start_time,
        end_time,
        point: MedianPoint { x: Median::Middle(key(x)), y: Median::Middle(key(y)) },
    }
}

#[test]
fn test_read_multiline_stdin_data() {
    let mut input = String::new();
    input.push_str("a,2020-01-01 10:00:00,1.0,1.0\nb,2020-01-01 16:00:00,1.0,1.0");
    let date_fmt = String::from("%Y-%m-%d %H:%M:%S");

    let data = read_stdin_data(&lines_as_read(&input), &date_fmt, parse_coordinate).unwrap();

    assert_eq!(data.len(), 2);
    assert_eq!(data[0].id, String::from("a"));
    assert_eq!(data[0].time, 1577872800);
    assert_eq!(coordinate(data[0].point.x), 1.0);
    assert_eq!(coordinate(data[0].point.y), 1.0);
    assert_eq!(data[1].id, String::from("b"));
    assert_eq!(data[1].time, 1577894400);
    assert_eq!(coordinate(data[1].point.x), 1.0);
    assert_eq!(coordinate(data[1].point.y), 1.0);
}

#[test]
fn test_read_multiline_stdin_data_header() {
    let mut input = String::new();
    input.push_str("id,time,x,y\nb,2020-01-01 16:00:00,1.0,1.0");
    let date_fmt = String::from("%Y-%m-%d %H:%M:%S");

    let data = read_stdin_data(&lines_as_read(&input), &date_fmt, parse_coordinate).unwrap();

    assert_eq!(data.len(), 1);
}

#[test]
fn test_read_last_line_without_line_break() {
    let date_fmt = String::from("%Y-%m-%d %H:%M:%S");
    let lines = vec![
        String::from("a,2020-01-01 10:00:00,2.5,7.25\n"),
        String::from("a,2020-01-01 10:00:01,2.5,7.25"),
    ];
    let data = read_stdin_data(&lines, &date_fmt, parse_coordinate).unwrap();
    assert_eq!(data.len(), 2);
    assert_eq!(coordinate(data[0].point.y), 7.25);
    assert_eq!(coordinate(data[1].point.y), 7.25);
    assert_eq!(data[1].time - data[0].time, 1);

    let data = read_stdin_data(
        &lines_as_read("a,2020-01-01 10:00:00,1.0,12"),
        &date_fmt,
        parse_coordinate,
    )
    .unwrap();
    assert_eq!(data.len(), 1);
    assert_eq!(data[0].time, 1577872800);
    assert_eq!(coordinate(data[0].point.x), 1.0);
    assert_eq!(coordinate(data[0].point.y), 12.0);
}

#[test]
fn test_read_only_a_line_break_is_dropped() {
    let date_fmt = String::from("%Y-%m-%d %H:%M:%S");
    // a carriage return in front of the line break stays in the last field
    let lines = vec![String::from("a,2020-01-01 10:00:00,1.0,2.0\r\n")];
    let read = read_stdin_data(&lines, &date_fmt, parse_coordinate);
    assert_eq!(read.err(), Some(RowError { line: 0, fault: Fault::BadCoordinate }));
    // of two line breaks one is dropped
    let lines = vec![String::from("a,2020-01-01 10:00:00,1.0,2.0\n\n")];
    let read = read_stdin_data(&lines, &date_fmt, parse_coordinate);
    assert_eq!(read.err(), Some(RowError { line: 0, fault: Fault::BadCoordinate }));
}

#[test]
fn test_read_nothing() {
    let date_fmt = String::from("%Y-%m-%d %H:%M:%S");
    let data = read_stdin_data(&Vec::new(), &date_fmt, parse_coordinate).unwrap();
    assert_eq!(data.len(), 0);
}

#[test]
fn test_read_rejects_first_bad_row() {
    let date_fmt = String::from("%Y-%m-%d %H:%M:%S");
    let read = |input: &str| read_stdin_data(&lines_as_read(input), &date_fmt, parse_coordinate);

    let missing = read("a,2020-01-01 10:00:00,1.0,1.0\nb,2020-01-01 16:00:00\n");
    assert_eq!(missing.err(), Some(RowError { line: 1, fault: Fault::MissingField }));

    let no_y = read("a,2020-01-01 10:00:00,1.0\n");
    assert_eq!(no_y.err(), Some(RowError { line: 0, fault: Fault::MissingField }));

    let bad_time = read("id,time,x,y\na,yesterday,1.0,1.0\nb,2020-01-01 16:00:00\n");
    assert_eq!(bad_time.err(), Some(RowError { line: 1, fault: Fault::BadTime }));

    let bad_time_first = read("a,yesterday,1.0\n");
    assert_eq!(bad_time_first.err(), Some(RowError { line: 0, fault: Fault::BadTime }));

    let bad_y = read("a,2020-01-01 10:00:00,1.0,north\n");
    assert_eq!(bad_y.err(), Some(RowError { line: 0, fault: Fault::BadCoordinate }));

    let empty_line = read("a,2020-01-01 10:00:00,1.0,1.0\n\n");
    assert_eq!(empty_line.err(), Some(RowError { line: 1, fault: Fault::MissingField }));
}

#[test]
fn test_parse_row() {
    let row = parse_row("walker,1999-12-31 23:59:59,-3.5,4e2", "%Y-%m-%d %H:%M:%S", &parse_coordinate);
    let record = row.unwrap().unwrap();
    assert_eq!(record.id, String::from("walker"));
    assert_eq!(record.time, 946684799);
    assert_eq!(coordinate(record.point.x), -3.5);
    assert_eq!(coordinate(record.point.y), 400.0);

    let header = parse_row("id,time,x,y", "%Y-%m-%d %H:%M:%S", &parse_coordinate);
    assert!(matches!(header, Ok(None)));

    let other_format = parse_row("w,31/12/1999 23:59,0,0", "%d/%m/%Y %H:%M", &parse_coordinate);
    assert_eq!(other_format.unwrap().unwrap().time, 946684740);
}

#[test]
fn test_split_fields() {
    assert_eq!(split_fields("a,b,c"), vec!["a", "b", "c"]);
    assert_eq!(split_fields(""), vec![""]);
    assert_eq!(split_fields(","), vec!["", ""]);
    assert_eq!(split_fields("a,,b,"), vec!["a", "", "b", ""]);
    assert_eq!(split_fields("no separator"), vec!["no separator"]);
    assert_eq!(split_fields("é,ü"), vec!["é", "ü"]);
}

#[test]
fn test_fmt_visits_csv() {
    let visits = vec![
        visit("a", 1577872800, 1577894400, 1.5, 1.5),
        visit("b", 1577872800, 1577894400, 1.5, 1.5),
    ];
    let date_fmt = String::from("%Y-%m-%d %H:%M:%S");

    let csv = fmt_visits_csv(visits, &date_fmt, show_coordinate).unwrap();
    assert_eq!(csv.len(), 2);
    assert_eq!(csv[0], String::from("a,2020-01-01 10:00:00,2020-01-01 16:00:00,1.5,1.5,21600"));
    assert_eq!(csv[1], String::from("b,2020-01-01 10:00:00,2020-01-01 16:00:00,1.5,1.5,21600"));
}

#[test]
fn test_fmt_visit_between_two_values() {
    let stay = Visit {
        id: String::from("a"),
        start_time: 0,
        end_time: 59,
        point: MedianPoint {
            x: Median::Between(key(1.0), key(2.0)),
            y: Median::Between(key(-4.0), key(-1.0)),
        },
    };
    let row = fmt_visit_csv(&stay, "%H:%M:%S", &show_coordinate);
    assert_eq!(row, Some(String::from("a,00:00:00,00:00:59,1.5,-2.5,59")));
}

#[test]
fn test_fmt_writes_nanosecond_one() {
    let stay = visit("a", 0, 1, 0.0, 0.0);
    let row = fmt_visit_csv(&stay, "%S%.9f", &show_coordinate);
    assert_eq!(row, Some(String::from("a,00.000000001,01.000000001,0,0,1")));
}

#[test]
fn test_fmt_unwritable_time() {
    let date_fmt = String::from("%Y-%m-%d %H:%M:%S");
    let visits = vec![visit("a", 0, 10, 0.0, 0.0), visit("b", 0, i64::MAX, 0.0, 0.0)];
    let written = fmt_visits_csv(visits, &date_fmt, show_coordinate);
    assert_eq!(written, Err(UnwritableTime { visit: 1 }));

    let bad_format = String::from("%Q");
    let visits = vec![visit("a", 0, 10, 0.0, 0.0)];
    let written = fmt_visits_csv(visits, &bad_format, show_coordinate);
    assert_eq!(written, Err(UnwritableTime { visit: 0 }));
}

#[test]
fn test_fmt_no_visits() {
    let date_fmt = String::from("%Y-%m-%d %H:%M:%S");
    assert_eq!(fmt_visits_csv(Vec::new(), &date_fmt, show_coordinate), Ok(Vec::new()));
}

#[test]
fn test_duration_text() {
    assert_eq!(duration_text(1577872800, 1577894400), "21600");
    assert_eq!(duration_text(0, 0), "0");
    assert_eq!(duration_text(5, 14), "9");
    assert_eq!(duration_text(5, 15), "10");
    assert_eq!(duration_text(10, 3), "-7");
    assert_eq!(duration_text(i64::MIN, i64::MAX), "18446744073709551615");
    assert_eq!(duration_text(i64::MAX, i64::MIN), "-18446744073709551615");
}

#[test]
fn test_row_from_fields() {
    let fields = |row: &str| -> Vec<String> { row.split(',').map(String::from).collect() };

    let record = row_from_fields(&fields("a,t,x,y"), Some(3), Some(77), Some(-4)).unwrap().unwrap();
    assert_eq!(record.id, String::from("a"));
    assert_eq!(record.time, 77);
    assert_eq!((record.point.x, record.point.y), (3, -4));

    // a third field that is no coordinate makes a header, whatever else is there
    assert!(matches!(row_from_fields(&fields("id,time,x,y"), None, None, None), Ok(None)));
    assert!(matches!(row_from_fields(&fields("id,time,x"), None, Some(1), Some(1)), Ok(None)));

    assert!(matches!(row_from_fields(&fields("a,t"), Some(3), Some(77), Some(4)), Err(Fault::MissingField)));
    assert!(matches!(row_from_fields(&fields(""), None, None, None), Err(Fault::MissingField)));
    assert!(matches!(row_from_fields(&fields("a,t,x,y"), Some(3), None, Some(4)), Err(Fault::BadTime)));
    assert!(matches!(row_from_fields(&fields("a,t,x"), Some(3), None, None), Err(Fault::BadTime)));
    assert!(matches!(row_from_fields(&fields("a,t,x"), Some(3), Some(77), None), Err(Fault::MissingField)));
    assert!(matches!(row_from_fields(&fields("a,t,x,y"), Some(3), Some(77), None), Err(Fault::BadCoordinate)));

    // fields behind the fourth are not looked at
    let record = row_from_fields(&fields("a,t,x,y,z"), Some(1), Some(2), Some(3)).unwrap().unwrap();
    assert_eq!(record.time, 2);
}

#[test]
fn test_visit_row() {
    let stay = visit("walker", 100, 160, 0.0, 0.0);
    assert_eq!(visit_row(&stay, "s", "e", "x", "y"), "walker,s,e,x,y,60");
    let backwards = visit("", 160, 100, 0.0, 0.0);
    assert_eq!(visit_row(&backwards, "", "", "", ""), ",,,,,-60");
}

#[test]
fn test_append_field() {
    let mut row = String::from("a");
    append_field(&mut row, "b");
    append_field(&mut row, "");
    assert_eq!(row, "a,b,");
    assert_eq!(split_fields(&row), vec!["a", "b", ""]);
}

#[test]
fn test_csv_header() {
    assert_eq!(csv_header(), "id,start,end,x,y,duration");
    assert_eq!(split_fields(&csv_header()).len(), 6);
}

#[test]
fn test_parse_timestamp() {
    assert_eq!(parse_timestamp("2020-01-01 10:00:00", "%Y-%m-%d %H:%M:%S"), Some(1577872800));
    assert_eq!(parse_timestamp("1970-01-01 00:00:00", "%Y-%m-%d %H:%M:%S"), Some(0));
    assert_eq!(parse_timestamp("1969-12-31 23:59:59", "%Y-%m-%d %H:%M:%S"), Some(-1));
    assert_eq!(parse_timestamp("2020-01-01", "%Y-%m-%d %H:%M:%S"), None);
    assert_eq!(parse_timestamp("2020-02-30 10:00:00", "%Y-%m-%d %H:%M:%S"), None);
    assert_eq!(parse_timestamp("", "%Y-%m-%d %H:%M:%S"), None);
    // seconds since the epoch, a number of ten digits
    assert_eq!(parse_timestamp("1577872800", "%s"), Some(1577872800));
    // an ISO week date
    assert_eq!(parse_timestamp("2020 01 3 10:00", "%G %V %u %H:%M"), Some(1577872800));
}

#[test]
fn test_parse_timestamp_long_iso_year() {
    assert_eq!(parse_timestamp("-2147483648 1 1 00:00", "%G %V %u %H:%M"), None);
    assert_eq!(parse_timestamp("+2147483647 52 7 00:00", "%G %V %u %H:%M"), None);
    let row = parse_row("a,-2147483648 1 1 00:00,1.0,1.0", "%G %V %u %H:%M", &parse_coordinate);
    assert!(matches!(row, Err(Fault::BadTime)));
}

#[test]
fn test_parse_timestamp_long_numbers() {
    // a compact time under a format that holds the letter of the ISO year
    assert_eq!(parse_timestamp("20200101100000 GMT", "%Y%m%d%H%M%S GMT"), Some(1577872800));
    let row = parse_row("a,20200101100000 GMT,1.0,1.0", "%Y%m%d%H%M%S GMT", &parse_coordinate);
    assert_eq!(row.unwrap().unwrap().time, 1577872800);
    // an ISO week date with a long fraction of a second
    assert_eq!(
        parse_timestamp("2020-W01-3 10:00:00.1234567890", "%G-W%V-%u %H:%M:%S%.f"),
        Some(1577872800)
    );
    // ISO years next to the ends of the 32-bit numbers are out of the calendar
    assert_eq!(parse_timestamp("-2147483647 1 1 00:00", "%G %V %u %H:%M"), None);
    assert_eq!(parse_timestamp("+2147483646 52 7 00:00", "%G %V %u %H:%M"), None);
    assert!(parse_timestamp("+262142 01 1 00:00", "%G %V %u %H:%M").is_some());
}

#[test]
fn test_format_timestamp() {
    assert_eq!(
        format_timestamp(1577872800, "%Y-%m-%d %H:%M:%S"),
        Some(String::from("2020-01-01 10:00:00"))
    );
    assert_eq!(format_timestamp(-1, "%Y-%m-%d %H:%M:%S"), Some(String::from("1969-12-31 23:59:59")));
    assert_eq!(format_timestamp(0, "%G-W%V-%u"), Some(String::from("1970-W01-4")));
    // times whose day cannot be counted
    assert_eq!(format_timestamp(i64::MAX, "%Y-%m-%d %H:%M:%S"), None);
    assert_eq!(format_timestamp(i64::MIN, "%Y-%m-%d %H:%M:%S"), None);
    assert_eq!(format_timestamp(185_542_587_187_200, "%Y"), None);
    // a format that cannot be written
    assert_eq!(format_timestamp(0, "%Q"), None);
}
