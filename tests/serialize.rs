use adif::{AdifHeader, AdifRecord, AdifType, Date, Decimal, SerializeErrorKind, Time};

fn num(negative: bool, mantissa: u64, exponent: i32) -> AdifType {
    AdifType::Number(Decimal { negative, mantissa, exponent })
}

fn stamp() -> (Date, Time) {
    (Date::from_ymd_opt(2024, 5, 6).unwrap(), Time::from_hms_opt(7, 8, 9).unwrap())
}

fn sample_pairs() -> Vec<(&'static str, AdifType)> {
    vec![
        ("a number", num(false, 155, -1)),
        ("test string", AdifType::Str("Heyo rusty friends!".to_string())),
    ]
}

#[test]
fn data_test_ser_string() {
    assert_eq!(
        AdifType::Str("Hello, world!".to_string()).serialize("test").unwrap(),
        "<TEST:13>Hello, world!"
    );
}

#[test]
fn types_test_ser_string() {
    assert_eq!(
        AdifType::Str("Hello, world!".to_string()).serialize("test").unwrap(),
        "<TEST:13>Hello, world!"
    );
}

#[test]
fn data_test_ser_bool() {
    assert_eq!(AdifType::Boolean(true).serialize("test").unwrap(), "<TEST:1:B>Y");
    assert_eq!(AdifType::Boolean(false).serialize("test").unwrap(), "<TEST:1:B>N");
}

#[test]
fn types_test_ser_bool() {
    assert_eq!(AdifType::Boolean(true).serialize("test").unwrap(), "<TEST:1:B>Y");
    assert_eq!(AdifType::Boolean(false).serialize("test").unwrap(), "<TEST:1:B>N");
}

#[test]
fn data_test_ser_num() {
    assert_eq!(num(false, 35, -1).serialize("test").unwrap(), "<TEST:3:N>3.5");
    assert_eq!(num(true, 35, -1).serialize("test").unwrap(), "<TEST:4:N>-3.5");
    assert_eq!(num(true, 120, -1).serialize("test").unwrap(), "<TEST:3:N>-12");
}

#[test]
fn types_test_ser_num() {
    assert_eq!(num(false, 35, -1).serialize("test").unwrap(), "<TEST:3:N>3.5");
    assert_eq!(num(true, 35, -1).serialize("test").unwrap(), "<TEST:4:N>-3.5");
    assert_eq!(num(true, 120, -1).serialize("test").unwrap(), "<TEST:3:N>-12");
}

#[test]
fn data_test_ser_date() {
    assert_eq!(
        AdifType::Date(Date::from_ymd_opt(2020, 2, 24).unwrap()).serialize("test").unwrap(),
        "<TEST:8:D>20200224"
    );
    assert!(AdifType::Date(Date::from_ymd_opt(1910, 2, 2).unwrap()).serialize("test").is_err());
}

#[test]
fn types_test_ser_date() {
    assert_eq!(
        AdifType::Date(Date::from_ymd_opt(2020, 2, 24).unwrap()).serialize("test").unwrap(),
        "<TEST:8:D>20200224"
    );
    assert!(AdifType::Date(Date::from_ymd_opt(1910, 2, 2).unwrap()).serialize("test").is_err());
}

#[test]
fn data_test_ser_time() {
    assert_eq!(
        AdifType::Time(Time::from_hms_opt(23, 2, 5).unwrap()).serialize("test").unwrap(),
        "<TEST:6:T>230205"
    );
}

#[test]
fn types_test_ser_time() {
    assert_eq!(
        AdifType::Time(Time::from_hms_opt(23, 2, 5).unwrap()).serialize("test").unwrap(),
        "<TEST:6:T>230205"
    );
}

#[test]
fn data_test_ser_record() {
    let mut test_record = AdifRecord::new();
    for (k, v) in sample_pairs() {
        test_record.insert(k.to_string(), v);
    }
    assert_eq!(
        test_record.serialize().unwrap(),
        "<A_NUMBER:4:N>15.5<TEST_STRING:19>Heyo rusty friends!<eor>"
    );
}

#[test]
fn types_test_ser_record() {
    let mut test_record = AdifRecord::new();
    test_record.insert("test string".to_string(), AdifType::Str("Heyo rusty friends!".to_string()));
    test_record.insert("a number".to_string(), num(false, 155, -1));
    assert_eq!(
        test_record.serialize().unwrap(),
        "<TEST_STRING:19>Heyo rusty friends!<A_NUMBER:4:N>15.5<eor>"
    );
}

#[test]
fn test_ser_header() {
    let mut test_header = AdifHeader::new();
    for (k, v) in sample_pairs() {
        test_header.insert(k.to_string(), v);
    }
    let (d, t) = stamp();
    let serialized_lines = test_header.serialize(d, t).unwrap();
    let mut serialized_lines = serialized_lines.lines();

    // The stamp line and the empty line after it.
    serialized_lines.next();
    serialized_lines.next();

    assert_eq!(serialized_lines.next(), Some("<A_NUMBER:4:N>15.5"));
    assert_eq!(serialized_lines.next(), Some("<TEST_STRING:19>Heyo rusty friends!"));
    assert_eq!(serialized_lines.next(), Some("<EOH>"));
}

#[test]
fn header_stamp_line() {
    let h = AdifHeader::new();
    let (d, t) = stamp();
    assert_eq!(h.serialize(d, t).unwrap(), "Generated 2024-05-06 07:08:09 (UTC)\n\n\n<EOH>");
}

#[test]
fn key_is_upper_cased_with_underscores() {
    assert_eq!(AdifType::Boolean(true).serialize("a number").unwrap(), "<A_NUMBER:1:B>Y");
}

#[test]
fn string_with_linebreak_is_refused() {
    let e = AdifType::Str("two\nlines".to_string()).serialize("note").unwrap_err();
    assert_eq!(e.kind, SerializeErrorKind::StringContainsLinebreak);
    assert_eq!(e.key, "note");
    assert_eq!(e.offender, "two\nlines");
}

#[test]
fn non_ascii_string_is_refused() {
    let e = AdifType::Str("caf\u{e9}".to_string()).serialize("name").unwrap_err();
    assert_eq!(e.kind, SerializeErrorKind::NonAsciiString);
}

#[test]
fn early_date_is_refused_with_its_text() {
    let e = AdifType::Date(Date::from_ymd_opt(1910, 2, 2).unwrap()).serialize("qso_date").unwrap_err();
    assert_eq!(e.kind, SerializeErrorKind::DateTooEarly);
    assert_eq!(e.offender, "1910-02-02");
    assert_eq!(e.message(), "Date must be >= 1930");
}

#[test]
fn numbers_are_written_in_shortest_form() {
    assert_eq!(num(false, 0, 0).serialize("x").unwrap(), "<X:1:N>0");
    assert_eq!(num(false, 5, -3).serialize("x").unwrap(), "<X:5:N>0.005");
    assert_eq!(num(false, 12, 2).serialize("x").unwrap(), "<X:4:N>1200");
    assert_eq!(num(false, 1000, -3).serialize("x").unwrap(), "<X:1:N>1");
    assert_eq!(num(true, 0, 0).serialize("x").unwrap(), "<X:2:N>-0");
    assert_eq!(num(false, 0, 3).serialize("x").unwrap(), "<X:1:N>0");
    assert_eq!(num(false, 0, -3).serialize("x").unwrap(), "<X:1:N>0");
}

#[test]
fn type_indicators() {
    assert_eq!(AdifType::Str(String::new()).get_data_type_indicator(), None);
    assert_eq!(AdifType::Boolean(true).get_data_type_indicator(), Some('B'));
    assert_eq!(num(false, 1, 0).get_data_type_indicator(), Some('N'));
    assert_eq!(AdifType::Time(Time::from_hms_opt(0, 0, 0).unwrap()).get_data_type_indicator(), Some('T'));
}

#[test]
fn record_stops_at_first_bad_field() {
    let mut r = AdifRecord::new();
    r.insert("call".to_string(), AdifType::Str("VA3ZZA".to_string()));
    r.insert("comment".to_string(), AdifType::Str("bad\n".to_string()));
    r.insert("name".to_string(), AdifType::Str("\u{e9}".to_string()));
    let e = r.serialize().unwrap_err();
    assert_eq!(e.key, "comment");
}

#[test]
fn insert_replaces_key_equal_up_to_case() {
    let mut r = AdifRecord::new();
    r.insert("call".to_string(), AdifType::Str("A1".to_string()));
    r.insert("band".to_string(), AdifType::Str("40m".to_string()));
    r.insert("CALL".to_string(), AdifType::Str("B2".to_string()));
    assert_eq!(r.len(), 2);
    assert_eq!(r.get("Call"), Some(&AdifType::Str("B2".to_string())));
    assert_eq!(r.serialize().unwrap(), "<CALL:2>B2<BAND:3>40m<eor>");
}

#[test]
fn calendar_rules() {
    assert!(Date::from_ymd_opt(2024, 2, 29).is_some());
    assert!(Date::from_ymd_opt(2023, 2, 29).is_none());
    assert!(Date::from_ymd_opt(1900, 2, 29).is_none());
    assert!(Date::from_ymd_opt(2000, 2, 29).is_some());
    assert!(Date::from_ymd_opt(2020, 4, 31).is_none());
    assert!(Time::from_hms_opt(24, 0, 0).is_none());
    assert!(Time::from_hms_opt(23, 59, 59).is_some());
}

#[test]
fn impossible_date_and_time_are_refused() {
    let e = AdifType::Date(Date { year: 2020, month: 13, day: 1 }).serialize("d").unwrap_err();
    assert_eq!(e.kind, SerializeErrorKind::InvalidDate);
    assert_eq!(e.offender, "2020-13-01");
    let e = AdifType::Date(Date { year: 2021, month: 2, day: 29 }).serialize("d").unwrap_err();
    assert_eq!(e.kind, SerializeErrorKind::InvalidDate);
    let e = AdifType::Time(Time { hour: 25, minute: 0, second: 0 }).serialize("t").unwrap_err();
    assert_eq!(e.kind, SerializeErrorKind::InvalidTime);
    assert_eq!(e.offender, "25:00:00");
    assert_eq!(e.message(), "Time is not a time of day");
}
