use adif::{
    parse_adif, parse_line_to_tokens, AdifFile, AdifHeader, AdifRecord, AdifType, Date, Decimal,
    ParseErrorKind, Time,
};
use adif::parser::parse_tokens_to_record;

#[test]
fn test_line_to_tokens() {
    let result =
        parse_line_to_tokens("<CALL:4>VA3ZZA <BAND:3>40m <MODE:2>CW <NAME:12>Evan Pratten <eor>");

    assert_eq!(result.len(), 4);
    assert_eq!(result[0].key, "CALL");
    assert_eq!(result[0].value, "VA3ZZA");
    assert_eq!(result[3].key, "NAME");
    assert_eq!(result[3].value, "Evan Pratten");
}

#[test]
fn test_tokens_to_record() {
    let tokens = parse_line_to_tokens("<CALL:4>VA3ZZA<A_NUMBER:3:N>401<BOOL:1:B>N<eor>");
    let record = parse_tokens_to_record(tokens).unwrap();

    assert_eq!(record.get("CALL"), Some(&AdifType::Str("VA3ZZA".to_string())));
    assert_eq!(
        record.get("A_NUMBER"),
        Some(&AdifType::Number(Decimal { negative: false, mantissa: 401, exponent: 0 }))
    );
    assert_eq!(record.get("BOOL"), Some(&AdifType::Boolean(false)));
}

#[test]
fn tokens_keep_length_and_type() {
    let t = parse_line_to_tokens("junk <qso_date:8:d>20200224 x<a:99999999999999999999999>v");
    assert_eq!(t.len(), 2);
    assert_eq!(t[0].key, "QSO_DATE");
    assert_eq!(t[0].len, 8);
    assert_eq!(t[0].ty, Some('D'));
    assert_eq!(t[0].value, "20200224 x");
    assert_eq!(t[1].len, usize::MAX);
    assert_eq!(t[1].ty, None);
}

#[test]
fn no_tag_gives_no_token() {
    assert!(parse_line_to_tokens("no tags <here> <A:> <:3>x").is_empty());
}

fn field_names(r: &AdifRecord) -> Vec<String> {
    (0..r.len()).map(|i| r.get_index(i).unwrap().0.clone()).collect()
}

#[test]
fn parse_one_record() {
    let f: AdifFile = parse_adif("<CALL:4>VA3ZZA<BAND:3>40m<MODE:2>CW<eor>").unwrap();
    let r = &f.body[0];
    assert_eq!(field_names(r), vec!["CALL", "BAND", "MODE"]);
    assert_eq!(r.get("CALL"), Some(&AdifType::Str("VA3ZZA".to_string())));
    assert_eq!(r.get("BAND"), Some(&AdifType::Str("40m".to_string())));
    assert_eq!(r.get("MODE"), Some(&AdifType::Str("CW".to_string())));
    assert_eq!(f.body.len(), 2);
    assert_eq!(f.body[1].len(), 0);
}

#[test]
fn header_terminator_in_any_case() {
    for text in ["<PROGRAMID:3>abc\n<eoh>\n<CALL:2>K1<eor>", "<PROGRAMID:3>abc\n<EOH>\n<CALL:2>K1<EoR>"] {
        let f = parse_adif(text).unwrap();
        let h: &AdifHeader = &f.header;
        assert_eq!(h.len(), 1);
        assert_eq!(h.get("programid"), Some(&AdifType::Str("abc".to_string())));
        assert_eq!(f.body.len(), 2);
        assert_eq!(f.body[0].get("CALL"), Some(&AdifType::Str("K1".to_string())));
    }
}

#[test]
fn typed_values_are_decoded() {
    let f = parse_adif("<EOH><D:8:D>20200224<T:6:T>230205<N:5:N>-0.50<B:1:b>y<X:1:Q>z<EOR>").unwrap();
    let r = &f.body[0];
    assert_eq!(r.get("D"), Some(&AdifType::Date(Date::from_ymd_opt(2020, 2, 24).unwrap())));
    assert_eq!(r.get("T"), Some(&AdifType::Time(Time::from_hms_opt(23, 2, 5).unwrap())));
    assert_eq!(
        r.get("N"),
        Some(&AdifType::Number(Decimal { negative: true, mantissa: 5, exponent: -1 }))
    );
    assert_eq!(r.get("B"), Some(&AdifType::Boolean(true)));
    assert_eq!(r.get("X"), Some(&AdifType::Str("z".to_string())));
}

#[test]
fn exponent_literal_is_a_number() {
    let f = parse_adif("<EOH><FREQ:3:N>1e3<EOR>").unwrap();
    assert_eq!(
        f.body[0].get("FREQ"),
        Some(&AdifType::Number(Decimal { negative: false, mantissa: 1, exponent: 3 }))
    );
}

#[test]
fn malformed_values_are_errors() {
    let e = parse_adif("<EOH><FREQ:3:N>abc<EOR>").unwrap_err();
    assert_eq!(e.kind, ParseErrorKind::MalformedNumber);
    assert_eq!(e.key, "FREQ");
    assert_eq!(e.value, "abc");
    let e = parse_adif("<EOH><QSO_DATE:8:D>20201340<EOR>").unwrap_err();
    assert_eq!(e.kind, ParseErrorKind::MalformedDate);
    let e = parse_adif("<EOH><TIME_ON:6:T>256000<EOR>").unwrap_err();
    assert_eq!(e.kind, ParseErrorKind::MalformedTime);
}

#[test]
fn number_text_forms() {
    let d = |s: &str| Decimal::from_text(s);
    assert_eq!(d("3.5"), Some(Decimal { negative: false, mantissa: 35, exponent: -1 }));
    assert_eq!(d("-12"), Some(Decimal { negative: true, mantissa: 12, exponent: 0 }));
    assert_eq!(d("1200"), Some(Decimal { negative: false, mantissa: 12, exponent: 2 }));
    assert_eq!(d(".5"), Some(Decimal { negative: false, mantissa: 5, exponent: -1 }));
    assert_eq!(d("7."), Some(Decimal { negative: false, mantissa: 7, exponent: 0 }));
    assert_eq!(d(""), None);
    assert_eq!(d("-"), None);
    assert_eq!(d("."), None);
    assert_eq!(d("1.2.3"), None);
    assert_eq!(d("+2"), Some(Decimal { negative: false, mantissa: 2, exponent: 0 }));
    assert_eq!(d("1e3"), Some(Decimal { negative: false, mantissa: 1, exponent: 3 }));
    assert_eq!(d("1.5E-2"), Some(Decimal { negative: false, mantissa: 15, exponent: -3 }));
    assert_eq!(d("-2.50e+1"), Some(Decimal { negative: true, mantissa: 25, exponent: 0 }));
    assert_eq!(d("0e999999999999999999999999"), Some(Decimal { negative: false, mantissa: 0, exponent: 0 }));
    assert_eq!(d("1e99999999999"), None);
    assert_eq!(d("1e"), None);
    assert_eq!(d("e3"), None);
    assert_eq!(d("1e+"), None);
    assert_eq!(d("inf"), None);
    assert_eq!(d("99999999999999999999"), None);
    assert_eq!(d("100000000000000000000"), Some(Decimal { negative: false, mantissa: 1, exponent: 20 }));
}

#[test]
fn record_round_trip() {
    let mut r = AdifRecord::new();
    r.insert("CALL".to_string(), AdifType::Str("VA3ZZA".to_string()));
    r.insert("QSL_RCVD".to_string(), AdifType::Boolean(true));
    r.insert("QSO_DATE".to_string(), AdifType::Date(Date::from_ymd_opt(1999, 12, 31).unwrap()));
    r.insert("TIME_ON".to_string(), AdifType::Time(Time::from_hms_opt(0, 1, 2).unwrap()));
    r.insert(
        "FREQ".to_string(),
        AdifType::Number(Decimal { negative: false, mantissa: 14074, exponent: -3 }),
    );
    r.insert("RX_PWR".to_string(), AdifType::Number(Decimal { negative: true, mantissa: 5, exponent: 2 }));
    let text = r.serialize().unwrap();
    let f = parse_adif(&text).unwrap();
    let back = &f.body[0];
    assert_eq!(back.len(), r.len());
    for i in 0..r.len() {
        assert_eq!(back.get_index(i), r.get_index(i));
    }
}

#[test]
fn file_serialize_and_back() {
    let mut f = parse_adif("<ADIF_VER:5>3.1.4<EOH><CALL:2>K1<EOR>\n<CALL:2>K2<EOR>").unwrap();
    f.body.pop();
    let d = Date::from_ymd_opt(2021, 1, 2).unwrap();
    let t = Time::from_hms_opt(3, 4, 5).unwrap();
    let text = f.serialize(d, t).unwrap();
    assert_eq!(
        text,
        "Generated 2021-01-02 03:04:05 (UTC)\n\n<ADIF_VER:5>3.1.4\n<EOH>\n<CALL:2>K1<eor>\n<CALL:2>K2<eor>"
    );
}

#[test]
fn header_round_trip() {
    let mut h = AdifHeader::new();
    h.insert("ADIF_VER".to_string(), AdifType::Str("3.1.4".to_string()));
    h.insert("CREATED".to_string(), AdifType::Date(Date::from_ymd_opt(2024, 1, 31).unwrap()));
    h.insert("EMPTY".to_string(), AdifType::Str(String::new()));
    let text = h
        .serialize(Date::from_ymd_opt(2024, 2, 1).unwrap(), Time::from_hms_opt(12, 0, 0).unwrap())
        .unwrap();
    let f = parse_adif(&text).unwrap();
    assert_eq!(f.header.len(), h.len());
    for i in 0..h.len() {
        assert_eq!(f.header.get_index(i), h.get_index(i));
    }
    assert_eq!(f.body.len(), 1);
    assert_eq!(f.body[0].len(), 0);
}

#[test]
fn date_text_other_than_eight_digits_goes_through_chrono() {
    let e = parse_adif("<EOH><D:10:D>2020-02-24<EOR>").unwrap_err();
    assert_eq!(e.kind, ParseErrorKind::MalformedDate);
    let e = parse_adif("<EOH><T:4:T>2302<EOR>").unwrap_err();
    assert_eq!(e.kind, ParseErrorKind::MalformedTime);
}

#[test]
fn non_ascii_key_is_upper_cased() {
    let t = AdifType::Boolean(false).serialize("stra\u{df}e").unwrap();
    assert_eq!(t, "<STRASSE:1:B>N");
}

#[test]
fn zero_reads_with_exponent_zero() {
    let zero = Decimal { negative: false, mantissa: 0, exponent: 0 };
    assert_eq!(Decimal::from_text("0"), Some(zero));
    assert_eq!(Decimal::from_text("0.000"), Some(zero));
    assert_eq!(Decimal::from_text("-0"), Some(Decimal { negative: true, ..zero }));
}

#[test]
fn number_text_reads_back_canonical() {
    for (d, back) in [
        (Decimal { negative: true, mantissa: 120, exponent: -1 }, Decimal { negative: true, mantissa: 12, exponent: 0 }),
        (Decimal { negative: false, mantissa: 5, exponent: -3 }, Decimal { negative: false, mantissa: 5, exponent: -3 }),
        (Decimal { negative: false, mantissa: 1200, exponent: 1 }, Decimal { negative: false, mantissa: 12, exponent: 3 }),
        (Decimal { negative: false, mantissa: 0, exponent: -4 }, Decimal { negative: false, mantissa: 0, exponent: 0 }),
    ] {
        let text = AdifType::Number(d).value_text().unwrap();
        assert_eq!(Decimal::from_text(&text), Some(back));
    }
}
