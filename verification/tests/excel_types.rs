use std::collections::HashSet;
use stream_xlsx::excel_types::{Cell, CellErrorType, Data, Dimensions, ExcelDateTime};
use stream_xlsx::float::{Float, ParsedFloat, SerialParts};
use stream_xlsx::utils::{
    is_date_format_code, is_date_numfmt, is_lowercase_date_code, needs_float, parse_a1,
    parse_dimension, parse_raw_value, OrderdSheets,
};

fn float_of(x: f64) -> Float {
    let time = x.fract() * 86_400.0;
    Float::Parsed(ParsedFloat {
        bits: x.to_bits(),
        text: x.to_string(),
        serial: SerialParts {
            days: x.floor() as i128,
            day_millis: (x.fract() * 86_400_000.0).round() as i64,
            day_seconds: time as u64,
            milli: (time.fract() * 1000.0).round() as u64,
        },
    })
}

fn date(x: f64) -> ExcelDateTime {
    ExcelDateTime::new(float_of(x), false)
}

#[test]
fn a_cell_keeps_its_position_and_value() {
    let cell = Cell::new((3, 4), "x");
    assert_eq!(cell.get_position(), (3, 4));
    assert_eq!(cell.get_value(), &"x");
    assert_eq!(cell.into_value(), "x");
}

#[test]
fn error_codes_read_back() {
    let all = [
        (CellErrorType::Div0, "#DIV/0!"),
        (CellErrorType::NA, "#N/A"),
        (CellErrorType::Name, "#NAME?"),
        (CellErrorType::Null, "#NULL!"),
        (CellErrorType::Num, "#NUM!"),
        (CellErrorType::Ref, "#REF!"),
        (CellErrorType::Value, "#VALUE!"),
        (CellErrorType::GettingData, "#DATA!"),
    ];
    for (error, code) in all {
        assert_eq!(error.as_str(), code);
        assert_eq!(CellErrorType::from_str(code), Ok(error));
    }
    assert_eq!(CellErrorType::from_str("#n/a"), Err(()));
}

#[test]
fn serials_are_dates_of_the_calendar() {
    assert_eq!(date(1.0).to_ymd_hms_milli(), (1900, 1, 1, 0, 0, 0, 0));
    assert_eq!(date(59.0).to_ymd_hms_milli(), (1900, 2, 28, 0, 0, 0, 0));
    assert_eq!(date(60.0).to_ymd_hms_milli(), (1900, 2, 29, 0, 0, 0, 0));
    assert_eq!(date(61.0).to_ymd_hms_milli(), (1900, 3, 1, 0, 0, 0, 0));
    assert_eq!(date(365.0).to_ymd_hms_milli(), (1900, 12, 30, 0, 0, 0, 0));
    assert_eq!(date(366.0).to_ymd_hms_milli(), (1900, 12, 31, 0, 0, 0, 0));
    assert_eq!(date(367.0).to_ymd_hms_milli(), (1901, 1, 1, 0, 0, 0, 0));
    assert_eq!(date(0.0).to_ymd_hms_milli(), (1899, 12, 31, 0, 0, 0, 0));
    assert_eq!(date(45_352.520833333336).to_ymd_hms_milli(), (2024, 3, 1, 12, 30, 0, 0));
    assert_eq!(date(2_958_465.999988426).to_ymd_hms_milli(), (9999, 12, 31, 23, 59, 59, 0));
    let mac = ExcelDateTime::new(Float::OfInt(0), true);
    assert_eq!(mac.to_ymd_hms_milli(), (1904, 1, 1, 0, 0, 0, 0));
    assert_eq!(date(1.0000115740740741).to_ymd_hms_milli().5, 1);
}

#[test]
fn serials_are_timestamps() {
    assert_eq!(date(25_569.0).to_timestamp_nanos(), 0);
    assert_eq!(date(45_352.520833333336).to_timestamp_nanos(), 1_709_296_200_000_000_000);
    assert_eq!(date(1.0).to_timestamp_nanos(), -25_567 * 86_400_000_000_000);
    assert_eq!(date(61.0).to_timestamp_nanos(), -25_508 * 86_400_000_000_000);
    assert_eq!(date(-1.0).to_timestamp_nanos(), -25_570 * 86_400_000_000_000);
    let mac = ExcelDateTime::new(Float::OfInt(1), true);
    assert_eq!(mac.to_timestamp_nanos(), -24_106 * 86_400_000_000_000);
    let start = ExcelDateTime::new(Float::OfInt(0), true);
    assert_eq!(start.to_timestamp_nanos(), -2_082_844_800_000_000_000);
    assert_eq!(start.to_ymd_hms_milli(), (1904, 1, 1, 0, 0, 0, 0));
    assert_eq!(ExcelDateTime::new(Float::OfInt(25_570), false).to_timestamp_nanos(), 86_400_000_000_000);
}

#[test]
fn timestamps_and_dates_name_the_same_day() {
    for days in (1..70_000).chain(2_900_000..2_900_400) {
        if days == 60 {
            continue;
        }
        let date = ExcelDateTime::new(Float::OfInt(days), false);
        let (y, m, d, ..) = date.to_ymd_hms_milli();
        let day = chrono::NaiveDate::from_ymd_opt(y as i32, m as u32, d as u32).unwrap();
        if days < 100_000 {
            let nanos = day.and_hms_opt(0, 0, 0).unwrap().and_utc().timestamp_nanos_opt();
            assert_eq!(nanos, Some(date.to_timestamp_nanos()));
        }
    }
}

#[test]
fn integers_read_as_floats_are_shown_alike() {
    let mut numbers = vec![0, 1, -1, 42, i64::MAX, i64::MIN, i64::MAX - 511, i64::MIN + 1];
    for shift in 0..63 {
        for near in [-3i64, -2, -1, 0, 1, 2, 3] {
            numbers.push((1i64 << shift).wrapping_add(near));
            numbers.push(-((1i64 << shift).wrapping_add(near)));
        }
    }
    let mut seed: u64 = 0x9e37_79b9_7f4a_7c15;
    for _ in 0..200_000 {
        seed ^= seed << 13;
        seed ^= seed >> 7;
        seed ^= seed << 17;
        numbers.push(seed as i64);
        numbers.push((seed >> (seed & 31)) as i64);
    }
    for n in numbers {
        assert_eq!(Float::OfInt(n).text(), (n as f64).to_string(), "{}", n);
        assert_eq!(Float::OfInt(n).serial().days, n as f64 as i128, "{}", n);
    }
}

#[test]
fn values_are_shown_as_texts() {
    assert_eq!(Data::Int(i64::MIN).into_text(), i64::MIN.to_string());
    assert_eq!(Data::Float(Float::OfInt(3)).into_text(), "3");
    assert_eq!(Data::Float(float_of(2.50)).into_text(), "2.5");
    assert_eq!(Data::String("s".to_string()).into_text(), "s");
    assert_eq!(Data::Bool(true).into_text(), "true");
    assert_eq!(Data::Bool(false).into_text(), "false");
    assert_eq!(Data::DateTime(date(1.5)).into_text(), "1.5");
    assert_eq!(Data::DateTimeIso("2020-01-01".to_string()).into_text(), "2020-01-01");
    assert_eq!(Data::DurationIso("PT1H".to_string()).into_text(), "PT1H");
    assert_eq!(Data::Error(CellErrorType::Ref).into_text(), "#REF!");
    assert_eq!(Data::SharedStringRef(17).into_text(), "17");
    assert_eq!(Data::default().into_text(), "");
    assert!(Data::Empty.is_null());
    assert!(Data::Error(CellErrorType::NA).is_null());
    assert!(!Data::Int(0).is_null());
    let data = Data::DateTime(date(1.5));
    assert_eq!(data.copy(), data);
}

#[test]
fn cell_references_are_positions() {
    assert_eq!(parse_a1(b"A1").unwrap(), (0, 0));
    assert_eq!(parse_a1(b"b3").unwrap(), (2, 1));
    assert_eq!(parse_a1(b"Z10").unwrap(), (9, 25));
    assert_eq!(parse_a1(b"AA100").unwrap(), (99, 26));
    assert_eq!(parse_a1(b"XFD1048576").unwrap(), (1_048_575, 16_383));
    assert_eq!(parse_a1(b"").unwrap(), (0, 0));
    assert_eq!(parse_a1(b"7").unwrap(), (6, 0));
    assert_eq!(parse_a1(b"C$4").unwrap(), (0, 2));
}

#[test]
fn ranges_are_read() {
    assert_eq!(
        parse_dimension(b"A1:C3").unwrap(),
        Dimensions { start: (0, 0), end: (2, 2) }
    );
    assert_eq!(
        parse_dimension(b"B2").unwrap(),
        Dimensions { start: (1, 1), end: (1, 1) }
    );
    let error = parse_dimension(b"A1:B2:C3").err().unwrap();
    assert_eq!(error.message, "Invalid dimension: A1:B2:C3");
    assert_eq!(Dimensions::default(), Dimensions { start: (0, 0), end: (0, 0) });
}

#[test]
fn references_name_their_cells() {
    let mut name: Vec<u8> = Vec::new();
    for col in 1..=16_384u32 {
        // The next name in the order A, ..., Z, AA, ...
        let mut at = name.len();
        while at > 0 && name[at - 1] == b'Z' {
            at -= 1;
            name[at] = b'A';
        }
        if at > 0 {
            name[at - 1] += 1;
        } else {
            name.insert(0, b'A');
        }
        for row in [1u32, 10, 99, 1_048_576] {
            let reference = format!("{}{}", String::from_utf8(name.clone()).unwrap(), row);
            assert_eq!(parse_a1(reference.as_bytes()).unwrap(), (row - 1, col - 1));
            let small = reference.to_lowercase();
            assert_eq!(parse_a1(small.as_bytes()).unwrap(), (row - 1, col - 1));
        }
    }
    assert_eq!(name, b"XFD");
}

#[test]
fn every_character_counts_as_its_ascii_letter() {
    for c in '\0'..=char::MAX {
        assert_eq!(is_date_format_code(&c.to_string()), "ymdhsYMDHS".contains(c), "{:?}", c);
        assert_eq!(is_date_format_code(&format!("y{}", c)), c != '0' && c != '#', "{:?}", c);
    }
}

#[test]
fn formats_with_dates_are_known() {
    for code in ["yyyy-mm-dd", "HH:MM:SS", "d mmm", "[$-x]D-MMM-YY", "ÄÖ s"] {
        assert!(is_date_format_code(code), "{}", code);
    }
    for code in ["General", "0.00", "#,##0", "yyyy0", "@", ""] {
        assert_eq!(
            is_date_format_code(code),
            is_lowercase_date_code(&code.to_lowercase()),
            "{}",
            code
        );
    }
    assert!(!is_date_format_code("0.00"));
    assert!(!is_date_format_code("#,##0 \"days\""));
    assert!(!is_date_format_code("yyyy0"));
    assert!(!is_lowercase_date_code("YYYY"));
    let custom: HashSet<u32> = [164].into_iter().collect();
    for id in [14, 22, 45, 47, 164] {
        assert!(is_date_numfmt(id, &custom));
    }
    for id in [0, 13, 23, 44, 48, 165] {
        assert!(!is_date_numfmt(id, &custom));
    }
}

#[test]
fn raw_texts_are_values_by_type() {
    let value = |text: &str, kind: Option<&str>| {
        let number = if needs_float(text, kind) {
            text.parse::<f64>().ok().map(float_of)
        } else {
            None
        };
        parse_raw_value(text, kind, number).unwrap()
    };
    assert_eq!(value("12", None), Data::Int(12));
    assert_eq!(value("+12", None), Data::Int(12));
    assert_eq!(value("-9223372036854775808", None), Data::Int(i64::MIN));
    assert_eq!(value("9223372036854775808", None), Data::Float(float_of(9223372036854775808.0)));
    assert_eq!(value("1.5e3", Some("n")), Data::Float(float_of(1500.0)));
    assert_eq!(value("abc", None), Data::String("abc".to_string()));
    assert_eq!(value("", None), Data::String(String::new()));
    assert_eq!(value("12", Some("s")), Data::String("12".to_string()));
    assert_eq!(value("12", Some("str")), Data::String("12".to_string()));
    assert_eq!(value("0", Some("b")), Data::Bool(false));
    assert_eq!(value("1", Some("b")), Data::Bool(true));
    assert_eq!(value("#REF!", Some("e")), Data::Error(CellErrorType::Ref));
    assert_eq!(value("#WHAT!", Some("e")), Data::Error(CellErrorType::Value));
    assert_eq!(value("2020-01-01", Some("d")), Data::DateTimeIso("2020-01-01".to_string()));
    assert!(needs_float("1.5", None));
    assert!(!needs_float("1", None));
    assert!(!needs_float("1.5", Some("d")));
}

#[test]
fn sheets_keep_their_order() {
    let mut sheets = OrderdSheets::new();
    assert_eq!(sheets.len(), 0);
    assert_eq!(sheets.get_by_idx(0), None);
    sheets.insert("b".to_string(), "1".to_string());
    sheets.insert("a".to_string(), "2".to_string());
    sheets.insert("b".to_string(), "3".to_string());
    assert_eq!(sheets.len(), 3);
    assert_eq!(sheets.names(), vec!["b", "a", "b"]);
    assert_eq!(sheets.get_by_name("b"), Some(&"3".to_string()));
    assert_eq!(sheets.get_by_name("a"), Some(&"2".to_string()));
    assert_eq!(sheets.get_by_name("c"), None);
    assert_eq!(sheets.get_by_idx(0), Some(&"1".to_string()));
    assert_eq!(sheets.get_by_idx(3), None);
}
