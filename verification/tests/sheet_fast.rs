use std::sync::Arc;
use stream_xlsx::arrow::SharedStrings;
use stream_xlsx::excel_types::{Cell, CellErrorType, Data, Dimensions};
use stream_xlsx::float::Float;
use stream_xlsx::sheet_fast::{
    build_fast_config, chunk_tasks, extract_inline_text, extract_r_attr, extract_t_attr,
    extract_v_value, fragment_number_text, is_self_closing, parse_cell_fragment, parse_dimensions,
    parse_task, plan_sheet, scan_cell_boundaries, FastConfig, FastOptions, Ready, SheetFastReader,
};

fn no_strings() -> Arc<SharedStrings> {
    Arc::new(SharedStrings::new(Vec::new(), Vec::new()))
}

fn data(raw: &str) -> Data {
    parse_cell_fragment(raw.as_bytes(), None).unwrap().into_value()
}

#[test]
fn fragments_are_values_by_type() {
    let text = |s: &str| Data::String(s.to_string());
    assert_eq!(data("<c r=\"A1\" t=\"s\"><v>12</v></c>"), Data::SharedStringRef(12));
    assert_eq!(data("<c r=\"A1\" t=\"s\"><v>+0012</v></c>"), Data::SharedStringRef(12));
    assert_eq!(data("<c r=\"A1\" t=\"s\"><v>x</v></c>"), text("x"));
    assert_eq!(data("<c r=\"A1\" t=\"b\"><v>0</v></c>"), Data::Bool(false));
    assert_eq!(data("<c r=\"A1\" t=\"b\"><v>1</v></c>"), Data::Bool(true));
    assert_eq!(data("<c r=\"A1\" t=\"str\"><v>7</v></c>"), text("7"));
    assert_eq!(data("<c r=\"A1\" t=\"e\"><v>#NUM!</v></c>"), Data::Error(CellErrorType::Num));
    assert_eq!(data("<c r=\"A1\" t=\"e\"><v>?</v></c>"), Data::Error(CellErrorType::Value));
    assert_eq!(data("<c r=\"A1\"><v>-42</v></c>"), Data::Int(-42));
    assert_eq!(data("<c r=\"A1\"><v>00000000000000000000000007</v></c>"), Data::Int(7));
    assert_eq!(data("<c r=\"A1\"><v>9223372036854775807</v></c>"), Data::Int(i64::MAX));
    assert_eq!(data("<c r=\"A1\"><v>-9223372036854775808</v></c>"), Data::Int(i64::MIN));
    assert_eq!(data("<c r=\"A1\"><v>9223372036854775808</v></c>"), text("9223372036854775808"));
    assert_eq!(data("<c r=\"A1\"><v></v></c>"), text(""));
    assert_eq!(data("<c r=\"A1\"><v>-</v></c>"), text("-"));
    assert_eq!(data("<c r=\"A1\"><v>1 2</v></c>"), text("1 2"));
    assert_eq!(data("<c r=\"A1\" t=\"inlineStr\"><is><t>in</t></is></c>"), text("in"));
    assert_eq!(data("<c r=\"A1\"/>"), Data::Empty);
    assert_eq!(data("<c r=\"A1\"></c>"), Data::Empty);
    let raw = b"<c r=\"C2\"><v>1.5</v></c>";
    assert_eq!(fragment_number_text(raw), Some("1.5".to_string()));
    let cell = parse_cell_fragment(raw, Some(Float::OfInt(9))).unwrap();
    assert_eq!(cell.get_position(), (1, 2));
    assert_eq!(cell.into_value(), Data::Float(Float::OfInt(9)));
    assert_eq!(fragment_number_text(b"<c r=\"C2\"><v>15</v></c>"), None);
    assert_eq!(fragment_number_text(b"<c r=\"C2\" t=\"str\"><v>1.5</v></c>"), None);
    let error = parse_cell_fragment(b"<c><v>1</v></c>", None).err().unwrap();
    assert_eq!(error.message, "Missing r attribute");
    let lost = parse_task(b"<c><v>1</v></c>", None);
    assert_eq!((lost.get_position(), lost.into_value()), ((0, 0), Data::Empty));
}

#[test]
fn the_parts_of_a_fragment_are_found() {
    let raw = b"<c r=\"B3\" t=\"s\"><v>4</v></c>";
    assert_eq!(extract_r_attr(raw).unwrap(), (2, 1));
    assert_eq!(extract_t_attr(raw), Some(&b"s"[..]));
    assert_eq!(extract_v_value(raw), Some(&b"4"[..]));
    assert_eq!(extract_inline_text(raw), None);
    assert!(!is_self_closing(raw));
    assert!(is_self_closing(b"<c r=\"B3\"/>"));
    assert!(!is_self_closing(b"nothing"));
}

#[test]
fn cells_are_cut_out_of_the_sheet() {
    let xml = b"<cols><col/></cols><row><c r=\"A1\"/><c r=\"B1\"><v>1</v></c><c>x</c></row>";
    let cut: Vec<&[u8]> = scan_cell_boundaries(xml)
        .iter()
        .map(|&(a, b)| &xml[a as usize..b as usize])
        .collect();
    assert_eq!(cut, vec![&b"<c r=\"A1\"/>"[..], &b"<c r=\"B1\"><v>1</v></c>"[..], &b"<c>x</c>"[..]]);
    assert_eq!(scan_cell_boundaries(b"<c"), vec![]);
    assert_eq!(scan_cell_boundaries(b"<c r=\"A1\"><v>1</v>"), vec![(0, 15)]);
}

#[test]
fn the_used_range_is_found() {
    assert_eq!(
        parse_dimensions(b"<x><dimension ref=\"A1:B9\"/>").unwrap(),
        Dimensions { start: (0, 0), end: (8, 1) }
    );
    assert_eq!(parse_dimensions(b"<x><dimension/>").unwrap(), Dimensions::default());
    assert_eq!(parse_dimensions(b"<x>").unwrap(), Dimensions::default());
    assert!(parse_dimensions(b"<dimension ref=\"A1:B2:C3\"/>").is_err());
}

#[test]
fn chunks_hold_every_cell() {
    let boundaries: Vec<(u32, u32)> = (0..25).map(|i| (i, i + 1)).collect();
    let chunks = chunk_tasks(&boundaries, 10);
    assert_eq!(chunks.iter().map(|c| c.len()).collect::<Vec<usize>>(), vec![10, 10, 5]);
    let flat: Vec<(usize, u32, u32)> = chunks.into_iter().flatten().collect();
    assert_eq!(flat.len(), 25);
    assert_eq!(flat[24], (24, 24, 25));
    assert!(chunk_tasks(&Vec::new(), 10).is_empty());
}

fn numbered(from: usize, to: usize) -> Vec<(usize, Cell<Data>)> {
    (from..to).map(|n| (n, Cell::new((n as u32, 0), Data::Int(n as i64)))).collect()
}

#[test]
fn cells_come_out_in_order() {
    let orders: Vec<Vec<usize>> = vec![vec![0, 1, 2, 3], vec![3, 2, 1, 0], vec![1, 3, 0, 2]];
    for order in orders {
        let mut reader = SheetFastReader::with_cells(20, no_strings(), Dimensions::default());
        let mut arrival: Vec<Vec<(usize, Cell<Data>)>> =
            order.iter().map(|&b| numbered(b * 5, b * 5 + 5)).collect();
        let mut seen = Vec::new();
        while let Some(cell) = reader.next_cell(&mut arrival) {
            seen.push(cell.get_position().0);
        }
        assert_eq!(seen, (0..20).collect::<Vec<u32>>());
        assert!(matches!(reader.next_ready(), Ready::Finished));
    }
}

#[test]
fn a_missing_cell_is_waited_for() {
    let mut reader = SheetFastReader::with_cells(4, no_strings(), Dimensions::default());
    assert!(matches!(reader.next_ready(), Ready::Waiting));
    assert!(reader.offer(Vec::new()).is_none());
    assert!(reader.offer(numbered(2, 4)).is_none());
    assert!(matches!(reader.next_ready(), Ready::Waiting));
    assert_eq!(reader.offer(numbered(0, 1)).unwrap().get_position().0, 0);
    assert!(matches!(reader.next_ready(), Ready::Waiting));
    assert!(reader.next_cell(&mut Vec::new()).is_none());
    assert_eq!(reader.offer(numbered(1, 2)).unwrap().get_position().0, 1);
    assert!(matches!(reader.next_ready(), Ready::Cell(_)));
    assert!(matches!(reader.next_ready(), Ready::Cell(_)));
    assert!(matches!(reader.next_ready(), Ready::Finished));
}

#[test]
fn profile_sheet_fast() {
    let mut xml = String::from("<worksheet><dimension ref=\"A1:A2500\"/><sheetData>");
    for row in 1..=2500 {
        xml.push_str(&format!("<row r=\"{0}\"><c r=\"A{0}\"><v>{0}</v></c></row>", row));
    }
    xml.push_str("</sheetData></worksheet>");
    let (mut reader, tasks) = plan_sheet(xml.into_bytes(), no_strings());
    assert_eq!(reader.total_cells(), 2500);
    assert_eq!(reader.dimensions().end, (2499, 0));
    assert_eq!(reader.strings().len(), 0);
    assert_eq!(tasks.chunks.len(), 3);
    let mut arrival: Vec<Vec<(usize, Cell<Data>)>> = tasks
        .chunks
        .iter()
        .rev()
        .map(|chunk| {
            chunk
                .iter()
                .map(|&(seq, a, b)| (seq, parse_task(&tasks.xml[a as usize..b as usize], None)))
                .collect()
        })
        .collect();
    let mut count: i64 = 0;
    while let Some(cell) = reader.next_cell(&mut arrival) {
        count += 1;
        assert_eq!(cell.into_value(), Data::Int(count));
    }
    assert_eq!(count, 2500);
}

#[test]
fn settings_follow_the_machine_and_the_user() {
    let none = FastOptions {
        parallelism: None,
        chunk_size: None,
        queue_cap: None,
        temp_kb: None,
        buf_kb: None,
    };
    let config = build_fast_config(&none, 6);
    assert_eq!(config, FastConfig::for_cores(6));
    assert_eq!((config.parallelism, config.chunk_size, config.queue_cap_mul), (3, 1000, 1));
    assert_eq!(config.queue_capacity(), 4);
    assert_eq!(FastConfig::for_cores(64).parallelism, 8);
    let asked = FastOptions {
        parallelism: Some(100),
        chunk_size: Some(5),
        queue_cap: Some(2),
        temp_kb: Some(3),
        buf_kb: Some(4),
    };
    let config = build_fast_config(&asked, 10);
    assert_eq!((config.parallelism, config.chunk_size, config.queue_cap_mul), (8, 5, 2));
    assert_eq!((config.temp_size, config.buf_size), (3072, 4096));
    let few = FastOptions { parallelism: Some(2), ..none };
    assert_eq!(build_fast_config(&few, 2).parallelism, 2);
}

#[test]
fn integers_are_read_as_std_reads_them() {
    let mut texts: Vec<String> = ["", "+", "-", "+-1", "-+1", "--1", "++1", "-0", "+0", "1e5", " 1", "1 ", "12a", "a", "1.0", "é", "/", ":", "1/2"]
        .iter()
        .map(|s| s.to_string())
        .collect();
    for edge in ["9223372036854775807", "9223372036854775808", "18446744073709551615", "18446744073709551616", "99999999999999999999", "9", "10", "12345678", "123456789012345", "1234567890123456", "12345678901234567"] {
        for sign in ["", "+", "-"] {
            for zeros in [0, 1, 3, 15, 16, 17, 20, 40, 100] {
                texts.push(format!("{}{}{}", sign, "0".repeat(zeros), edge));
                texts.push(format!("{}{}{}x", sign, "0".repeat(zeros), edge));
            }
        }
    }
    for zeros in 1..70 {
        for sign in ["", "+", "-"] {
            texts.push(format!("{}{}", sign, "0".repeat(zeros)));
        }
    }
    texts.push("-9223372036854775809".to_string());
    for text in texts {
        let plain = format!("<c r=\"A1\"><v>{}</v></c>", text);
        let expected = match text.parse::<i64>() {
            Ok(n) => Data::Int(n),
            Err(_) => Data::String(text.clone()),
        };
        assert_eq!(parse_task(plain.as_bytes(), None).into_value(), expected, "{}", text);
        assert_eq!(fragment_number_text(plain.as_bytes()).is_none(), text.parse::<i64>().is_ok());
        let shared = format!("<c r=\"A1\" t=\"s\"><v>{}</v></c>", text);
        let expected = match text.parse::<usize>() {
            Ok(n) => Data::SharedStringRef(n),
            Err(_) => Data::String(text.clone()),
        };
        assert_eq!(parse_task(shared.as_bytes(), None).into_value(), expected, "{}", text);
    }
}
