use polars::prelude::AnyValue as PolarsValue;
use rust_xlsxwriter::{ExcelDateTime as WrittenDate, Format as WrittenFormat, Workbook};
use std::sync::Arc;
use stream_xlsx::arrow::SharedStrings;
use stream_xlsx::df_iter::{
    df_iter, df_iter_fast, DataFrameIter, DataType, FromData, HeaderNext, IntoAnyValue, Next,
};
use stream_xlsx::excel_types::{Cell, CellErrorType, Data, Dimensions, ExcelDateTime};
use stream_xlsx::float::{Float, ParsedFloat, SerialParts};
use stream_xlsx::series::ColumnSeries;
use stream_xlsx::sheet_fast::{
    fragment_number_text, parse_task, Ready, SheetFastReader, SheetTasks,
};
use stream_xlsx::typed_col::{AnyValue, TypedCol};
use stream_xlsx::typed_cols::TypedCols;
use stream_xlsx::workbook::XlsxWorkbook;
use stream_xlsx::xlsx_stream_lm::XlsxStreamReader;

fn float_of(x: f64) -> Float {
    let time = x.fract() * 86_400.0;
    Float::Parsed(ParsedFloat {
        bits: x.to_bits(),
        text: x.to_string(),
        serial: SerialParts {
            days: x.floor() as i128,
            day_millis: (x.fract() * 86_400_000.0).round() as i64,
            day_seconds: time as u64,
            milli: (time.fract() * 1000.0).round() as u64,
        },
    })
}

/// `Sheet1` has a header and `rows` rows of an integer, a number, a text, a boolean
/// and a date; `Sheet2` has a header and two rows.
fn test_data(rows: u32) -> Vec<u8> {
    let mut workbook = Workbook::new();
    let dated = WrittenFormat::new().set_num_format("yyyy-mm-dd hh:mm:ss");
    let sheet = workbook.add_worksheet();
    for (col, name) in ["Int", "Float", "String", "Bool", "DateTime"].iter().enumerate() {
        sheet.write(0, col as u16, *name).unwrap();
    }
    for row in 1..=rows {
        sheet.write(row, 0, row as i64).unwrap();
        sheet.write(row, 1, row as f64 + 0.5).unwrap();
        sheet.write(row, 2, format!("row_{}", row)).unwrap();
        sheet.write(row, 3, row % 2 == 0).unwrap();
        let date = WrittenDate::parse_from_str("2024-03-01 12:30:00").unwrap();
        sheet.write_datetime_with_format(row, 4, &date, &dated).unwrap();
    }
    let second = workbook.add_worksheet();
    second.write(0, 0, "A").unwrap();
    second.write(0, 1, "B").unwrap();
    second.write(1, 0, 1).unwrap();
    second.write(1, 1, "x").unwrap();
    second.write(2, 0, 2).unwrap();
    second.write(2, 1, "y").unwrap();
    workbook.save_to_buffer().unwrap()
}

fn read_cells(reader: &mut XlsxStreamReader) -> Vec<Cell<Data>> {
    let strings = Arc::clone(reader.strings());
    let mut cells = Vec::new();
    while let Some(raw) = reader.next_cell().unwrap() {
        let number = match raw.number_text() {
            Some(text) => text.parse::<f64>().ok().map(float_of),
            None => None,
        };
        cells.push(raw.resolve(&strings, number));
    }
    cells
}

fn read_frames(iter: &mut DataFrameIter) -> Vec<Vec<ColumnSeries>> {
    assert!(matches!(iter.find_header(), HeaderNext::Done));
    let mut frames = Vec::new();
    loop {
        match iter.next() {
            Next::Frame(frame) => frames.push(frame),
            Next::End => return frames,
            Next::NeedCells => panic!("the cells were closed"),
            Next::Failed(e) => panic!("{}", e.message),
        }
    }
}

fn frames_of(
    archive: Vec<u8>,
    batch_size: Option<usize>,
    has_header: bool,
    skip_rows: Option<Vec<u32>>,
) -> Vec<Vec<ColumnSeries>> {
    let (mut reader, mut iter) =
        df_iter(batch_size, archive, Some("Sheet1"), None, has_header, skip_rows).unwrap();
    iter.supply(read_cells(&mut reader));
    iter.close(None);
    read_frames(&mut iter)
}

fn width(column: &ColumnSeries) -> usize {
    match column {
        ColumnSeries::Ready(series) => series.len(),
        ColumnSeries::Float64 { values, .. } => values.len(),
        ColumnSeries::Mixed { values, .. } => values.len(),
    }
}

fn height(frame: &Vec<ColumnSeries>) -> usize {
    width(&frame[0])
}

fn name(column: &ColumnSeries) -> String {
    match column {
        ColumnSeries::Ready(series) => series.name().to_string(),
        ColumnSeries::Float64 { name, .. } => name.clone(),
        ColumnSeries::Mixed { name, .. } => name.clone(),
    }
}

fn int_at(column: &ColumnSeries, row: usize) -> i64 {
    match column {
        ColumnSeries::Ready(series) => match series.get(row).unwrap() {
            PolarsValue::Int64(n) => n,
            other => panic!("{:?}", other),
        },
        _ => panic!("no series of integers"),
    }
}

#[test]
fn df_iter_test_df_iter() {
    let frames = frames_of(test_data(25), Some(10), true, None);
    let heights: Vec<usize> = frames.iter().map(height).collect();
    assert_eq!(heights, vec![10, 10, 5]);
    assert_eq!(int_at(&frames[2][0], 4), 25);
}

#[test]
fn read_iter_test_df_iter() {
    let frames = frames_of(test_data(10), Some(10), true, None);
    assert_eq!(frames.len(), 1);
    assert_eq!(height(&frames[0]), 10);
}

#[test]
fn test_workbook_two_sheets() {
    let wb = XlsxWorkbook::open(test_data(3)).unwrap();
    let names = wb.sheet_names();
    assert_eq!(names.len(), 2);
    assert_eq!(names[0], "Sheet1");
    assert_eq!(names[1], "Sheet2");
}

#[test]
fn test_select_sheet() {
    let mut wb = XlsxWorkbook::open(test_data(9)).unwrap();
    let mut reader = XlsxStreamReader::from_workbook(&mut wb, Some("Sheet1"), None).unwrap();
    let mut iter = DataFrameIter::new(
        Some(5),
        reader.dimensions(),
        Arc::clone(reader.strings()),
        true,
        None,
    );
    iter.supply(read_cells(&mut reader));
    iter.close(None);
    assert!(matches!(iter.find_header(), HeaderNext::Done));
    match iter.next() {
        Next::Frame(frame) => {
            assert_eq!(height(&frame), 5);
            assert_eq!(frame.len(), 5);
        }
        _ => panic!("no first batch"),
    }

    assert!(iter.select_sheet(&mut wb, Some("Sheet9"), None).is_err());
    assert_eq!(iter.len(), 1);
    let mut other = iter.select_sheet(&mut wb, Some("Sheet2"), None).unwrap();
    iter.supply(read_cells(&mut other));
    iter.close(None);
    let frames = read_frames(&mut iter);
    assert_eq!(frames.len(), 1);
    assert_eq!(height(&frames[0]), 2);
    assert_eq!(name(&frames[0][0]), "A");
    assert_eq!(name(&frames[0][1]), "B");
    assert_eq!(int_at(&frames[0][0], 1), 2);
}

#[test]
fn test_skip_rows() {
    let frames = frames_of(test_data(250), Some(100), true, Some(vec![1]));
    let total_rows: usize = frames.iter().map(height).sum();
    assert!(total_rows > 0);
    assert_eq!(total_rows, 249);
    assert_eq!(int_at(&frames[0][0], 0), 2);
}

#[test]
fn test_skip_rows_batch_boundary() {
    let frames = frames_of(test_data(20), Some(5), true, Some(vec![1]));
    assert_eq!(height(&frames[0]), 5, "first batch should have 5 rows (row 1 skipped before batch)");
    assert_eq!(int_at(&frames[0][0], 0), 2);
    assert_eq!(int_at(&frames[0][0], 4), 6);
}

#[test]
fn test_skip_rows_within_batch() {
    let frames = frames_of(test_data(20), Some(5), true, Some(vec![2, 3, 4]));
    assert_eq!(height(&frames[0]), 5);
    let firsts: Vec<i64> = (0..5).map(|row| int_at(&frames[0][0], row)).collect();
    assert_eq!(firsts, vec![1, 5, 6, 7, 8]);
}

#[test]
fn rows_to_be_skipped_may_be_listed_in_any_order() {
    let frames = frames_of(test_data(20), Some(5), true, Some(vec![4, 2, 3, 2]));
    let firsts: Vec<i64> = (0..5).map(|row| int_at(&frames[0][0], row)).collect();
    assert_eq!(firsts, vec![1, 5, 6, 7, 8]);
}

#[test]
fn a_switch_of_sheets_that_fails_changes_nothing() {
    let mut wb = XlsxWorkbook::open(test_data(9)).unwrap();
    let (mut reader, mut iter) =
        DataFrameIter::from_workbook(Some(5), &mut wb, Some("Sheet1"), None, true, None).unwrap();
    iter.supply(read_cells(&mut reader));
    iter.close(None);
    assert!(matches!(iter.find_header(), HeaderNext::Done));
    assert!(matches!(iter.next(), Next::Frame(_)));
    let error = iter.select_sheet(&mut wb, Some("none"), None).err().unwrap();
    assert_eq!(error.message, "Worksheet 'none' not found");
    match iter.next() {
        Next::Frame(frame) => assert_eq!(int_at(&frame[0], 0), 6),
        _ => panic!("the second batch was due"),
    }
    let mut again = iter.select_sheet(&mut wb, None, Some(0)).unwrap();
    iter.supply(read_cells(&mut again));
    iter.close(None);
    let frames = read_frames(&mut iter);
    assert_eq!(frames.iter().map(height).collect::<Vec<usize>>(), vec![5, 4]);
}

#[test]
fn test_header_not_affected_by_skip() {
    let plain = frames_of(test_data(20), Some(5), true, None);
    let skipped = frames_of(test_data(20), Some(5), true, Some(vec![1]));
    let names: Vec<String> = skipped[0].iter().map(name).collect();
    assert_eq!(names, vec!["Int", "Float", "String", "Bool", "DateTime"]);
    assert_eq!(names, plain[0].iter().map(name).collect::<Vec<String>>());
    assert!(height(&skipped[0]) > 0);
}

#[test]
fn test_skip_header_row_with_has_header_true() {
    let frames = frames_of(test_data(20), Some(5), true, Some(vec![0]));
    assert_eq!(name(&frames[0][0]), "Int");
    assert_eq!(int_at(&frames[0][0], 0), 1);
}

#[test]
fn test_skip_first_data_row_no_header() {
    let frames = frames_of(test_data(20), Some(5), false, Some(vec![0]));
    assert!(height(&frames[0]) > 0);
    assert_eq!(name(&frames[0][0]), "col_0");
    assert_eq!(int_at(&frames[0][0], 0), 1);
}

#[test]
fn test_skip_second_row_no_header() {
    let frames = frames_of(test_data(20), Some(5), false, Some(vec![1]));
    assert!(height(&frames[0]) > 0);
    match &frames[0][0] {
        ColumnSeries::Mixed { values, dtype, .. } => {
            assert_eq!(*dtype, DataType::String);
            assert_eq!(values[0], AnyValue::StringOwned("Int".to_string()));
            assert_eq!(values[1], AnyValue::Int64(2));
        }
        _ => panic!("a header and integers are mixed"),
    }
}

#[test]
fn test_push_shared_string_ref_zero_copy() {
    let strings = SharedStrings::new(
        b"hello world foo bar".to_vec(),
        vec![(0, 5), (6, 5), (12, 3), (16, 3)],
    );
    let mut col = TypedCol::new(&DataType::String, 4);
    col.push_shared_string_ref(0, &strings);
    col.push_shared_string_ref(1, &strings);
    col.push_shared_string_ref(2, &strings);
    col.push_shared_string_ref(3, &strings);
    assert!(matches!(col, TypedCol::String(_)));
    assert_eq!(col.len(), 4);
    assert_eq!(col.buffer_usage(), Some((0, 0)));
    assert_eq!(
        col.into_any_values(),
        vec![
            AnyValue::StringOwned("hello".to_string()),
            AnyValue::StringOwned("world".to_string()),
            AnyValue::StringOwned("foo".to_string()),
            AnyValue::StringOwned("bar".to_string()),
        ]
    );
}

#[test]
fn test_push_shared_string_ref_long_zero_copy() {
    let long_str = "a".repeat(100);
    let strings = SharedStrings::new(long_str.as_bytes().to_vec(), vec![(0, 100)]);
    let mut col = TypedCol::new(&DataType::String, 1);
    col.push_shared_string_ref(0, &strings);
    assert!(matches!(col, TypedCol::String(_)));
    assert_eq!(col.len(), 1);
    assert_eq!(col.buffer_usage(), Some((1, 100)));
    col.push_shared_string_ref(7, &strings);
    assert_eq!(
        col.into_any_values(),
        vec![AnyValue::StringOwned(long_str), AnyValue::Null]
    );
}

#[test]
fn an_entry_that_is_not_utf8_has_an_empty_text() {
    let strings = SharedStrings::new(b"long enough \xff to referplain".to_vec(), vec![(0, 22), (22, 5)]);
    assert_eq!(strings.get(0), Some(String::new()));
    assert_eq!(strings.get(1), Some("plain".to_string()));
    for dtype in [DataType::String, DataType::Null] {
        let mut col = TypedCol::new(&dtype, 2);
        col.push_shared_string_ref(0, &strings);
        col.push_shared_string_ref(1, &strings);
        assert_eq!(
            col.into_any_values(),
            vec![AnyValue::StringOwned(String::new()), AnyValue::StringOwned("plain".to_string())]
        );
    }
}

#[test]
fn a_text_column_takes_no_place_of_a_shared_string() {
    let mut col = TypedCol::new(&DataType::String, 2);
    col.push_value(Data::String("t".to_string()));
    col.push_value(Data::SharedStringRef(4));
    assert_eq!(col.into_any_values(), vec![AnyValue::StringOwned("t".to_string())]);
    let mut col = TypedCol::new(&DataType::Null, 1);
    col.push_value(Data::SharedStringRef(4));
    assert_eq!(col.into_any_values(), vec![AnyValue::StringOwned("4".to_string())]);
}

#[test]
fn columns_get_the_types_of_their_values() {
    let frames = frames_of(test_data(3), None, true, None);
    assert_eq!(frames.len(), 1);
    let frame = &frames[0];
    assert_eq!(height(frame), 3);
    match &frame[1] {
        ColumnSeries::Float64 { values, .. } => assert_eq!(values[1], float_of(2.5)),
        _ => panic!("no numbers"),
    }
    match &frame[2] {
        ColumnSeries::Ready(series) => {
            assert_eq!(series.get(2).unwrap().get_str(), Some("row_3"));
        }
        _ => panic!("no texts"),
    }
    match &frame[3] {
        ColumnSeries::Ready(series) => {
            assert_eq!(series.get(0).unwrap(), PolarsValue::Boolean(false));
            assert_eq!(series.get(1).unwrap(), PolarsValue::Boolean(true));
        }
        _ => panic!("no booleans"),
    }
    match &frame[4] {
        ColumnSeries::Ready(series) => match series.get(0).unwrap() {
            PolarsValue::Datetime(nanos, _, _) => assert_eq!(nanos, 1_709_296_200_000_000_000),
            other => panic!("{:?}", other),
        },
        _ => panic!("no dates"),
    }
}

fn read_fast(reader: &mut SheetFastReader, tasks: &SheetTasks) -> Vec<Cell<Data>> {
    let mut arrival = Vec::new();
    for chunk in &tasks.chunks {
        for part in chunk.chunks(7) {
            let batch: Vec<(usize, Cell<Data>)> = part
                .iter()
                .map(|&(seq, start, end)| {
                    let raw = &tasks.xml[start as usize..end as usize];
                    let number = fragment_number_text(raw)
                        .and_then(|text| text.parse::<f64>().ok())
                        .map(float_of);
                    (seq, parse_task(raw, number))
                })
                .collect();
            arrival.insert(0, batch);
        }
    }
    let mut cells = Vec::new();
    while let Some(cell) = reader.next_cell(&mut arrival) {
        cells.push(cell);
    }
    cells
}

fn same_frames(fast: &Vec<Vec<ColumnSeries>>, slow: &Vec<Vec<ColumnSeries>>) {
    assert_eq!(fast.len(), slow.len());
    for (a, b) in fast.iter().zip(slow.iter()) {
        assert_eq!(height(a), height(b));
        for row in 0..height(a) {
            assert_eq!(int_at(&a[0], row), int_at(&b[0], row));
        }
        match (&a[2], &b[2]) {
            (ColumnSeries::Ready(x), ColumnSeries::Ready(y)) => assert!(x.equals(y)),
            _ => panic!("no texts"),
        }
    }
}

#[test]
fn fast_mode_reads_the_same_cells() {
    let archive = test_data(40);
    let (mut reader, tasks, mut iter) =
        df_iter_fast(Some(15), archive.clone(), Some("Sheet1"), None, true, None).unwrap();
    assert_eq!(reader.total_cells(), 41 * 5);
    assert!(matches!(reader.next_ready(), Ready::Waiting));
    let cells = read_fast(&mut reader, &tasks);
    assert_eq!(cells.len(), 41 * 5);
    iter.supply(cells);
    iter.close(None);
    same_frames(&read_frames(&mut iter), &frames_of(archive, Some(15), true, None));
}

#[test]
fn fast_mode_turns_to_a_sheet() {
    let archive = test_data(40);
    let mut iter = DataFrameIter::new(Some(15), range(0, 0), no_strings(), true, None);
    iter.supply(vec![Cell::new((0, 0), Data::Int(1))]);
    let error = iter.select_sheet_fast(archive.clone(), Some("none"), None).err().unwrap();
    assert_eq!(error.message, "Worksheet 'none' not found");
    assert!(matches!(iter.find_header(), HeaderNext::NeedCells));
    let (mut reader, tasks) =
        iter.select_sheet_fast(archive.clone(), Some("Sheet1"), None).unwrap();
    assert!(matches!(reader.next_ready(), Ready::Waiting));
    assert!(matches!(iter.find_header(), HeaderNext::NeedCells));
    iter.supply(read_fast(&mut reader, &tasks));
    iter.close(None);
    same_frames(&read_frames(&mut iter), &frames_of(archive, Some(15), true, None));
}

fn no_strings() -> Arc<SharedStrings> {
    Arc::new(SharedStrings::new(Vec::new(), Vec::new()))
}

fn range(row: u32, col: u32) -> Dimensions {
    Dimensions { start: (0, 0), end: (row, col) }
}

#[test]
fn cells_can_be_supplied_in_portions() {
    let mut iter = DataFrameIter::new(Some(2), range(4, 0), no_strings(), true, None);
    assert!(matches!(iter.find_header(), HeaderNext::NeedCells));
    iter.supply(vec![Cell::new((0, 0), Data::String("n".to_string()))]);
    assert!(matches!(iter.find_header(), HeaderNext::NeedCells));
    iter.supply(vec![Cell::new((1, 0), Data::Int(1))]);
    assert!(matches!(iter.find_header(), HeaderNext::Done));
    assert_eq!(iter.len(), 2);
    assert!(matches!(iter.next(), Next::NeedCells));
    iter.supply(vec![Cell::new((2, 0), Data::Int(2)), Cell::new((3, 0), Data::Int(3))]);
    match iter.next() {
        Next::Frame(frame) => {
            assert_eq!(height(&frame), 2);
            assert_eq!(name(&frame[0]), "n");
        }
        _ => panic!("a full batch was due"),
    }
    assert_eq!(iter.size_hint(), (1, Some(1)));
    iter.supply(vec![Cell::new((4, 0), Data::Int(4))]);
    assert!(matches!(iter.next(), Next::NeedCells));
    iter.close(None);
    match iter.next() {
        Next::Frame(frame) => assert_eq!(int_at(&frame[0], 1), 4),
        _ => panic!("the last batch was due"),
    }
    assert_eq!(iter.len(), 0);
    assert!(matches!(iter.next(), Next::End));
}

#[test]
fn call_after_call_hands_out_the_frames() {
    let skipped = Some(vec![4, 9]);
    let mut iter = DataFrameIter::new(Some(3), range(12, 0), no_strings(), true, skipped);
    iter.supply((0..=12).map(|row| Cell::new((row, 0), Data::Int(row as i64))).collect());
    iter.close(None);
    assert!(matches!(iter.find_header(), HeaderNext::Done));
    let rows = [1, 2, 3, 5, 6, 7, 8, 10, 11, 12];
    for (k, batch) in rows.chunks(3).enumerate() {
        assert_eq!(iter.size_hint(), (4 - k, Some(4 - k)));
        match iter.next() {
            Next::Frame(frame) => {
                assert_eq!(height(&frame), batch.len());
                for (i, row) in batch.iter().enumerate() {
                    assert_eq!(int_at(&frame[0], i), *row);
                }
            }
            _ => panic!("a frame was due"),
        }
    }
    for _ in 0..2 {
        assert_eq!(iter.size_hint(), (0, Some(0)));
        assert!(matches!(iter.next(), Next::End));
    }
}

#[test]
fn a_header_with_gaps_is_filled_up() {
    let mut iter = DataFrameIter::new(Some(10), range(1, 5), no_strings(), true, None);
    iter.supply(vec![
        Cell::new((0, 0), Data::String("a".to_string())),
        Cell::new((0, 2), Data::Int(7)),
        Cell::new((0, 3), Data::String(String::new())),
        Cell::new((1, 0), Data::Int(1)),
        Cell::new((1, 6), Data::Bool(true)),
    ]);
    iter.close(None);
    let frames = read_frames(&mut iter);
    let names: Vec<String> = frames[0].iter().map(name).collect();
    assert_eq!(
        names,
        vec!["a", "Unknown_1", "7", "Unknown_3", "Unknown_4", "Unknown_5", "unknown"]
    );
    let widths: Vec<usize> = frames[0].iter().map(width).collect();
    assert_eq!(widths, vec![1; 7]);
}

#[test]
fn a_sheet_without_cells_has_names_and_no_batches() {
    let mut iter = DataFrameIter::new(Some(10), range(0, 1), no_strings(), true, None);
    iter.close(None);
    assert!(matches!(iter.find_header(), HeaderNext::Done));
    assert_eq!(iter.len(), 0);
    assert!(matches!(iter.next(), Next::End));
}

#[test]
fn the_number_of_batches_counts_skipped_rows() {
    let mut iter = DataFrameIter::new(Some(3), range(10, 0), no_strings(), true, Some(vec![2, 5, 40]));
    iter.supply(vec![
        Cell::new((0, 0), Data::String("n".to_string())),
        Cell::new((1, 0), Data::Int(1)),
    ]);
    assert!(matches!(iter.find_header(), HeaderNext::Done));
    assert_eq!(iter.len(), 3);
    assert!(!iter.is_row_skipped(1));
    assert!(iter.is_row_skipped(2));
    assert!(iter.is_row_skipped(2));
    assert!(iter.is_row_skipped(5));
    assert!(iter.is_row_skipped(5));
    assert!(!iter.is_row_skipped(2));
    assert!(iter.is_row_skipped(40));
}

#[test]
fn a_failure_is_handed_on() {
    let mut iter = DataFrameIter::new(Some(3), range(10, 0), no_strings(), false, None);
    iter.supply(vec![Cell::new((0, 0), Data::Int(1))]);
    let error = XlsxWorkbook::open(vec![1, 2, 3]).err().unwrap();
    let message = error.message.clone();
    iter.close(Some(error));
    assert!(matches!(iter.find_header(), HeaderNext::Done));
    match iter.next() {
        Next::Failed(e) => assert_eq!(e.message, message),
        _ => panic!("the failure was due"),
    }
}

#[test]
fn types_join_as_values_come_in() {
    let mut cols = TypedCols::new(&range(9, 5), 4);
    let put = |cols: &mut TypedCols, row: usize, col: u32, data: Data| {
        cols.push_cell(Cell::new((row as u32, col), data), row).unwrap();
    };
    put(&mut cols, 0, 0, Data::Int(3));
    put(&mut cols, 1, 0, Data::Float(float_of(1.25)));
    put(&mut cols, 0, 1, Data::Int(3));
    put(&mut cols, 2, 1, Data::String("x".to_string()));
    put(&mut cols, 0, 2, Data::Bool(true));
    put(&mut cols, 1, 2, Data::Int(9));
    put(&mut cols, 0, 3, Data::Error(CellErrorType::NA));
    put(&mut cols, 1, 4, Data::Empty);
    put(&mut cols, 2, 4, Data::Int(1));
    assert_eq!(
        cols.col_dtypes,
        vec![
            Some(DataType::Float64),
            Some(DataType::String),
            Some(DataType::String),
            None,
            Some(DataType::Int64),
            None,
        ]
    );
    assert_eq!(cols.cols.iter().map(|c| c.len()).collect::<Vec<usize>>(), vec![2, 3, 2, 1, 3, 0]);
    let frame = cols.into_dataframe().unwrap();
    assert!(cols.cols.is_empty());
    match &frame[0] {
        ColumnSeries::Float64 { values, .. } => {
            assert_eq!(values[0], Float::OfInt(3));
            assert_eq!(values[1], float_of(1.25));
        }
        _ => panic!("no numbers"),
    }
    match &frame[1] {
        ColumnSeries::Ready(series) => {
            assert_eq!(series.get(0).unwrap().get_str(), Some("3"));
            assert_eq!(series.get(1).unwrap(), PolarsValue::Null);
            assert_eq!(series.get(2).unwrap().get_str(), Some("x"));
        }
        _ => panic!("no texts"),
    }
    match &frame[2] {
        ColumnSeries::Ready(series) => {
            assert_eq!(series.get(0).unwrap().get_str(), Some("true"));
            assert_eq!(series.get(1).unwrap().get_str(), Some("9"));
            assert_eq!(series.get(2).unwrap(), PolarsValue::Null);
            assert_eq!(series.len(), 3);
        }
        _ => panic!("no texts"),
    }
    match &frame[4] {
        ColumnSeries::Mixed { values, dtype, .. } => {
            assert_eq!(*dtype, DataType::Int64);
            assert_eq!(values, &vec![AnyValue::Null, AnyValue::Null, AnyValue::Int64(1)]);
        }
        _ => panic!("a column that starts with a missing value is mixed"),
    }
    match &frame[5] {
        ColumnSeries::Mixed { values, dtype, .. } => {
            assert_eq!(*dtype, DataType::Null);
            assert_eq!(values, &vec![AnyValue::Null; 3]);
        }
        _ => panic!("a column without values is filled up with nulls"),
    }
}

#[test]
fn the_value_that_makes_a_column_text_is_kept() {
    let date = || Data::DateTime(ExcelDateTime::new(Float::OfInt(25_570), false));
    let text = |s: &str| AnyValue::StringOwned(s.to_string());
    for (first, second, texts) in [
        (Data::Int(1), Data::Bool(true), ["1", "true"]),
        (Data::Bool(false), Data::Int(-3), ["false", "-3"]),
        (Data::Float(float_of(0.5)), Data::Bool(true), ["0.5", "true"]),
        (Data::Bool(true), Data::Float(float_of(2.5)), ["true", "2.5"]),
        (date(), Data::Int(7), ["86400000000000", "7"]),
        (Data::Int(7), date(), ["7", "86400000000000"]),
        (Data::Int(1), Data::DurationIso("PT1S".to_string()), ["1", "PT1S"]),
    ] {
        let mut cols = TypedCols::new(&range(1, 0), 10);
        cols.push_cell(Cell::new((0, 0), first), 0).unwrap();
        cols.push_cell(Cell::new((1, 0), second), 1).unwrap();
        assert_eq!(cols.col_dtypes[0], Some(DataType::String));
        let col = cols.cols.remove(0);
        assert!(matches!(col, TypedCol::String(_)));
        assert_eq!(col.into_any_values(), vec![text(texts[0]), text(texts[1])]);
    }
}

#[test]
fn every_upgrade_keeps_nulls_in_place() {
    let filled = |dtype: DataType, data: Data| {
        let mut col = TypedCol::new(&dtype, 2);
        col.push_null();
        col.push_value(data);
        col
    };
    let text = |s: &str| AnyValue::StringOwned(s.to_string());

    let mut ints = filled(DataType::Int64, Data::Int(-5));
    ints.upgrade(&DataType::String);
    assert_eq!(ints.into_any_values(), vec![AnyValue::Null, text("-5")]);

    let mut floats = filled(DataType::Float64, Data::Float(float_of(0.1)));
    floats.upgrade(&DataType::String);
    assert_eq!(floats.into_any_values(), vec![AnyValue::Null, text("0.1")]);

    let mut bools = filled(DataType::Boolean, Data::Bool(false));
    bools.upgrade(&DataType::Int64);
    assert_eq!(bools.into_any_values(), vec![AnyValue::Null, AnyValue::Boolean(false)]);

    let date = ExcelDateTime::new(Float::OfInt(25_569), false);
    let mut dates = filled(DataType::Datetime, Data::DateTime(date));
    dates.upgrade(&DataType::String);
    assert_eq!(dates.into_any_values(), vec![AnyValue::Null, text("0")]);

    let mut texts = filled(DataType::String, Data::String("t".to_string()));
    assert!(!texts.accepts(&Data::Int(1)));
    texts.upgrade(&DataType::String);
    assert!(matches!(texts, TypedCol::AnyValue(_)));
    texts.push_value(Data::Int(1));
    texts.push_str("u");
    assert_eq!(
        texts.into_any_values(),
        vec![AnyValue::Null, text("t"), AnyValue::Int64(1), text("u")]
    );

    let mut empty = TypedCol::Empty;
    empty.push_null();
    assert!(empty.is_empty());
    empty.pad_to(4);
    empty.pad_to(4);
    empty.pad_to(2);
    assert_eq!(empty.into_any_values(), vec![AnyValue::Null; 4]);
}

#[test]
fn values_become_texts_and_values_of_mixed_types() {
    assert_eq!(<String as FromData>::from_data(Data::Int(12)), "12");
    assert_eq!(<String as FromData>::from_data(Data::Float(float_of(1e21))), 1e21f64.to_string());
    assert_eq!(<String as FromData>::from_data(Data::Error(CellErrorType::Div0)), "#DIV/0!");
    assert_eq!(<String as FromData>::from_data(Data::SharedStringRef(4)), "4");
    assert_eq!(<String as FromData>::from_data(Data::Empty), "");
    assert_eq!(Data::Bool(true).into_anyvalue(), AnyValue::Boolean(true));
    assert_eq!(<AnyValue as FromData>::from_data(Data::Empty), AnyValue::Null);
    assert_eq!(<Data as FromData>::from_data(Data::Int(1)), Data::Int(1));
}

#[test]
fn a_workbook_is_opened_once_for_all_its_sheets() {
    let mut workbook = XlsxWorkbook::open(test_data(3)).unwrap();
    for (sheet, columns, rows) in [("Sheet1", 5, 3), ("Sheet2", 2, 2), ("Sheet1", 5, 3)] {
        let (mut reader, mut iter) =
            DataFrameIter::from_workbook(None, &mut workbook, Some(sheet), None, true, None)
                .unwrap();
        iter.supply(read_cells(&mut reader));
        iter.close(None);
        let frames = read_frames(&mut iter);
        assert_eq!(frames.len(), 1);
        assert_eq!(frames[0].len(), columns);
        assert_eq!(height(&frames[0]), rows);
    }
    let missing = DataFrameIter::from_workbook(None, &mut workbook, Some("x"), None, true, None);
    assert_eq!(missing.err().unwrap().message, "Worksheet 'x' not found");
}

#[test]
fn batches_come_as_told() {
    for (rows, batch, skip, told) in
        [(25, 10, vec![], 3), (30, 10, vec![], 3), (25, 10, vec![3, 4, 5, 6, 7, 8], 2), (1, 7, vec![], 1), (1, 1, vec![0], 1), (10, 5, vec![0, 99], 2)]
    {
        let (mut reader, mut iter) =
            df_iter(Some(batch), test_data(rows), None, None, true, Some(skip)).unwrap();
        iter.supply(read_cells(&mut reader));
        iter.close(None);
        assert!(matches!(iter.find_header(), HeaderNext::Done));
        assert_eq!(iter.len(), told);
        assert_eq!(read_frames(&mut iter).len(), told);
        assert_eq!(iter.len(), 0);
    }
}
