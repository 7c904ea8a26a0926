//! Streaming reader for Excel workbooks: the logic between the raw parts of a
//! workbook and the typed columns handed to a data frame.

pub mod ai_iter;
pub mod arrow;
pub mod calendar;
pub mod cell_fragments;
pub mod cell_values;
pub mod df_iter;
pub mod error;
pub mod excel_types;
pub mod float;
pub mod frame_calls;
pub mod frame_run;
pub mod generate_test_xlsx;
pub mod metadata;
pub mod part_lists;
pub mod paths;
pub mod plain_xml;
pub mod read_iter;
pub mod series;
pub mod shared_strings;
pub mod sheet_events;
pub mod sheet_fast;
pub mod sheet_parser;
pub mod shell_completion;
pub mod simple_list;
pub mod stream_reader;
pub mod testmode;
pub mod text;
pub mod transform;
pub mod typed_col;
pub mod typed_cols;
pub mod utils;
pub mod workbook;
pub mod xlsx_stream_lm;
pub mod xml;
