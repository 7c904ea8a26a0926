# stream_xlsx

A streaming reader of XLSX worksheets. It hands out the cells of a sheet in batches
of rows and collects each batch into typed columns for Polars. The library under
`src/` is written in Verus: every function states in its contract what it returns,
and Verus proves it.

## Layout

| Path | What it holds |
| --- | --- |
| `src/workbook.rs`, `src/metadata.rs` | the parts of a workbook: its sheets, relationships and number formats |
| `src/shared_strings.rs`, `src/simple_list.rs` | the shared strings, read as XML or scanned byte by byte, and that both agree on a simple list |
| `src/sheet_parser.rs`, `src/xlsx_stream_lm.rs` | the cells of a sheet, event by event |
| `src/sheet_fast.rs` | the cells of a sheet, scanned in chunks and put in order again |
| `src/excel_types.rs`, `src/calendar.rs`, `src/float.rs` | values, dates and numbers |
| `src/typed_col.rs`, `src/typed_cols.rs`, `src/series.rs` | typed columns and what becomes of them |
| `src/df_iter.rs`, `src/frame_run.rs`, `src/frame_calls.rs` | headers, rows to be skipped, batches, the frames of a whole sheet, call after call |
| `src/ai_iter.rs`, `src/read_iter.rs` | rows and whole columns of sheets |
| `src/paths.rs`, `src/shell_completion.rs`, `src/transform.rs`, `src/testmode.rs`, `src/generate_test_xlsx.rs` | the decisions of the command line |
| `src/xml.rs`, `src/plain_xml.rs`, `src/arrow.rs`, `src/text.rs`, `src/utils.rs`, `src/error.rs` | XML events, Arrow arrays, texts, errors |
| `app/` | the command line and the Python module: files, threads, floating-point arithmetic |
| `tests/` | tests against the real crates |

## What is proved and what is believed

Contracts are stated over mathematical models: a document is a sequence of XML
events, a column a sequence of values, a sheet a sequence of cells. Functions named
`law_..` prove what holds across functions, for instance that the batches hold every
cell that is not skipped, exactly once and in order.

The calls into other crates stand behind small wrappers marked
`#[verifier::external_body]`. Their contracts are believed, and the doc comment of
each says what it claims. Floating-point numbers are parsed by the application and
enter the library as `float::Float`.
