//! The streaming reader of a worksheet.

use crate::arrow::SharedStrings;
use crate::error::{Failure, XlsxError};
use crate::excel_types::Dimensions;
use crate::sheet_parser::{
    lemma_last_event_decides, sheet_start, sheet_step, Outcome, OutcomeItem, RawCell,
    RawCellItem, SheetParser, SheetState, StylesItem,
};
use crate::stream_reader::StreamReader;
use crate::utils::corners;
use crate::workbook::{
    archive_entry, name_text, picked_sheet, readable_bytes, workbook_formats, workbook_sheets,
    workbook_strings, PIECE, XlsxWorkbook,
};
use crate::xml::{document_events, events_after, XmlDocument, XmlItem};
use std::sync::Arc;
use vstd::prelude::*;

verus! {

/// The state of the parser after the prelude of a sheet, and the events that
/// follow the prelude.
pub open spec fn prelude_run(state: SheetState, styles: StylesItem, items: Seq<XmlItem>) -> Result<
    (SheetState, Seq<XmlItem>),
    Failure,
>
    decreases items.len(),
{
    if items.len() == 0 {
        Ok((state, items))
    } else {
        let (after, outcome) = sheet_step(state, styles, items[0]);
        match outcome {
            OutcomeItem::More => prelude_run(after, styles, items.skip(1)),
            OutcomeItem::Fail(e) => Err(e),
            _ => Ok((after, events_after(items))),
        }
    }
}

/// The next cell among the events of a sheet, `None` where the sheet's data is
/// over; with the state of the parser and the events after it.
pub open spec fn next_cell_run(state: SheetState, styles: StylesItem, items: Seq<XmlItem>) -> (
    Result<Option<RawCellItem>, Failure>,
    SheetState,
    Seq<XmlItem>,
)
    decreases items.len(),
{
    if items.len() == 0 {
        (Ok(None), state, items)
    } else {
        let (after, outcome) = sheet_step(state, styles, items[0]);
        match outcome {
            OutcomeItem::More => next_cell_run(after, styles, items.skip(1)),
            OutcomeItem::Fail(e) => (Err(e), after, events_after(items)),
            OutcomeItem::Cell(cell) => (Ok(Some(cell)), after, events_after(items)),
            _ => (Ok(None), after, events_after(items)),
        }
    }
}

/// Reads the prelude of a sheet.
fn run_prelude(xml: &mut XmlDocument, parser: &mut SheetParser) -> (read: Result<(), XlsxError>)
    requires
        old(xml).wf(),
        old(parser).wf(),
    ensures
        final(xml).wf(),
        final(parser).wf(),
        final(parser).style_items() == old(parser).style_items(),
        match read {
            Ok(_) => prelude_run(old(parser)@, old(parser).style_items(), old(xml).pending())
                == Ok::<(SheetState, Seq<XmlItem>), Failure>(
                (final(parser)@, final(xml).pending()),
            ),
            Err(e) => prelude_run(old(parser)@, old(parser).style_items(), old(xml).pending())
                == Err::<(SheetState, Seq<XmlItem>), Failure>(e@),
        },
{
    loop
        invariant
            xml.wf(),
            parser.wf(),
            parser.style_items() == old(parser).style_items(),
            prelude_run(old(parser)@, old(parser).style_items(), old(xml).pending())
                == prelude_run(parser@, parser.style_items(), xml.pending()),
        decreases xml.pending().len(),
    {
        let ghost before = parser@;
        let event = xml.next();
        proof {
            if crate::xml::is_last(event@) {
                lemma_last_event_decides(before, parser.style_items(), event@);
            }
        }
        match parser.step(&event) {
            Outcome::More => {},
            Outcome::Fail(e) => {
                return Err(e);
            },
            _ => {
                return Ok(());
            },
        }
    }
}

/// The streaming reader of a worksheet. It hands out the cells one by one as the
/// events of the sheet's XML come in.
pub struct XlsxStreamReader {
    xml: XmlDocument,
    parser: SheetParser,
    strings: Arc<SharedStrings>,
}

impl XlsxStreamReader {
    pub closed spec fn wf(&self) -> bool {
        self.xml.wf() && self.parser.wf() && self.strings.wf()
    }

    /// The events that are yet to come.
    pub closed spec fn pending(&self) -> Seq<XmlItem> {
        self.xml.pending()
    }

    /// The state of the parser.
    pub closed spec fn state(&self) -> SheetState {
        self.parser@
    }

    /// The number formats that the parser goes by.
    pub closed spec fn styles(&self) -> StylesItem {
        self.parser.style_items()
    }

    /// The shared strings of the workbook.
    pub closed spec fn texts(&self) -> Seq<Seq<char>> {
        self.strings@
    }

    /// Opens a workbook, given by the bytes of its archive, and one of its sheets.
    pub fn new(archive: Vec<u8>, sheet_name: Option<&str>, sheet_idx: Option<usize>) -> (reader:
        Result<Self, XlsxError>)
        ensures
            match reader {
                Ok(r) => r.wf() && (workbook_sheets(archive@) matches Ok(sheets) && opened(
                    archive@,
                    sheets,
                    false,
                    name_text(sheet_name),
                    sheet_idx,
                    r,
                )),
                Err(e) => match workbook_sheets(archive@) {
                    Err(f) => e@ == f,
                    Ok(sheets) => not_opened(
                        archive@,
                        sheets,
                        false,
                        name_text(sheet_name),
                        sheet_idx,
                        e@,
                    ),
                },
            },
    {
        match XlsxWorkbook::open(archive) {
            Err(e) => Err(e),
            Ok(workbook) => {
                let mut workbook = workbook;
                Self::from_workbook(&mut workbook, sheet_name, sheet_idx)
            },
        }
    }

    /// Opens a sheet of a workbook, whose shared strings and number formats are
    /// loaded if they are not yet.
    pub fn from_workbook(
        workbook: &mut XlsxWorkbook,
        sheet_name: Option<&str>,
        sheet_idx: Option<usize>,
    ) -> (reader: Result<Self, XlsxError>)
        requires
            old(workbook).wf(),
        ensures
            final(workbook).wf(),
            final(workbook).archive() == old(workbook).archive(),
            final(workbook).entries() == old(workbook).entries(),
            final(workbook).fast() == old(workbook).fast(),
            loaded_for(*old(workbook), *final(workbook), name_text(sheet_name), sheet_idx),
            match reader {
                Ok(r) => r.wf() && final(workbook).loaded_strings() is Some
                    && final(workbook).loaded_styles() is Some && opened(
                    old(workbook).archive(),
                    old(workbook).entries(),
                    old(workbook).fast(),
                    name_text(sheet_name),
                    sheet_idx,
                    r,
                ),
                Err(e) => not_opened(
                    old(workbook).archive(),
                    old(workbook).entries(),
                    old(workbook).fast(),
                    name_text(sheet_name),
                    sheet_idx,
                    e@,
                ),
            },
    {
        let path: String = match workbook.pick_sheet(sheet_name, sheet_idx) {
            Ok(path) => path.to_owned(),
            Err(e) => {
                return Err(e);
            },
        };
        match workbook.load() {
            Ok(_) => {},
            Err(e) => {
                return Err(e);
            },
        }
        proof {
            workbook.lemma_loaded();
        }
        let bytes = workbook.unpack_part(path.as_str());
        let strings = match workbook.strings() {
            Some(strings) => strings.clone(),
            None => Arc::new(SharedStrings::new(Vec::new(), Vec::new())),
        };
        let styles = workbook.styles();
        let mut parser = SheetParser::new(styles);
        let mut xml = XmlDocument::new(bytes);
        match run_prelude(&mut xml, &mut parser) {
            Ok(_) => {},
            Err(e) => {
                return Err(e);
            },
        }
        Ok(XlsxStreamReader { xml, parser, strings })
    }

    /// The used range that the sheet states.
    pub fn dimensions(&self) -> (dimensions: Dimensions)
        ensures
            corners(dimensions) == self.state().dimensions,
            self.wf() ==> dimensions.end.0 < u32::MAX && dimensions.end.1 < u32::MAX,
    {
        self.parser.dimensions()
    }

    /// The shared strings of the workbook.
    pub fn strings(&self) -> (strings: &Arc<SharedStrings>)
        ensures
            strings@ == self.texts(),
            self.wf() ==> strings.wf(),
    {
        &self.strings
    }

    /// The next cell, `None` where the sheet's data is over.
    pub fn next_cell(&mut self) -> (cell: Result<Option<RawCell>, XlsxError>)
        requires
            old(self).wf(),
        ensures
            final(self).wf(),
            final(self).styles() == old(self).styles(),
            final(self).texts() == old(self).texts(),
            ({
                let (found, state, rest) = next_cell_run(
                    old(self).state(),
                    old(self).styles(),
                    old(self).pending(),
                );
                &&& final(self).state() == state
                &&& final(self).pending() == rest
                &&& match cell {
                    Ok(Some(c)) => found == Ok::<Option<RawCellItem>, Failure>(Some(c@)),
                    Ok(None) => found == Ok::<Option<RawCellItem>, Failure>(None),
                    Err(e) => found == Err::<Option<RawCellItem>, Failure>(e@),
                }
            }),
    {
        loop
            invariant
                self.wf(),
                self.styles() == old(self).styles(),
                self.texts() == old(self).texts(),
                next_cell_run(
                    old(self).state(),
                    old(self).styles(),
                    old(self).pending(),
                ) == next_cell_run(self.state(), self.styles(), self.pending()),
            decreases self.pending().len(),
        {
            let ghost before = self.state();
            let event = self.xml.next();
            proof {
                if crate::xml::is_last(event@) {
                    lemma_last_event_decides(before, self.styles(), event@);
                }
            }
            match self.parser.step(&event) {
                Outcome::More => {},
                Outcome::Fail(e) => {
                    return Err(e);
                },
                Outcome::Cell(cell) => {
                    return Ok(Some(cell));
                },
                _ => {
                    return Ok(None);
                },
            }
        }
    }
}

/// What opening a sheet loads of a workbook: nothing where there is no such sheet;
/// else the shared strings where they can be read, and then the number formats.
pub open spec fn loaded_for(
    before: XlsxWorkbook,
    after: XlsxWorkbook,
    sheet_name: Option<Seq<char>>,
    sheet_idx: Option<usize>,
) -> bool {
    match picked_sheet(before.entries(), sheet_name, sheet_idx) {
        Err(_) => after == before,
        Ok(_) => {
            let strings = workbook_strings(before.archive(), before.fast()) is Ok;
            let formats = workbook_formats(before.archive()) is Ok;
            &&& after.loaded_strings() is Some <==> strings
            &&& after.loaded_styles() is Some <==> strings && formats
        },
    }
}

/// Whether a reader stands after the prelude of the picked sheet. A sheet that is
/// missing or cannot be unpacked is empty.
pub open spec fn opened(
    archive: Seq<u8>,
    sheets: crate::metadata::Entries,
    fast: bool,
    sheet_name: Option<Seq<char>>,
    sheet_idx: Option<usize>,
    reader: XlsxStreamReader,
) -> bool {
    &&& picked_sheet(sheets, sheet_name, sheet_idx) matches Ok(path)
    &&& workbook_strings(archive, fast) == Ok::<Seq<Seq<char>>, Failure>(reader.texts())
    &&& workbook_formats(archive) matches Ok(formats)
    &&& reader.styles().cell_xfs == formats.cell_xfs
    &&& reader.styles().custom_date_numfmts == formats.custom
    &&& prelude_run(
        sheet_start(),
        reader.styles(),
        document_events(readable_bytes(archive_entry(archive, path, PIECE))),
    ) == Ok::<(SheetState, Seq<XmlItem>), Failure>((reader.state(), reader.pending()))
}

/// Whether `e` is why the picked sheet cannot be opened: the first that goes
/// wrong of picking it, loading the shared strings, loading the number formats and
/// reading its prelude.
pub open spec fn not_opened(
    archive: Seq<u8>,
    sheets: crate::metadata::Entries,
    fast: bool,
    sheet_name: Option<Seq<char>>,
    sheet_idx: Option<usize>,
    e: Failure,
) -> bool {
    match picked_sheet(sheets, sheet_name, sheet_idx) {
        Err(f) => e == f,
        Ok(path) => match workbook_strings(archive, fast) {
            Err(f) => e == f,
            Ok(_) => match workbook_formats(archive) {
                Err(f) => e == f,
                Ok(formats) => prelude_run(
                    sheet_start(),
                    StylesItem { cell_xfs: formats.cell_xfs, custom_date_numfmts: formats.custom },
                    document_events(readable_bytes(archive_entry(archive, path, PIECE))),
                ) == Err::<(SheetState, Seq<XmlItem>), Failure>(e),
            },
        },
    }
}

impl StreamReader for XlsxStreamReader {
    open spec fn ready(&self) -> bool {
        self.wf()
    }

    open spec fn range(&self) -> ((int, int), (int, int)) {
        self.state().dimensions
    }

    open spec fn upcoming(&self) -> Result<Option<RawCellItem>, Failure> {
        next_cell_run(self.state(), self.styles(), self.pending()).0
    }

    fn dimensions(&self) -> (dimensions: Dimensions)
        ensures
            self.wf() ==> dimensions.end.0 < u32::MAX && dimensions.end.1 < u32::MAX,
    {
        self.parser.dimensions()
    }

    fn next_cell(&mut self) -> (cell: Result<Option<RawCell>, XlsxError>)
        ensures
            final(self).styles() == old(self).styles(),
            final(self).texts() == old(self).texts(),
            ({
                let (_, state, rest) = next_cell_run(
                    old(self).state(),
                    old(self).styles(),
                    old(self).pending(),
                );
                final(self).state() == state && final(self).pending() == rest
            }),
    {
        XlsxStreamReader::next_cell(self)
    }
}

/// A sheet is the same by its name and by its place: opening it either way comes to the same,
/// or fails alike; and without a name and a place it is the first.
pub proof fn law_name_and_place_agree(
    archive: Seq<u8>,
    sheets: crate::metadata::Entries,
    fast: bool,
    place: usize,
    other: Option<usize>,
    reader: XlsxStreamReader,
    e: Failure,
)
    requires
        place < sheets.len(),
        forall|j: int| 0 <= j < sheets.len() && j != place ==> (#[trigger] sheets[j]).0
            != sheets[place as int].0,
    ensures
        ({
            let name = Some(sheets[place as int].0);
            &&& opened(archive, sheets, fast, name, other, reader) <==> opened(
                archive,
                sheets,
                fast,
                None,
                Some(place),
                reader,
            )
            &&& not_opened(archive, sheets, fast, name, other, e) <==> not_opened(
                archive,
                sheets,
                fast,
                None,
                Some(place),
                e,
            )
            &&& opened(archive, sheets, fast, None, None, reader) <==> opened(
                archive,
                sheets,
                fast,
                None,
                Some(0),
                reader,
            )
        }),
{
    crate::part_lists::law_last_named(sheets, sheets[place as int].0);
}

} // verus!
