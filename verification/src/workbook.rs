//! A workbook: its sheets, its shared strings and its number formats.

use crate::arrow::texts_of;
pub use crate::arrow::SharedStrings;
use crate::error::{error, failure, ErrorKind, Failure, XlsxError};
use crate::metadata::{
    formats_of, no_formats, read_rels, read_styles, read_workbook_sheets, rels_of, sheets_of, Entries,
    Formats, FormatsState,
};
use crate::part_lists::law_last_named;
use crate::shared_strings::{
    contiguous, entries_scan, no_strings, parse_shared_strings_fast, parse_shared_strings_xml, strings_of,
};
use crate::sheet_parser::{Styles, StylesItem};
use crate::simple_list::{
    entry_texts, law_simple_list_is_parsed, law_simple_list_is_scanned, list_document, simple_list,
    SimpleList,
};
use crate::text::{decimal_digits, push_decimal};
use crate::utils::{last_named, OrderdSheets};
use crate::xml::{cut_short, document_events, XmlDocument, XmlItem};
use std::collections::HashSet;
use std::io::{BufReader, Cursor, Read};
use std::sync::Arc;
use vstd::prelude::*;
use vstd::utf8::*;
use zip::ZipArchive;

verus! {

broadcast use vstd::std_specs::hash::group_hash_axioms;

/// What an archive holds under a name.
#[derive(Debug)]
pub enum Entry {
    /// The bytes are no archive, with a message.
    NotAnArchive(String),
    /// There is no such entry, or none that can be opened, with a message.
    Missing(String),
    /// The entry cannot be read to its end: the bytes before the failure, and a
    /// message.
    Unreadable(Vec<u8>, String),
    Found(Vec<u8>),
}

/// What an archive holds under a name, as contracts speak of it.
pub enum EntryItem {
    NotAnArchive(Seq<char>),
    Missing(Seq<char>),
    Unreadable(Seq<u8>, Seq<char>),
    Found(Seq<u8>),
}

impl View for Entry {
    type V = EntryItem;

    open spec fn view(&self) -> EntryItem {
        match self {
            Entry::NotAnArchive(message) => EntryItem::NotAnArchive(message@),
            Entry::Missing(message) => EntryItem::Missing(message@),
            Entry::Unreadable(bytes, message) => EntryItem::Unreadable(bytes@, message@),
            Entry::Found(bytes) => EntryItem::Found(bytes@),
        }
    }
}

/// The number of bytes that the lists of a workbook are read by.
pub const LIST_BUFFER: usize = 65536;

/// The number of bytes that the shared strings and the sheets are read by.
pub const PIECE: usize = 262144;

/// What an archive, given by its bytes, holds under a name, read by so many bytes at
/// a time.
pub uninterp spec fn archive_entry(archive: Seq<u8>, name: Seq<char>, buffer: usize) -> EntryItem;

/// `ZipArchive::new` on bytes in memory, `ZipArchive::by_name` and the reading of
/// the entry to its end, at most `buffer` bytes with each call of `ZipFile::read`: the
/// unpacked bytes, or which of the three failed. An entry whose data is damaged fails
/// where the damage shows, a wrong checksum after the last byte; the bytes that the
/// calls before that gave are kept.
#[verifier::external_body]
pub(crate) fn read_entry(archive: &[u8], name: &str, buffer: usize) -> (entry: Entry)
    ensures
        entry@ == archive_entry(archive@, name@, buffer),
{
    let mut zip = match ZipArchive::new(Cursor::new(archive)) {
        Ok(zip) => zip,
        Err(e) => return Entry::NotAnArchive(e.to_string()),
    };
    let file = match zip.by_name(name) {
        Ok(file) => file,
        Err(e) => return Entry::Missing(e.to_string()),
    };
    let mut bytes = Vec::new();
    let mut reading = BufReader::with_capacity(buffer, file).bytes();
    match reading.try_for_each(|byte| byte.map(|b| bytes.push(b))) {
        Ok(()) => Entry::Found(bytes),
        Err(e) => Entry::Unreadable(bytes, e.to_string()),
    }
}

/// The events of a document whose reading fails behind its first `bytes`.
pub open spec fn broken_events(bytes: Seq<u8>, message: Seq<char>) -> Seq<XmlItem> {
    cut_short(document_events(bytes), "I/O error: "@ + message)
}

/// A document whose reading fails behind its first `bytes`.
fn broken_document(bytes: Vec<u8>, message: String) -> (document: XmlDocument)
    ensures
        document.wf(),
        document.pending() == broken_events(bytes@, message@),
{
    let mut reason = "I/O error: ".to_owned();
    reason.append(message.as_str());
    XmlDocument::cut(bytes, reason)
}

/// The relationships of a workbook. An archive that lists none has none.
pub open spec fn entry_rels(entry: EntryItem) -> Result<Entries, Failure> {
    match entry {
        EntryItem::NotAnArchive(message) => Err(failure(ErrorKind::Archive, message)),
        EntryItem::Unreadable(bytes, message) => rels_of(
            broken_events(bytes, message),
            Seq::empty(),
        ),
        EntryItem::Missing(_) => Ok(Seq::empty()),
        EntryItem::Found(bytes) => rels_of(document_events(bytes), Seq::empty()),
    }
}

/// The sheets of a workbook. A workbook has to list them.
pub open spec fn entry_sheets(entry: EntryItem, rels: Entries) -> Result<Entries, Failure> {
    match entry {
        EntryItem::NotAnArchive(message) => Err(failure(ErrorKind::Archive, message)),
        EntryItem::Unreadable(bytes, message) => sheets_of(
            broken_events(bytes, message),
            rels,
            Seq::empty(),
        ),
        EntryItem::Missing(_) => Err(failure(ErrorKind::MissingPart, "workbook.xml not found"@)),
        EntryItem::Found(bytes) => sheets_of(document_events(bytes), rels, Seq::empty()),
    }
}

/// The shared strings of a workbook. A workbook that lists none has none. In fast
/// mode their bytes are scanned, and what the scanner refuses is parsed.
pub open spec fn entry_strings(entry: EntryItem, fast: bool) -> Result<Seq<Seq<char>>, Failure> {
    match entry {
        EntryItem::NotAnArchive(message) => Err(failure(ErrorKind::Archive, message)),
        EntryItem::Unreadable(bytes, message) => if fast {
            Err(failure(ErrorKind::UnreadablePart, message))
        } else {
            strings_of(broken_events(bytes, message), no_strings())
        },
        EntryItem::Missing(_) => Ok(Seq::empty()),
        EntryItem::Found(bytes) => if fast {
            match entries_scan(bytes, 0, true, Seq::empty()) {
                Ok((entries, _)) => Ok(texts_of(entries)),
                Err(_) => strings_of(document_events(bytes), no_strings()),
            }
        } else {
            strings_of(document_events(bytes), no_strings())
        },
    }
}

/// The mode of reading has no say in the shared strings where the archive lacks them,
/// or where the scanner refuses them, as it does rich text, CDATA, entities and several
/// `t` elements in an entry: both modes then give the same texts or the same error.
pub proof fn law_refused_strings_are_parsed(entry: EntryItem)
    requires
        !(entry is Unreadable),
        entry matches EntryItem::Found(bytes) ==> entries_scan(
            bytes,
            0,
            true,
            Seq::empty(),
        ) is Err,
    ensures
        entry_strings(entry, true) == entry_strings(entry, false),
        entry is Missing ==> entry_strings(entry, true) == Ok::<Seq<Seq<char>>, Failure>(
            Seq::empty(),
        ),
{
}

/// The number formats of a workbook. A workbook that lists none has none.
pub open spec fn entry_formats(entry: EntryItem) -> Result<FormatsState, Failure> {
    match entry {
        EntryItem::NotAnArchive(message) => Err(failure(ErrorKind::Archive, message)),
        EntryItem::Unreadable(bytes, message) => formats_of(
            broken_events(bytes, message),
            no_formats(),
        ),
        EntryItem::Missing(_) => Ok(no_formats()),
        EntryItem::Found(bytes) => formats_of(document_events(bytes), no_formats()),
    }
}

/// The relationships in an entry of the archive.
pub fn rels_in(entry: Entry) -> (rels: Result<OrderdSheets, XlsxError>)
    ensures
        match rels {
            Ok(r) => entry_rels(entry@) == Ok::<Entries, Failure>(r@),
            Err(e) => entry_rels(entry@) == Err::<Entries, Failure>(e@),
        },
{
    match entry {
        Entry::NotAnArchive(message) => Err(XlsxError { kind: ErrorKind::Archive, message }),
        Entry::Unreadable(bytes, message) => read_rels(broken_document(bytes, message)),
        Entry::Missing(_) => Ok(OrderdSheets::new()),
        Entry::Found(bytes) => read_rels(XmlDocument::new(bytes)),
    }
}

/// The sheets in an entry of the archive.
pub fn sheets_in(entry: Entry, rels: &OrderdSheets) -> (sheets: Result<OrderdSheets, XlsxError>)
    ensures
        match sheets {
            Ok(s) => entry_sheets(entry@, rels@) == Ok::<Entries, Failure>(s@),
            Err(e) => entry_sheets(entry@, rels@) == Err::<Entries, Failure>(e@),
        },
{
    match entry {
        Entry::NotAnArchive(message) => Err(XlsxError { kind: ErrorKind::Archive, message }),
        Entry::Unreadable(bytes, message) => read_workbook_sheets(
            broken_document(bytes, message),
            rels,
        ),
        Entry::Missing(_) => Err(error(ErrorKind::MissingPart, "workbook.xml not found")),
        Entry::Found(bytes) => read_workbook_sheets(XmlDocument::new(bytes), rels),
    }
}

/// The shared strings in an entry of the archive. Both modes read a simple list alike,
/// as the texts of its entries.
pub fn strings_in(entry: Entry, fast: bool) -> (strings: Result<SharedStrings, XlsxError>)
    ensures
        forall|list: SimpleList|
            simple_list(list) && entry@ == EntryItem::Found(#[trigger] list_document(list)) ==> (
            strings matches Ok(s) && s@ == entry_texts(list.entries)),
        match strings {
            Ok(s) => s.wf() && contiguous(s)
                && entry_strings(entry@, fast) == Ok::<Seq<Seq<char>>, Failure>(s@),
            Err(e) => entry_strings(entry@, fast) == Err::<Seq<Seq<char>>, Failure>(e@),
        },
{
    match entry {
        Entry::NotAnArchive(message) => Err(XlsxError { kind: ErrorKind::Archive, message }),
        Entry::Unreadable(bytes, message) => {
            if fast {
                Err(XlsxError { kind: ErrorKind::UnreadablePart, message })
            } else {
                parse_shared_strings_xml(broken_document(bytes, message))
            }
        },
        Entry::Missing(_) => {
            let strings = SharedStrings::new(Vec::new(), Vec::new());
            assert(strings@ =~= Seq::<Seq<char>>::empty());
            Ok(strings)
        },
        Entry::Found(bytes) => {
            let ghost unpacked = bytes@;
            proof {
                lemma_simple_list_in(unpacked);
            }
            if fast {
                match parse_shared_strings_fast(bytes) {
                    Ok(strings) => Ok(strings),
                    Err((xml, _)) => parse_shared_strings_xml(XmlDocument::new(xml)),
                }
            } else {
                let document = XmlDocument::new(bytes);
                proof {
                    let events = document.pending();
                    assert forall|list: SimpleList|
                        simple_list(list) && unpacked == #[trigger] list_document(
                            list,
                        ) implies strings_of(events, no_strings()) == Ok::<
                        Seq<Seq<char>>,
                        Failure,
                    >(entry_texts(list.entries)) by {
                        law_simple_list_is_parsed(events, list);
                    }
                }
                parse_shared_strings_xml(document)
            }
        },
    }
}

/// A simple list is scanned, and its texts are those of its entries.
proof fn lemma_simple_list_in(bytes: Seq<u8>)
    ensures
        forall|list: SimpleList|
            simple_list(list) && bytes == #[trigger] list_document(list) ==> (entries_scan(
                bytes,
                0,
                true,
                Seq::empty(),
            ) matches Ok((entries, _)) && texts_of(entries) == entry_texts(list.entries)),
{
    assert forall|list: SimpleList|
        simple_list(list) && bytes == #[trigger] list_document(list) implies (entries_scan(
        bytes,
        0,
        true,
        Seq::empty(),
    ) matches Ok((entries, _)) && texts_of(entries) == entry_texts(list.entries)) by {
        law_simple_list_is_scanned(list);
    }
}

/// The number formats in an entry of the archive.
pub fn formats_in(entry: Entry) -> (formats: Result<Formats, XlsxError>)
    ensures
        match formats {
            Ok(f) => entry_formats(entry@) == Ok::<FormatsState, Failure>(f@),
            Err(e) => entry_formats(entry@) == Err::<FormatsState, Failure>(e@),
        },
{
    match entry {
        Entry::NotAnArchive(message) => Err(XlsxError { kind: ErrorKind::Archive, message }),
        Entry::Unreadable(bytes, message) => read_styles(broken_document(bytes, message)),
        Entry::Missing(_) => Ok(Formats::new()),
        Entry::Found(bytes) => read_styles(XmlDocument::new(bytes)),
    }
}

/// The sheets that a workbook, given by the bytes of its archive, lists.
pub open spec fn workbook_sheets(archive: Seq<u8>) -> Result<Entries, Failure> {
    match entry_rels(archive_entry(archive, "xl/_rels/workbook.xml.rels"@, LIST_BUFFER)) {
        Err(e) => Err(e),
        Ok(rels) => entry_sheets(archive_entry(archive, "xl/workbook.xml"@, LIST_BUFFER), rels),
    }
}

/// The shared strings of a workbook.
pub open spec fn workbook_strings(archive: Seq<u8>, fast: bool) -> Result<
    Seq<Seq<char>>,
    Failure,
> {
    entry_strings(archive_entry(archive, "xl/sharedStrings.xml"@, PIECE), fast)
}

/// The number formats of a workbook.
pub open spec fn workbook_formats(archive: Seq<u8>) -> Result<FormatsState, Failure> {
    entry_formats(archive_entry(archive, "xl/styles.xml"@, LIST_BUFFER))
}

/// The path of the sheet that a name or a place picks: a name before a place, and
/// the first sheet where neither is given.
pub open spec fn picked_sheet(
    sheets: Entries,
    sheet_name: Option<Seq<char>>,
    sheet_idx: Option<usize>,
) -> Result<Seq<char>, Failure> {
    match sheet_name {
        Some(name) => match last_named(sheets, name) {
            Some(i) => Ok(sheets[i].1),
            None => Err(
                failure(
                    ErrorKind::SheetNotFound,
                    "Worksheet '"@ + name + "' not found"@,
                ),
            ),
        },
        None => {
            let idx = match sheet_idx {
                Some(i) => i as int,
                None => 0,
            };
            if idx < sheets.len() {
                Ok(sheets[idx].1)
            } else {
                Err(
                    failure(
                        ErrorKind::SheetNotFound,
                        "Worksheet idx '"@ + decimal_digits(idx as nat) + "' not found"@,
                    ),
                )
            }
        },
    }
}

/// A sheet is picked by its name where one is given, else by its place, else it is the
/// first: the last sheet with the name, or the one at the place. None is picked exactly
/// where no sheet has the name, or where the place lies beyond the last sheet.
pub proof fn law_picked_sheet(
    sheets: Entries,
    sheet_name: Option<Seq<char>>,
    sheet_idx: Option<usize>,
)
    ensures
        match sheet_name {
            Some(name) => {
                &&& picked_sheet(sheets, sheet_name, sheet_idx) matches Ok(path) ==> exists|i: int|
                    0 <= i < sheets.len() && #[trigger] sheets[i] == (name, path) && forall|j: int|
                        i < j < sheets.len() ==> (#[trigger] sheets[j]).0 != name
                &&& picked_sheet(sheets, sheet_name, sheet_idx) is Err <==> forall|j: int|
                    0 <= j < sheets.len() ==> (#[trigger] sheets[j]).0 != name
            },
            None => {
                let place = match sheet_idx {
                    Some(i) => i as int,
                    None => 0,
                };
                &&& place < sheets.len() ==> picked_sheet(sheets, sheet_name, sheet_idx) == Ok::<
                    Seq<char>,
                    Failure,
                >(sheets[place].1)
                &&& place >= sheets.len() ==> picked_sheet(sheets, sheet_name, sheet_idx) is Err
            },
        },
        picked_sheet(sheets, sheet_name, sheet_idx) matches Err(e) ==> e.kind
            == ErrorKind::SheetNotFound,
{
    if let Some(name) = sheet_name {
        law_last_named(sheets, name);
        if let Some(i) = last_named(sheets, name) {
            assert(sheets[i] == (name, sheets[i].1));
        }
    }
}

/// A workbook. Opening it lists the sheets; the shared strings and the number
/// formats are loaded when they are first needed.
pub struct XlsxWorkbook {
    archive: Vec<u8>,
    strings: Option<Arc<SharedStrings>>,
    cell_xfs: Option<Arc<Vec<u32>>>,
    custom_date_numfmts: Option<Arc<HashSet<u32>>>,
    sheets: OrderdSheets,
    fast_shared_strings: bool,
}

/// The optional text of a name.
pub open spec fn name_text(name: Option<&str>) -> Option<Seq<char>> {
    match name {
        Some(n) => Some(n@),
        None => None,
    }
}

impl XlsxWorkbook {
    /// The bytes of the archive.
    pub closed spec fn archive(&self) -> Seq<u8> {
        self.archive@
    }

    /// The sheets, names and paths in order.
    pub closed spec fn entries(&self) -> Entries {
        self.sheets@
    }

    /// Whether the shared strings are read by scanning.
    pub closed spec fn fast(&self) -> bool {
        self.fast_shared_strings
    }

    /// The shared strings, where they are loaded.
    pub closed spec fn loaded_strings(&self) -> Option<Seq<Seq<char>>> {
        match self.strings {
            Some(s) => Some(s@),
            None => None,
        }
    }

    /// The number formats, where they are loaded.
    pub closed spec fn loaded_styles(&self) -> Option<StylesItem> {
        match (self.cell_xfs, self.custom_date_numfmts) {
            (Some(xfs), Some(custom)) => Some(
                StylesItem { cell_xfs: xfs@, custom_date_numfmts: custom@ },
            ),
            _ => None,
        }
    }

    /// Whether what is loaded is what the archive holds.
    pub closed spec fn wf(&self) -> bool {
        &&& workbook_sheets(self.archive@) == Ok::<Entries, Failure>(self.sheets@)
        &&& self.strings matches Some(s) ==> s.wf() && contiguous(*s) && workbook_strings(
            self.archive@,
            self.fast_shared_strings,
        ) == Ok::<Seq<Seq<char>>, Failure>(s@)
        &&& self.cell_xfs is Some <==> self.custom_date_numfmts is Some
        &&& self.loaded_styles() matches Some(styles) ==> (workbook_formats(
            self.archive@,
        ) matches Ok(f) && styles.cell_xfs == f.cell_xfs && styles.custom_date_numfmts
            == f.custom)
        &&& self.cell_xfs is Some ==> self.strings is Some
    }

    /// Opens a workbook, given by the bytes of its archive, in low-memory mode:
    /// the shared strings are parsed.
    pub fn open(archive: Vec<u8>) -> (workbook: Result<Self, XlsxError>)
        ensures
            match workbook {
                Ok(w) => w.wf() && w.archive() == archive@ && !w.fast()
                    && w.loaded_strings() is None
                    && w.loaded_styles() is None && workbook_sheets(archive@) == Ok::<
                    Entries,
                    Failure,
                >(w.entries()),
                Err(e) => workbook_sheets(archive@) == Err::<Entries, Failure>(e@),
            },
    {
        Self::open_with_mode(archive, false)
    }

    /// Opens a workbook, given by the bytes of its archive, in fast mode: the
    /// bytes of the shared strings are scanned.
    pub fn open_fast(archive: Vec<u8>) -> (workbook: Result<Self, XlsxError>)
        ensures
            match workbook {
                Ok(w) => w.wf() && w.archive() == archive@ && w.fast() && w.loaded_strings() is None
                    && w.loaded_styles() is None && workbook_sheets(archive@) == Ok::<
                    Entries,
                    Failure,
                >(w.entries()),
                Err(e) => workbook_sheets(archive@) == Err::<Entries, Failure>(e@),
            },
    {
        Self::open_with_mode(archive, true)
    }

    fn open_with_mode(archive: Vec<u8>, fast_shared_strings: bool) -> (workbook: Result<
        Self,
        XlsxError,
    >)
        ensures
            match workbook {
                Ok(w) => w.wf() && w.archive() == archive@ && w.fast() == fast_shared_strings
                    && w.loaded_strings() is None && w.loaded_styles() is None && workbook_sheets(
                    archive@,
                ) == Ok::<Entries, Failure>(w.entries()),
                Err(e) => workbook_sheets(archive@) == Err::<Entries, Failure>(e@),
            },
    {
        let listed = read_entry(archive.as_slice(), "xl/_rels/workbook.xml.rels", LIST_BUFFER);
        let rels = match rels_in(listed) {
            Ok(rels) => rels,
            Err(e) => {
                return Err(e);
            },
        };
        match sheets_in(read_entry(archive.as_slice(), "xl/workbook.xml", LIST_BUFFER), &rels) {
            Err(e) => Err(e),
            Ok(sheets) => Ok(
                XlsxWorkbook {
                    archive,
                    strings: None,
                    cell_xfs: None,
                    custom_date_numfmts: None,
                    sheets,
                    fast_shared_strings,
                },
            ),
        }
    }

    /// Loads the shared strings and the number formats, the first time it is
    /// called. Both modes load a simple list of shared strings alike.
    pub fn init(&mut self) -> (loaded: Result<(), XlsxError>)
        requires
            old(self).wf(),
        ensures
            final(self).wf(),
            final(self).archive() == old(self).archive(),
            final(self).entries() == old(self).entries(),
            final(self).fast() == old(self).fast(),
            old(self).loaded_strings() is Some ==> loaded is Ok && *final(self) == *old(self),
            old(self).loaded_strings() is None ==> forall|list: SimpleList|
                simple_list(list) && archive_entry(
                    old(self).archive(),
                    "xl/sharedStrings.xml"@,
                    PIECE,
                ) == EntryItem::Found(#[trigger] list_document(list)) ==> final(self).loaded_strings()
                    == Some(entry_texts(list.entries)),
            old(self).loaded_strings() is None ==> match loaded {
                Ok(_) => workbook_strings(old(self).archive(), old(self).fast()) is Ok
                    && workbook_formats(old(self).archive()) is Ok && final(self).loaded_strings()
                    is Some && final(self).loaded_styles() is Some,
                Err(e) => match workbook_strings(old(self).archive(), old(self).fast()) {
                    Err(f) => e@ == f && *final(self) == *old(self),
                    Ok(_) => workbook_formats(old(self).archive()) == Err::<
                        FormatsState,
                        Failure,
                    >(e@) && final(self).loaded_strings() is Some,
                },
            },
    {
        if self.strings.is_some() {
            return Ok(());
        }
        let entry = read_entry(self.archive.as_slice(), "xl/sharedStrings.xml", PIECE);
        match strings_in(entry, self.fast_shared_strings) {
            Err(e) => {
                return Err(e);
            },
            Ok(strings) => {
                self.strings = Some(Arc::new(strings));
            },
        }
        match formats_in(read_entry(self.archive.as_slice(), "xl/styles.xml", LIST_BUFFER)) {
            Err(e) => Err(e),
            Ok(formats) => {
                self.cell_xfs = Some(Arc::new(formats.cell_xfs));
                self.custom_date_numfmts = Some(Arc::new(formats.custom_date_numfmts));
                Ok(())
            },
        }
    }

    /// Loads what is not loaded yet of the shared strings and the number formats, the
    /// shared strings first.
    pub fn load(&mut self) -> (loaded: Result<(), XlsxError>)
        requires
            old(self).wf(),
        ensures
            final(self).wf(),
            final(self).archive() == old(self).archive(),
            final(self).entries() == old(self).entries(),
            final(self).fast() == old(self).fast(),
            final(self).loaded_strings() is Some <==> workbook_strings(
                old(self).archive(),
                old(self).fast(),
            ) is Ok,
            final(self).loaded_styles() is Some <==> workbook_strings(
                old(self).archive(),
                old(self).fast(),
            ) is Ok && workbook_formats(old(self).archive()) is Ok,
            match loaded {
                Ok(_) => final(self).loaded_styles() is Some,
                Err(e) => match workbook_strings(old(self).archive(), old(self).fast()) {
                    Err(f) => e@ == f,
                    Ok(_) => workbook_formats(old(self).archive()) == Err::<
                        FormatsState,
                        Failure,
                    >(e@),
                },
            },
    {
        match self.init() {
            Err(e) => {
                return Err(e);
            },
            Ok(_) => {},
        }
        if self.cell_xfs.is_some() {
            return Ok(());
        }
        match formats_in(read_entry(self.archive.as_slice(), "xl/styles.xml", LIST_BUFFER)) {
            Err(e) => Err(e),
            Ok(formats) => {
                self.cell_xfs = Some(Arc::new(formats.cell_xfs));
                self.custom_date_numfmts = Some(Arc::new(formats.custom_date_numfmts));
                Ok(())
            },
        }
    }

    /// The shared strings, where they are loaded.
    pub fn strings(&self) -> (strings: Option<&Arc<SharedStrings>>)
        ensures
            self.wf() ==> (strings matches Some(s) ==> s.wf() && contiguous(**s)),
            match strings {
                Some(s) => self.loaded_strings() == Some(s@),
                None => self.loaded_strings() is None,
            },
    {
        self.strings.as_ref()
    }

    /// The number format of each cell style, where they are loaded.
    pub fn cell_xfs(&self) -> (xfs: Option<&Arc<Vec<u32>>>)
        requires
            self.wf(),
        ensures
            match xfs {
                Some(x) => self.loaded_styles() matches Some(styles) && styles.cell_xfs == x@,
                None => self.loaded_styles() is None,
            },
    {
        self.cell_xfs.as_ref()
    }

    /// The custom number formats that show dates, where they are loaded.
    pub fn custom_date_numfmts(&self) -> (custom: Option<&Arc<HashSet<u32>>>)
        requires
            self.wf(),
        ensures
            match custom {
                Some(c) => self.loaded_styles() matches Some(styles) && styles.custom_date_numfmts
                    == c@,
                None => self.loaded_styles() is None,
            },
    {
        self.custom_date_numfmts.as_ref()
    }

    /// The number formats. Where they are not loaded, no format shows dates.
    pub fn styles(&self) -> (styles: Styles)
        requires
            self.wf(),
        ensures
            styles@ == (match self.loaded_styles() {
                Some(s) => s,
                None => StylesItem { cell_xfs: Seq::empty(), custom_date_numfmts: Set::empty() },
            }),
    {
        match (&self.cell_xfs, &self.custom_date_numfmts) {
            (Some(xfs), Some(custom)) => Styles {
                cell_xfs: xfs.clone(),
                custom_date_numfmts: custom.clone(),
            },
            _ => {
                let styles = Styles {
                    cell_xfs: Arc::new(Vec::new()),
                    custom_date_numfmts: Arc::new(HashSet::new()),
                };
                assert(styles@.cell_xfs =~= Seq::<u32>::empty());
                assert(styles@.custom_date_numfmts =~= Set::<u32>::empty());
                styles
            },
        }
    }

    /// What is loaded is what the archive holds.
    pub proof fn lemma_loaded(&self)
        requires
            self.wf(),
        ensures
            self.loaded_strings() matches Some(texts) ==> workbook_strings(
                self.archive(),
                self.fast(),
            ) == Ok::<Seq<Seq<char>>, Failure>(texts),
            self.loaded_styles() matches Some(styles) ==> (workbook_formats(
                self.archive(),
            ) matches Ok(f) && styles.cell_xfs == f.cell_xfs && styles.custom_date_numfmts
                == f.custom),
    {
    }

    pub fn sheet_count(&self) -> (n: usize)
        ensures
            n == self.entries().len(),
    {
        self.sheets.len()
    }

    /// The names of the sheets in order.
    pub fn sheet_names(&self) -> (names: Vec<&str>)
        ensures
            names.len() == self.entries().len(),
            forall|i: int|
                0 <= i < self.entries().len() ==> (#[trigger] names[i])@ == self.entries()[i].0,
    {
        self.sheets.names()
    }

    /// The path of the sheet with a name, the last where several have it.
    pub fn sheet_path_by_name(&self, name: &str) -> (path: Option<&str>)
        ensures
            match path {
                Some(p) => last_named(self.entries(), name@) matches Some(i) && p@
                    == self.entries()[i].1,
                None => last_named(self.entries(), name@) is None,
            },
    {
        match self.sheets.get_by_name(name) {
            Some(path) => Some(path.as_str()),
            None => None,
        }
    }

    /// The path of the sheet at a place.
    pub fn sheet_path_by_idx(&self, idx: usize) -> (path: Option<&str>)
        ensures
            match path {
                Some(p) => idx < self.entries().len() && p@ == self.entries()[idx as int].1,
                None => idx >= self.entries().len(),
            },
    {
        match self.sheets.get_by_idx(idx) {
            Some(path) => Some(path.as_str()),
            None => None,
        }
    }

    /// The path of the sheet that a name or a place picks.
    pub fn pick_sheet(&self, sheet_name: Option<&str>, sheet_idx: Option<usize>) -> (path: Result<
        &str,
        XlsxError,
    >)
        ensures
            match path {
                Ok(p) => picked_sheet(self.entries(), name_text(sheet_name), sheet_idx) == Ok::<
                    Seq<char>,
                    Failure,
                >(p@),
                Err(e) => picked_sheet(self.entries(), name_text(sheet_name), sheet_idx) == Err::<
                    Seq<char>,
                    Failure,
                >(e@),
            },
    {
        match sheet_name {
            Some(name) => match self.sheet_path_by_name(name) {
                Some(path) => Ok(path),
                None => {
                    let mut message = "Worksheet '".to_owned();
                    message.append(name);
                    message.append("' not found");
                    Err(XlsxError { kind: ErrorKind::SheetNotFound, message })
                },
            },
            None => {
                let idx: usize = match sheet_idx {
                    Some(i) => i,
                    None => 0,
                };
                match self.sheet_path_by_idx(idx) {
                    Some(path) => Ok(path),
                    None => {
                        let mut message = "Worksheet idx '".to_owned();
                        push_decimal(&mut message, idx as u64);
                        message.append("' not found");
                        Err(XlsxError { kind: ErrorKind::SheetNotFound, message })
                    },
                }
            },
        }
    }

    /// The bytes of the part under a path.
    pub fn read_part(&self, path: &str) -> (bytes: Result<Vec<u8>, XlsxError>)
        ensures
            match bytes {
                Ok(b) => part_bytes(archive_entry(self.archive(), path@, PIECE)) == Ok::<
                    Seq<u8>,
                    Failure,
                >(b@),
                Err(e) => part_bytes(archive_entry(self.archive(), path@, PIECE)) == Err::<
                    Seq<u8>,
                    Failure,
                >(e@),
            },
    {
        match read_entry(self.archive.as_slice(), path, PIECE) {
            Entry::NotAnArchive(message) => Err(XlsxError { kind: ErrorKind::Archive, message }),
            Entry::Missing(message) => Err(XlsxError { kind: ErrorKind::MissingPart, message }),
            Entry::Unreadable(_, message) => Err(
                XlsxError { kind: ErrorKind::UnreadablePart, message },
            ),
            Entry::Found(bytes) => Ok(bytes),
        }
    }

    /// The bytes of the part under a path, in whole pieces those before a failure.
    pub fn unpack_part(&self, path: &str) -> (bytes: Vec<u8>)
        ensures
            bytes@ == readable_bytes(archive_entry(self.archive(), path@, PIECE)),
    {
        match read_entry(self.archive.as_slice(), path, PIECE) {
            Entry::NotAnArchive(_) => Vec::new(),
            Entry::Missing(_) => Vec::new(),
            Entry::Unreadable(bytes, _) => {
                let mut kept = bytes;
                let whole: usize = kept.len() / PIECE * PIECE;
                kept.truncate(whole);
                kept
            },
            Entry::Found(bytes) => bytes,
        }
    }
}

/// The bytes of an entry of the archive that are handed on, piece by piece, as they
/// are read: of an entry that cannot be read to its end the pieces that are whole when
/// the reading fails.
pub open spec fn readable_bytes(entry: EntryItem) -> Seq<u8> {
    match entry {
        EntryItem::NotAnArchive(_) => Seq::empty(),
        EntryItem::Missing(_) => Seq::empty(),
        EntryItem::Unreadable(bytes, _) => bytes.take(bytes.len() / PIECE as nat * PIECE),
        EntryItem::Found(bytes) => bytes,
    }
}

/// The bytes of an entry of the archive.
pub open spec fn part_bytes(entry: EntryItem) -> Result<Seq<u8>, Failure> {
    match entry {
        EntryItem::NotAnArchive(message) => Err(failure(ErrorKind::Archive, message)),
        EntryItem::Missing(message) => Err(failure(ErrorKind::MissingPart, message)),
        EntryItem::Unreadable(_, message) => Err(failure(ErrorKind::UnreadablePart, message)),
        EntryItem::Found(bytes) => Ok(bytes),
    }
}

/// A workbook may lack its relationships, its shared strings and its number formats: it then
/// has none of them. It may not lack the list of its sheets, and nothing can be read where
/// there is no archive.
pub proof fn law_missing_parts(message: Seq<char>, rels: Entries, fast: bool)
    ensures
        entry_rels(EntryItem::Missing(message)) == Ok::<Entries, Failure>(Seq::empty()),
        entry_strings(EntryItem::Missing(message), fast) == Ok::<Seq<Seq<char>>, Failure>(
            Seq::empty(),
        ),
        entry_formats(EntryItem::Missing(message)) matches Ok(f) && f.cell_xfs.len() == 0 && (
        forall|n: u32| !#[trigger] f.custom.contains(n)),
        entry_sheets(EntryItem::Missing(message), rels) matches Err(e) && e.kind
            == ErrorKind::MissingPart,
        part_bytes(EntryItem::Missing(message)) matches Err(e) && e.kind == ErrorKind::MissingPart,
        entry_rels(EntryItem::NotAnArchive(message)) matches Err(e) && e.kind == ErrorKind::Archive,
        entry_sheets(EntryItem::NotAnArchive(message), rels) matches Err(e) && e.kind
            == ErrorKind::Archive,
        part_bytes(EntryItem::NotAnArchive(message)) matches Err(e) && e.kind == ErrorKind::Archive,
{
}

/// A part that is read to its end is handed on whole. Of one that is not, so many whole pieces
/// are handed on that less than a piece is left, in order; and it counts as unreadable where
/// it has to be whole.
pub proof fn law_readable_bytes(bytes: Seq<u8>, message: Seq<char>)
    ensures
        readable_bytes(EntryItem::Found(bytes)) == bytes,
        part_bytes(EntryItem::Found(bytes)) == Ok::<Seq<u8>, Failure>(bytes),
        ({
            let read = readable_bytes(EntryItem::Unreadable(bytes, message));
            &&& read.is_prefix_of(bytes)
            &&& read.len() % 262_144 == 0
            &&& bytes.len() - read.len() < 262_144
        }),
        part_bytes(EntryItem::Unreadable(bytes, message)) matches Err(e) && e.kind
            == ErrorKind::UnreadablePart,
{
    let n = bytes.len() as int / 262_144;
    vstd::arithmetic::div_mod::lemma_fundamental_div_mod(bytes.len() as int, 262_144);
    vstd::arithmetic::div_mod::lemma_mod_multiples_basic(n, 262_144);
}

} // verus!
