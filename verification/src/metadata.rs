//! The parts of a workbook that list its sheets and its number formats.

use crate::error::{error, error_with, failure, ErrorKind, Failure, XlsxError};
use crate::text::{ascii_lowered, bytes_of, decode_lossy, lossy_text, parse_u32, same_bytes};
use crate::text::{unsigned_value, utf8_text};
use crate::utils::{
    attribute_value, date_code, get_attribute, is_date_format_code, last_named, OrderdSheets,
};
use crate::xml::{Attribute, AttributeItem, Tag, XmlDocument, XmlEvent, XmlItem};
use std::collections::HashSet;
use vstd::prelude::*;
use vstd::utf8::*;

verus! {

broadcast use vstd::std_specs::hash::group_hash_axioms;

/// Names and paths in order.
pub type Entries = Seq<(Seq<char>, Seq<char>)>;

/// The identifier and the target of a relationship, each from the last attribute
/// of its key.
pub open spec fn relationship(attributes: Seq<AttributeItem>, id: Seq<char>, target: Seq<char>) -> Result<
    (Seq<char>, Seq<char>),
    Failure,
>
    decreases attributes.len(),
{
    if attributes.len() == 0 {
        Ok((id, target))
    } else {
        match attributes[0] {
            AttributeItem::Bad(message) => Err(failure(ErrorKind::Attribute, message)),
            AttributeItem::Pair { key, local: _, value } => if key == bytes_of("Id") {
                relationship(attributes.skip(1), lossy_text(value), target)
            } else if key == bytes_of("Target") {
                relationship(attributes.skip(1), id, lossy_text(value))
            } else {
                relationship(attributes.skip(1), id, target)
            },
        }
    }
}

/// The path of a part in the archive: a target that starts with a slash counts
/// from the root, any other from `xl`.
pub open spec fn part_path(target: Seq<char>) -> Seq<char> {
    if target.len() > 0 && target[0] == '/' {
        target.skip(1)
    } else {
        "xl/"@ + target
    }
}

/// What one event adds to the relationships: the relationships after it, and
/// whether the list is over. A relationship without an identifier is dropped.
pub open spec fn rels_step(rels: Entries, item: XmlItem) -> Result<(Entries, bool), Failure> {
    match item {
        XmlItem::Start(tag) => rel_tag_step(rels, tag.name, tag.attributes),
        XmlItem::Empty(tag) => rel_tag_step(rels, tag.name, tag.attributes),
        XmlItem::End(name) => Ok((rels, name == bytes_of("Relationships"))),
        XmlItem::Eof => Ok((rels, true)),
        XmlItem::Error(e) => Err(failure(ErrorKind::Xml, "XML error in rels: "@ + e)),
        _ => Ok((rels, false)),
    }
}

/// What a tag adds to the relationships.
pub open spec fn rel_tag_step(
    rels: Entries,
    name: Seq<u8>,
    attributes: Seq<AttributeItem>,
) -> Result<(Entries, bool), Failure> {
    if name == bytes_of("Relationship") {
        match relationship(attributes, Seq::empty(), Seq::empty()) {
            Err(e) => Err(e),
            Ok((id, target)) => if id.len() > 0 {
                Ok((rels.push((id, part_path(target))), false))
            } else {
                Ok((rels, false))
            },
        }
    } else {
        Ok((rels, false))
    }
}

/// The relationships that a document lists.
pub open spec fn rels_of(items: Seq<XmlItem>, rels: Entries) -> Result<Entries, Failure>
    decreases items.len(),
{
    if items.len() == 0 {
        Ok(rels)
    } else {
        match rels_step(rels, items[0]) {
            Err(e) => Err(e),
            Ok((after, true)) => Ok(after),
            Ok((after, false)) => rels_of(items.skip(1), after),
        }
    }
}

/// Reads the identifier and the target of a relationship.
fn read_relationship(tag: &Tag) -> (read: Result<(String, String), XlsxError>)
    ensures
        match read {
            Ok(r) => relationship(tag@.attributes, Seq::empty(), Seq::empty()) == Ok::<
                (Seq<char>, Seq<char>),
                Failure,
            >((r.0@, r.1@)),
            Err(e) => relationship(tag@.attributes, Seq::empty(), Seq::empty()) == Err::<
                (Seq<char>, Seq<char>),
                Failure,
            >(e@),
        },
{
    let ghost items = tag@.attributes;
    let mut id = String::new();
    let mut target = String::new();
    let mut i: usize = 0;
    assert(items.skip(0) =~= items);
    while i < tag.attributes.len()
        invariant
            i <= tag.attributes.len(),
            items == tag@.attributes,
            items.len() == tag.attributes.len(),
            relationship(items, Seq::empty(), Seq::empty()) == relationship(
                items.skip(i as int),
                id@,
                target@,
            ),
        decreases tag.attributes.len() - i,
    {
        assert(items.skip(i as int)[0] == tag.attributes[i as int]@);
        assert(items.skip(i as int).skip(1) =~= items.skip(i + 1));
        match &tag.attributes[i] {
            Attribute::Bad(message) => {
                return Err(error(ErrorKind::Attribute, message.as_str()));
            },
            Attribute::Pair { key, local: _, value } => {
                if same_bytes(key.as_slice(), "Id".as_bytes()) {
                    id = decode_lossy(value.as_slice());
                } else if same_bytes(key.as_slice(), "Target".as_bytes()) {
                    target = decode_lossy(value.as_slice());
                }
            },
        }
        i += 1;
    }
    Ok((id, target))
}

/// The path in the archive of the part that a target names.
pub fn resolve_target(target: &str) -> (path: String)
    ensures
        path@ == part_path(target@),
{
    if !target.is_empty() && target.get_char(0) == '/' {
        let len: usize = target.unicode_len();
        let rest = target.substring_char(1, len);
        assert(rest@ =~= target@.skip(1));
        rest.to_owned()
    } else {
        let mut path = "xl/".to_owned();
        path.append(target);
        path
    }
}

/// Takes one event of the list of relationships; says whether the list is over.
pub fn take_relationship(rels: &mut OrderdSheets, event: &XmlEvent) -> (over: Result<
    bool,
    XlsxError,
>)
    ensures
        match over {
            Ok(b) => rels_step(old(rels)@, event@) == Ok::<(Entries, bool), Failure>(
                (final(rels)@, b),
            ),
            Err(e) => rels_step(old(rels)@, event@) == Err::<(Entries, bool), Failure>(e@)
                && final(rels)@ == old(rels)@,
        },
{
    let tag = match event {
        XmlEvent::Start(tag) => tag,
        XmlEvent::Empty(tag) => tag,
        XmlEvent::End(name) => {
            return Ok(same_bytes(name.as_slice(), "Relationships".as_bytes()));
        },
        XmlEvent::Eof => {
            return Ok(true);
        },
        XmlEvent::Error(e) => {
            return Err(error_with(ErrorKind::Xml, "XML error in rels: ", e.as_str()));
        },
        _ => {
            return Ok(false);
        },
    };
    if same_bytes(tag.name.as_slice(), "Relationship".as_bytes()) {
        match read_relationship(tag) {
            Err(e) => {
                return Err(e);
            },
            Ok((id, target)) => {
                if !id.as_str().is_empty() {
                    rels.insert(id, resolve_target(target.as_str()));
                }
            },
        }
    }
    Ok(false)
}

/// Reads the relationships of a workbook: identifiers and paths.
pub fn read_rels(xml: XmlDocument) -> (rels: Result<OrderdSheets, XlsxError>)
    requires
        xml.wf(),
    ensures
        match rels {
            Ok(r) => rels_of(xml.pending(), Seq::empty()) == Ok::<Entries, Failure>(r@),
            Err(e) => rels_of(xml.pending(), Seq::empty()) == Err::<Entries, Failure>(e@),
        },
{
    let mut document = xml;
    let mut rels = OrderdSheets::new();
    loop
        invariant
            document.wf(),
            rels_of(xml.pending(), Seq::empty()) == rels_of(document.pending(), rels@),
        decreases document.pending().len(),
    {
        let event = document.next();
        match take_relationship(&mut rels, &event) {
            Err(e) => {
                return Err(e);
            },
            Ok(over) => {
                if over {
                    return Ok(rels);
                }
            },
        }
    }
}

/// The name and the relationship of a sheet, each from the last attribute whose
/// key without its prefix is `name` or `id`.
pub open spec fn sheet_attributes(attributes: Seq<AttributeItem>, name: Seq<char>, id: Seq<char>) -> Result<
    (Seq<char>, Seq<char>),
    Failure,
>
    decreases attributes.len(),
{
    if attributes.len() == 0 {
        Ok((name, id))
    } else {
        match attributes[0] {
            AttributeItem::Bad(message) => Err(failure(ErrorKind::Attribute, message)),
            AttributeItem::Pair { key: _, local, value } => if local == bytes_of("name") {
                if valid_utf8(value) {
                    sheet_attributes(attributes.skip(1), decode_utf8(value), id)
                } else {
                    Err(failure(ErrorKind::SheetName, "Sheet name is not UTF-8"@))
                }
            } else if local == bytes_of("id") {
                sheet_attributes(attributes.skip(1), name, lossy_text(value))
            } else {
                sheet_attributes(attributes.skip(1), name, id)
            },
        }
    }
}

/// What one event adds to the sheets: the sheets after it, and whether the list
/// is over. A sheet whose relationship is unknown is dropped.
pub open spec fn sheets_step(sheets: Entries, rels: Entries, item: XmlItem) -> Result<
    (Entries, bool),
    Failure,
> {
    match item {
        XmlItem::Start(tag) => sheet_tag_step(sheets, rels, tag.name, tag.attributes),
        XmlItem::Empty(tag) => sheet_tag_step(sheets, rels, tag.name, tag.attributes),
        XmlItem::End(name) => Ok((sheets, name == bytes_of("workbook"))),
        XmlItem::Eof => Ok((sheets, true)),
        XmlItem::Error(e) => Err(failure(ErrorKind::Xml, "XML error in workbook: "@ + e)),
        _ => Ok((sheets, false)),
    }
}

/// What a tag adds to the sheets.
pub open spec fn sheet_tag_step(
    sheets: Entries,
    rels: Entries,
    name: Seq<u8>,
    attributes: Seq<AttributeItem>,
) -> Result<(Entries, bool), Failure> {
    if name == bytes_of("sheet") {
        match sheet_attributes(attributes, Seq::empty(), Seq::empty()) {
            Err(e) => Err(e),
            Ok((sheet, id)) => match last_named(rels, id) {
                Some(i) => Ok((sheets.push((sheet, rels[i].1)), false)),
                None => Ok((sheets, false)),
            },
        }
    } else {
        Ok((sheets, false))
    }
}

/// The sheets that a document lists.
pub open spec fn sheets_of(items: Seq<XmlItem>, rels: Entries, sheets: Entries) -> Result<
    Entries,
    Failure,
>
    decreases items.len(),
{
    if items.len() == 0 {
        Ok(sheets)
    } else {
        match sheets_step(sheets, rels, items[0]) {
            Err(e) => Err(e),
            Ok((after, true)) => Ok(after),
            Ok((after, false)) => sheets_of(items.skip(1), rels, after),
        }
    }
}

fn read_sheet_tag(tag: &Tag) -> (read: Result<(String, String), XlsxError>)
    ensures
        match read {
            Ok(r) => sheet_attributes(tag@.attributes, Seq::empty(), Seq::empty()) == Ok::<
                (Seq<char>, Seq<char>),
                Failure,
            >((r.0@, r.1@)),
            Err(e) => sheet_attributes(tag@.attributes, Seq::empty(), Seq::empty()) == Err::<
                (Seq<char>, Seq<char>),
                Failure,
            >(e@),
        },
{
    let ghost items = tag@.attributes;
    let mut name = String::new();
    let mut id = String::new();
    let mut i: usize = 0;
    assert(items.skip(0) =~= items);
    while i < tag.attributes.len()
        invariant
            i <= tag.attributes.len(),
            items == tag@.attributes,
            items.len() == tag.attributes.len(),
            sheet_attributes(items, Seq::empty(), Seq::empty()) == sheet_attributes(
                items.skip(i as int),
                name@,
                id@,
            ),
        decreases tag.attributes.len() - i,
    {
        assert(items.skip(i as int)[0] == tag.attributes[i as int]@);
        assert(items.skip(i as int).skip(1) =~= items.skip(i + 1));
        match &tag.attributes[i] {
            Attribute::Bad(message) => {
                return Err(error(ErrorKind::Attribute, message.as_str()));
            },
            Attribute::Pair { key: _, local, value } => {
                if same_bytes(local.as_slice(), "name".as_bytes()) {
                    match utf8_text(value.as_slice()) {
                        Some(text) => {
                            name = text.to_owned();
                        },
                        None => {
                            return Err(error(ErrorKind::SheetName, "Sheet name is not UTF-8"));
                        },
                    }
                } else if same_bytes(local.as_slice(), "id".as_bytes()) {
                    id = decode_lossy(value.as_slice());
                }
            },
        }
        i += 1;
    }
    Ok((name, id))
}

/// Takes one event of the list of sheets; says whether the list is over.
pub fn take_sheet(sheets: &mut OrderdSheets, rels: &OrderdSheets, event: &XmlEvent) -> (over:
    Result<bool, XlsxError>)
    ensures
        match over {
            Ok(b) => sheets_step(old(sheets)@, rels@, event@) == Ok::<(Entries, bool), Failure>(
                (final(sheets)@, b),
            ),
            Err(e) => sheets_step(old(sheets)@, rels@, event@) == Err::<(Entries, bool), Failure>(
                e@,
            ) && final(sheets)@ == old(sheets)@,
        },
{
    let tag = match event {
        XmlEvent::Start(tag) => tag,
        XmlEvent::Empty(tag) => tag,
        XmlEvent::End(name) => {
            return Ok(same_bytes(name.as_slice(), "workbook".as_bytes()));
        },
        XmlEvent::Eof => {
            return Ok(true);
        },
        XmlEvent::Error(e) => {
            return Err(error_with(ErrorKind::Xml, "XML error in workbook: ", e.as_str()));
        },
        _ => {
            return Ok(false);
        },
    };
    if same_bytes(tag.name.as_slice(), "sheet".as_bytes()) {
        match read_sheet_tag(tag) {
            Err(e) => {
                return Err(e);
            },
            Ok((name, id)) => {
                match rels.get_by_name(id.as_str()) {
                    Some(path) => {
                        sheets.insert(name, path.clone());
                    },
                    None => {},
                }
            },
        }
    }
    Ok(false)
}

/// Reads the sheets of a workbook: names and paths in order.
pub fn read_workbook_sheets(xml: XmlDocument, rels: &OrderdSheets) -> (sheets: Result<
    OrderdSheets,
    XlsxError,
>)
    requires
        xml.wf(),
    ensures
        match sheets {
            Ok(s) => sheets_of(xml.pending(), rels@, Seq::empty()) == Ok::<
                Entries,
                Failure,
            >(s@),
            Err(e) => sheets_of(xml.pending(), rels@, Seq::empty()) == Err::<
                Entries,
                Failure,
            >(e@),
        },
{
    let mut document = xml;
    let mut sheets = OrderdSheets::new();
    loop
        invariant
            document.wf(),
            sheets_of(xml.pending(), rels@, Seq::empty()) == sheets_of(
                document.pending(),
                rels@,
                sheets@,
            ),
        decreases document.pending().len(),
    {
        let event = document.next();
        match take_sheet(&mut sheets, rels, &event) {
            Err(e) => {
                return Err(e);
            },
            Ok(over) => {
                if over {
                    return Ok(sheets);
                }
            },
        }
    }
}

/// The number formats read so far, as contracts speak of them.
pub struct FormatsState {
    /// The number format of each cell style.
    pub cell_xfs: Seq<u32>,
    /// The custom number formats that show dates.
    pub custom: Set<u32>,
    /// Whether the reader is in the list of cell styles.
    pub in_cell_xfs: bool,
    /// Whether the reader is in the list of custom number formats.
    pub in_num_fmts: bool,
}

/// No number format read yet.
pub open spec fn no_formats() -> FormatsState {
    FormatsState {
        cell_xfs: Seq::empty(),
        custom: Set::empty(),
        in_cell_xfs: false,
        in_num_fmts: false,
    }
}

/// A custom number format: it is kept where its number is one and its code shows
/// a date.
pub open spec fn num_fmt_step(state: FormatsState, attributes: Seq<AttributeItem>) -> Result<
    FormatsState,
    Failure,
> {
    match attribute_value(attributes, bytes_of("numFmtId")) {
        Err(e) => Err(e),
        Ok(None) => Ok(state),
        Ok(Some(id)) => match unsigned_value(encode_utf8(lossy_text(id)), u32::MAX as int) {
            None => Ok(state),
            Some(n) => match attribute_value(attributes, bytes_of("formatCode")) {
                Err(e) => Err(e),
                Ok(None) => Ok(state),
                Ok(Some(code)) => if date_code(ascii_lowered(lossy_text(code))) {
                    Ok(FormatsState { custom: state.custom.insert(n as u32), ..state })
                } else {
                    Ok(state)
                },
            },
        },
    }
}

/// The number format of a cell style, 0 where it states none.
pub open spec fn xf_format(attributes: Seq<AttributeItem>) -> Result<u32, Failure> {
    match attribute_value(attributes, bytes_of("numFmtId")) {
        Err(e) => Err(e),
        Ok(None) => Ok(0),
        Ok(Some(id)) => match unsigned_value(encode_utf8(lossy_text(id)), u32::MAX as int) {
            None => Ok(0),
            Some(n) => Ok(n as u32),
        },
    }
}

/// What a tag, a start tag or an empty one, adds to the number formats.
pub open spec fn format_tag_step(
    state: FormatsState,
    name: Seq<u8>,
    attributes: Seq<AttributeItem>,
    start: bool,
) -> Result<FormatsState, Failure> {
    if start && name == bytes_of("numFmts") {
        Ok(FormatsState { in_num_fmts: true, ..state })
    } else if state.in_num_fmts && name == bytes_of("numFmt") {
        num_fmt_step(state, attributes)
    } else if start && name == bytes_of("cellXfs") {
        Ok(FormatsState { in_cell_xfs: true, ..state })
    } else if state.in_cell_xfs && name == bytes_of("xf") {
        match xf_format(attributes) {
            Err(e) => Err(e),
            Ok(n) => Ok(FormatsState { cell_xfs: state.cell_xfs.push(n), ..state }),
        }
    } else {
        Ok(state)
    }
}

/// What one event adds to the number formats, and whether the list is over.
pub open spec fn formats_step(state: FormatsState, item: XmlItem) -> Result<
    (FormatsState, bool),
    Failure,
> {
    match item {
        XmlItem::Start(tag) => match format_tag_step(state, tag.name, tag.attributes, true) {
            Err(e) => Err(e),
            Ok(after) => Ok((after, false)),
        },
        XmlItem::Empty(tag) => match format_tag_step(state, tag.name, tag.attributes, false) {
            Err(e) => Err(e),
            Ok(after) => Ok((after, false)),
        },
        XmlItem::End(name) => if name == bytes_of("numFmts") {
            Ok((FormatsState { in_num_fmts: false, ..state }, false))
        } else if name == bytes_of("cellXfs") {
            Ok((FormatsState { in_cell_xfs: false, ..state }, false))
        } else {
            Ok((state, name == bytes_of("styleSheet")))
        },
        XmlItem::Eof => Ok((state, true)),
        XmlItem::Error(e) => Err(failure(ErrorKind::Xml, "XML error in styles: "@ + e)),
        _ => Ok((state, false)),
    }
}

/// The number formats that a document lists.
pub open spec fn formats_of(items: Seq<XmlItem>, state: FormatsState) -> Result<
    FormatsState,
    Failure,
>
    decreases items.len(),
{
    if items.len() == 0 {
        Ok(state)
    } else {
        match formats_step(state, items[0]) {
            Err(e) => Err(e),
            Ok((after, true)) => Ok(after),
            Ok((after, false)) => formats_of(items.skip(1), after),
        }
    }
}

/// The number formats read so far.
#[derive(Debug)]
pub struct Formats {
    pub cell_xfs: Vec<u32>,
    pub custom_date_numfmts: HashSet<u32>,
    pub in_cell_xfs: bool,
    pub in_num_fmts: bool,
}

impl View for Formats {
    type V = FormatsState;

    open spec fn view(&self) -> FormatsState {
        FormatsState {
            cell_xfs: self.cell_xfs@,
            custom: self.custom_date_numfmts@,
            in_cell_xfs: self.in_cell_xfs,
            in_num_fmts: self.in_num_fmts,
        }
    }
}

impl Formats {
    pub fn new() -> (formats: Self)
        ensures
            formats@ == no_formats(),
    {
        let formats = Formats {
            cell_xfs: Vec::new(),
            custom_date_numfmts: HashSet::new(),
            in_cell_xfs: false,
            in_num_fmts: false,
        };
        assert(formats@.custom =~= Set::<u32>::empty());
        assert(formats@.cell_xfs =~= Seq::<u32>::empty());
        formats
    }

    fn take_num_fmt(&mut self, tag: &Tag) -> (taken: Result<(), XlsxError>)
        ensures
            match taken {
                Ok(_) => num_fmt_step(old(self)@, tag@.attributes) == Ok::<FormatsState, Failure>(
                    final(self)@,
                ),
                Err(e) => num_fmt_step(old(self)@, tag@.attributes) == Err::<
                    FormatsState,
                    Failure,
                >(e@) && final(self)@ == old(self)@,
            },
    {
        match get_attribute(tag, "numFmtId".as_bytes()) {
            Err(e) => Err(e),
            Ok(None) => Ok(()),
            Ok(Some(id)) => match parse_u32(id.as_str().as_bytes()) {
                None => Ok(()),
                Some(n) => match get_attribute(tag, "formatCode".as_bytes()) {
                    Err(e) => Err(e),
                    Ok(None) => Ok(()),
                    Ok(Some(code)) => {
                        if is_date_format_code(code.as_str()) {
                            self.custom_date_numfmts.insert(n);
                        }
                        Ok(())
                    },
                },
            },
        }
    }

    fn take_xf(&mut self, tag: &Tag) -> (taken: Result<(), XlsxError>)
        ensures
            match taken {
                Ok(_) => xf_format(tag@.attributes) matches Ok(n) && final(self)@
                    == (FormatsState { cell_xfs: old(self)@.cell_xfs.push(n), ..old(self)@ }),
                Err(e) => xf_format(tag@.attributes) == Err::<u32, Failure>(e@) && final(self)@
                    == old(self)@,
            },
    {
        match get_attribute(tag, "numFmtId".as_bytes()) {
            Err(e) => Err(e),
            Ok(None) => {
                self.cell_xfs.push(0);
                Ok(())
            },
            Ok(Some(id)) => {
                match parse_u32(id.as_str().as_bytes()) {
                    None => {
                        self.cell_xfs.push(0);
                    },
                    Some(n) => {
                        self.cell_xfs.push(n);
                    },
                }
                Ok(())
            },
        }
    }

    fn take_tag(&mut self, tag: &Tag, start: bool) -> (taken: Result<(), XlsxError>)
        ensures
            match taken {
                Ok(_) => format_tag_step(old(self)@, tag@.name, tag@.attributes, start) == Ok::<
                    FormatsState,
                    Failure,
                >(final(self)@),
                Err(e) => format_tag_step(old(self)@, tag@.name, tag@.attributes, start) == Err::<
                    FormatsState,
                    Failure,
                >(e@) && final(self)@ == old(self)@,
            },
    {
        let name = tag.name.as_slice();
        if start && same_bytes(name, "numFmts".as_bytes()) {
            self.in_num_fmts = true;
            Ok(())
        } else if self.in_num_fmts && same_bytes(name, "numFmt".as_bytes()) {
            self.take_num_fmt(tag)
        } else if start && same_bytes(name, "cellXfs".as_bytes()) {
            self.in_cell_xfs = true;
            Ok(())
        } else if self.in_cell_xfs && same_bytes(name, "xf".as_bytes()) {
            self.take_xf(tag)
        } else {
            Ok(())
        }
    }

    /// Takes one event of the list of number formats; says whether the list is
    /// over.
    pub fn take(&mut self, event: &XmlEvent) -> (over: Result<bool, XlsxError>)
        ensures
            match over {
                Ok(b) => formats_step(old(self)@, event@) == Ok::<(FormatsState, bool), Failure>(
                    (final(self)@, b),
                ),
                Err(e) => formats_step(old(self)@, event@) == Err::<
                    (FormatsState, bool),
                    Failure,
                >(e@) && final(self)@ == old(self)@,
            },
    {
        match event {
            XmlEvent::Start(tag) => match self.take_tag(tag, true) {
                Err(e) => Err(e),
                Ok(_) => Ok(false),
            },
            XmlEvent::Empty(tag) => match self.take_tag(tag, false) {
                Err(e) => Err(e),
                Ok(_) => Ok(false),
            },
            XmlEvent::End(name) => {
                if same_bytes(name.as_slice(), "numFmts".as_bytes()) {
                    self.in_num_fmts = false;
                    Ok(false)
                } else if same_bytes(name.as_slice(), "cellXfs".as_bytes()) {
                    self.in_cell_xfs = false;
                    Ok(false)
                } else {
                    Ok(same_bytes(name.as_slice(), "styleSheet".as_bytes()))
                }
            },
            XmlEvent::Eof => Ok(true),
            XmlEvent::Error(e) => Err(
                error_with(ErrorKind::Xml, "XML error in styles: ", e.as_str()),
            ),
            _ => Ok(false),
        }
    }
}

/// Reads the number formats of a workbook.
pub fn read_styles(xml: XmlDocument) -> (formats: Result<Formats, XlsxError>)
    requires
        xml.wf(),
    ensures
        match formats {
            Ok(f) => formats_of(xml.pending(), no_formats()) == Ok::<
                FormatsState,
                Failure,
            >(f@),
            Err(e) => formats_of(xml.pending(), no_formats()) == Err::<
                FormatsState,
                Failure,
            >(e@),
        },
{
    let mut document = xml;
    let mut formats = Formats::new();
    loop
        invariant
            document.wf(),
            formats_of(xml.pending(), no_formats()) == formats_of(
                document.pending(),
                formats@,
            ),
        decreases document.pending().len(),
    {
        let event = document.next();
        match formats.take(&event) {
            Err(e) => {
                return Err(e);
            },
            Ok(over) => {
                if over {
                    return Ok(formats);
                }
            },
        }
    }
}

} // verus!
