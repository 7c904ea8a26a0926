//! The parser of a worksheet: a state machine over the events of its XML.

use crate::arrow::SharedStrings;
use crate::error::{error, error_with, failure, ErrorKind, Failure, XlsxError};
use crate::excel_types::{Cell, Data, Dimensions, ExcelDateTime};
use crate::float::Float;
use crate::text::{
    bytes_of, lossy_text, parse_u32, parse_usize, same_bytes, signed_value, unsigned_value,
};
use crate::utils::{
    a1_position, attribute_value, cell_position, corners, date_numfmt, dimension_of, get_attribute,
    is_date_numfmt, needs_float, parse_a1, parse_cell_pos, parse_dimension, parse_raw_value,
    raw_value, text_after, text_step, type_text, wants_float, TextPlace,
};
use crate::xml::{is_last, Attribute, AttributeItem, Tag, XmlEvent, XmlItem};
use std::collections::HashSet;
use std::sync::Arc;
use vstd::prelude::*;
use vstd::utf8::*;

verus! {

/// The type that a cell's `t` attribute gives it. Any other value of the
/// attribute gives it none.
#[derive(Debug, Clone, Copy, PartialEq, Eq, Structural)]
pub enum CellType {
    /// `s`: an index of the shared strings.
    Shared,
    /// `b`: a boolean.
    Bool,
    /// `e`: an error.
    Error,
    /// `str`: the text of a formula.
    Str,
    /// `d`: a date in ISO 8601.
    Date,
}

/// The value of the `t` attribute that stands for a type.
pub open spec fn cell_type_name(kind: CellType) -> Seq<char> {
    match kind {
        CellType::Shared => "s"@,
        CellType::Bool => "b"@,
        CellType::Error => "e"@,
        CellType::Str => "str"@,
        CellType::Date => "d"@,
    }
}

/// The value of the `t` attribute that stands for an optional type.
pub open spec fn kind_text(kind: Option<CellType>) -> Option<Seq<char>> {
    match kind {
        Some(k) => Some(cell_type_name(k)),
        None => None,
    }
}

/// The type that a value of the `t` attribute stands for.
pub open spec fn type_of(value: Seq<u8>) -> Option<CellType> {
    if value == bytes_of("s") {
        Some(CellType::Shared)
    } else if value == bytes_of("b") {
        Some(CellType::Bool)
    } else if value == bytes_of("e") {
        Some(CellType::Error)
    } else if value == bytes_of("str") {
        Some(CellType::Str)
    } else if value == bytes_of("d") {
        Some(CellType::Date)
    } else {
        None
    }
}

impl CellType {
    /// The value of the `t` attribute.
    pub fn as_str(&self) -> (name: &'static str)
        ensures
            name@ == cell_type_name(*self),
    {
        match self {
            CellType::Shared => "s",
            CellType::Bool => "b",
            CellType::Error => "e",
            CellType::Str => "str",
            CellType::Date => "d",
        }
    }

    /// The type that a value of the `t` attribute stands for.
    pub fn from_bytes(value: &[u8]) -> (kind: Option<CellType>)
        ensures
            kind == type_of(value@),
    {
        if same_bytes(value, "s".as_bytes()) {
            Some(CellType::Shared)
        } else if same_bytes(value, "b".as_bytes()) {
            Some(CellType::Bool)
        } else if same_bytes(value, "e".as_bytes()) {
            Some(CellType::Error)
        } else if same_bytes(value, "str".as_bytes()) {
            Some(CellType::Str)
        } else if same_bytes(value, "d".as_bytes()) {
            Some(CellType::Date)
        } else {
            None
        }
    }
}

/// What a cell holds: nothing, the text of its last `v` element or the text of
/// its last `is` element, whichever came later.
#[derive(Debug, Clone, PartialEq)]
pub enum CellContent {
    Empty,
    Raw(String),
    Inline(String),
}

/// What a cell holds, as contracts speak of it.
pub enum ContentItem {
    Empty,
    Raw(Seq<char>),
    Inline(Seq<char>),
}

impl View for CellContent {
    type V = ContentItem;

    open spec fn view(&self) -> ContentItem {
        match self {
            CellContent::Empty => ContentItem::Empty,
            CellContent::Raw(text) => ContentItem::Raw(text@),
            CellContent::Inline(text) => ContentItem::Inline(text@),
        }
    }
}

/// A cell as the sheet has it, before its value is worked out.
#[derive(Debug, Clone, PartialEq)]
pub struct RawCell {
    pub row: u32,
    pub col: u32,
    pub kind: Option<CellType>,
    /// Whether the cell's column shows dates.
    pub is_date: bool,
    pub content: CellContent,
}

/// A raw cell as contracts speak of it.
pub struct RawCellItem {
    pub row: int,
    pub col: int,
    pub kind: Option<CellType>,
    pub is_date: bool,
    pub content: ContentItem,
}

impl View for RawCell {
    type V = RawCellItem;

    open spec fn view(&self) -> RawCellItem {
        RawCellItem {
            row: self.row as int,
            col: self.col as int,
            kind: self.kind,
            is_date: self.is_date,
            content: self.content@,
        }
    }
}

/// The number formats of a workbook: the format of each cell style, and the
/// custom formats that show dates.
#[derive(Debug)]
pub struct Styles {
    pub cell_xfs: Arc<Vec<u32>>,
    pub custom_date_numfmts: Arc<HashSet<u32>>,
}

/// The number formats of a workbook, as contracts speak of them.
pub struct StylesItem {
    pub cell_xfs: Seq<u32>,
    pub custom_date_numfmts: Set<u32>,
}

impl View for Styles {
    type V = StylesItem;

    open spec fn view(&self) -> StylesItem {
        StylesItem {
            cell_xfs: self.cell_xfs@,
            custom_date_numfmts: self.custom_date_numfmts@,
        }
    }
}

/// Whether a cell style shows dates. A style that the workbook lacks does not.
pub open spec fn style_shows_date(styles: StylesItem, style: Option<int>) -> bool {
    match style {
        Some(s) => 0 <= s < styles.cell_xfs.len() && date_numfmt(
            styles.cell_xfs[s],
            styles.custom_date_numfmts,
        ),
        None => false,
    }
}

/// The attributes of a cell that the parser reads.
pub struct CellAttributes {
    pub position: Option<(int, int)>,
    pub kind: Option<CellType>,
    pub style: Option<int>,
}

/// The attributes of a cell, each from the last attribute of its key.
pub open spec fn cell_attributes(attributes: Seq<AttributeItem>, so_far: CellAttributes) -> Result<
    CellAttributes,
    Failure,
>
    decreases attributes.len(),
{
    if attributes.len() == 0 {
        Ok(so_far)
    } else {
        match attributes[0] {
            AttributeItem::Bad(message) => Err(failure(ErrorKind::Attribute, message)),
            AttributeItem::Pair { key, local: _, value } => cell_attributes(
                attributes.skip(1),
                if key == bytes_of("r") {
                    CellAttributes { position: Some(a1_position(value)), ..so_far }
                } else if key == bytes_of("t") {
                    CellAttributes { kind: type_of(value), ..so_far }
                } else if key == bytes_of("s") {
                    CellAttributes { style: unsigned_value(value, usize::MAX as int), ..so_far }
                } else {
                    so_far
                },
            ),
        }
    }
}

/// No attribute read yet.
pub open spec fn no_attributes() -> CellAttributes {
    CellAttributes { position: None, kind: None, style: None }
}

/// Where in the sheet the parser is.
pub enum PlaceItem {
    /// Before the sheet's data.
    Prelude,
    /// Outside the sheet's data, after the prelude.
    Outside,
    /// Between the cells.
    Sheet,
    /// In a cell.
    InCell(RawCellItem),
    /// In a `v` element of a cell, with the text so far.
    InValue(RawCellItem, Seq<char>),
    /// In an `is` element of a cell, with the text so far.
    InInline(RawCellItem, Seq<char>),
    /// In a `t` element of an `is` element, with the texts so far of the two.
    InInlineText(RawCellItem, Seq<char>, Seq<char>),
}

/// The state of the parser, as contracts speak of it.
pub struct SheetState {
    pub dimensions: ((int, int), (int, int)),
    pub row: int,
    pub col: int,
    /// For a column whose first styled cell was seen, whether it shows dates.
    pub dates: Map<int, bool>,
    pub place: PlaceItem,
}

/// What an event led to.
pub enum OutcomeItem {
    /// More events are due.
    More,
    /// The prelude is over.
    Started,
    /// A cell is complete.
    Cell(RawCellItem),
    /// The sheet's data is over.
    End,
    Fail(Failure),
}

/// The state before the first event.
pub open spec fn sheet_start() -> SheetState {
    SheetState {
        dimensions: ((0, 0), (0, 0)),
        row: 0,
        col: 0,
        dates: Map::empty(),
        place: PlaceItem::Prelude,
    }
}

/// An event before the sheet's data.
pub open spec fn prelude_step(state: SheetState, item: XmlItem) -> (SheetState, OutcomeItem) {
    match item {
        XmlItem::Start(tag) => if tag.name == bytes_of("dimension") {
            dimension_step(state, tag.attributes)
        } else if tag.name == bytes_of("sheetData") {
            (SheetState { place: PlaceItem::Sheet, ..state }, OutcomeItem::Started)
        } else {
            (state, OutcomeItem::More)
        },
        XmlItem::Empty(tag) => if tag.name == bytes_of("dimension") {
            dimension_step(state, tag.attributes)
        } else if tag.name == bytes_of("sheetData") {
            (SheetState { place: PlaceItem::Sheet, ..state }, OutcomeItem::Started)
        } else {
            (state, OutcomeItem::More)
        },
        XmlItem::Eof => (SheetState { place: PlaceItem::Outside, ..state }, OutcomeItem::Started),
        XmlItem::Error(e) => (state, OutcomeItem::Fail(failure(ErrorKind::Xml, "XML error: "@ + e))),
        _ => (state, OutcomeItem::More),
    }
}

/// A `dimension` tag.
pub open spec fn dimension_step(state: SheetState, attributes: Seq<AttributeItem>) -> (
    SheetState,
    OutcomeItem,
) {
    match attribute_value(attributes, bytes_of("ref")) {
        Err(e) => (state, OutcomeItem::Fail(e)),
        Ok(None) => (state, OutcomeItem::More),
        Ok(Some(value)) => match dimension_of(encode_utf8(lossy_text(value))) {
            Err(e) => (state, OutcomeItem::Fail(e)),
            Ok(dimensions) => (SheetState { dimensions, ..state }, OutcomeItem::More),
        },
    }
}

/// An event outside the sheet's data.
pub open spec fn outside_step(state: SheetState, item: XmlItem) -> (SheetState, OutcomeItem) {
    match item {
        XmlItem::Start(tag) => if tag.name == bytes_of("sheetData") {
            (SheetState { place: PlaceItem::Sheet, ..state }, OutcomeItem::More)
        } else {
            (state, OutcomeItem::More)
        },
        XmlItem::Empty(tag) => if tag.name == bytes_of("sheetData") {
            (SheetState { place: PlaceItem::Sheet, ..state }, OutcomeItem::End)
        } else {
            (state, OutcomeItem::More)
        },
        XmlItem::Eof => (state, OutcomeItem::End),
        XmlItem::Error(e) => (state, OutcomeItem::Fail(failure(ErrorKind::Xml, "XML error: "@ + e))),
        _ => (state, OutcomeItem::More),
    }
}

/// The start tag of a row. A row without a number keeps the current one.
pub open spec fn row_step(state: SheetState, attributes: Seq<AttributeItem>) -> (
    SheetState,
    OutcomeItem,
) {
    match attribute_value(attributes, bytes_of("r")) {
        Err(e) => (state, OutcomeItem::Fail(e)),
        Ok(None) => (state, OutcomeItem::More),
        Ok(Some(value)) => match unsigned_value(encode_utf8(lossy_text(value)), u32::MAX as int) {
            None => (
                state,
                OutcomeItem::Fail(
                    failure(ErrorKind::RowNumber, "Invalid row number: "@ + lossy_text(value)),
                ),
            ),
            Some(n) => (
                SheetState {
                    row: if n == 0 {
                        0
                    } else {
                        n - 1
                    },
                    ..state
                },
                OutcomeItem::More,
            ),
        },
    }
}

/// The start tag of a cell. The first cell of a column that has a style decides
/// whether the column shows dates.
pub open spec fn cell_step(
    state: SheetState,
    styles: StylesItem,
    attributes: Seq<AttributeItem>,
) -> (SheetState, OutcomeItem) {
    match cell_attributes(attributes, no_attributes()) {
        Err(e) => (state, OutcomeItem::Fail(e)),
        Ok(read) => {
            let (row, col) = match read.position {
                Some(p) => p,
                None => (state.row, state.col),
            };
            let is_date = if state.dates.contains_key(col) {
                state.dates[col]
            } else {
                style_shows_date(styles, read.style)
            };
            let dates = if !state.dates.contains_key(col) && read.style is Some {
                state.dates.insert(col, is_date)
            } else {
                state.dates
            };
            let cell = RawCellItem {
                row,
                col,
                kind: read.kind,
                is_date,
                content: ContentItem::Empty,
            };
            (
                SheetState { row, col, dates, place: PlaceItem::InCell(cell), ..state },
                OutcomeItem::More,
            )
        },
    }
}

/// The tag of a cell that holds nothing.
pub open spec fn empty_cell_step(state: SheetState, attributes: Seq<AttributeItem>) -> (
    SheetState,
    OutcomeItem,
) {
    match cell_position(attributes, state.row as u32, state.col as u32) {
        Err(e) => (state, OutcomeItem::Fail(e)),
        Ok((row, col)) => (
            SheetState { row, col, ..state },
            OutcomeItem::Cell(
                RawCellItem { row, col, kind: None, is_date: false, content: ContentItem::Empty },
            ),
        ),
    }
}

/// An event between the cells.
pub open spec fn between_step(state: SheetState, styles: StylesItem, item: XmlItem) -> (
    SheetState,
    OutcomeItem,
) {
    match item {
        XmlItem::Start(tag) => if tag.name == bytes_of("row") {
            row_step(state, tag.attributes)
        } else if tag.name == bytes_of("c") {
            cell_step(state, styles, tag.attributes)
        } else {
            (state, OutcomeItem::More)
        },
        XmlItem::Empty(tag) => if tag.name == bytes_of("c") {
            empty_cell_step(state, tag.attributes)
        } else {
            (state, OutcomeItem::More)
        },
        XmlItem::End(name) => if name == bytes_of("row") {
            (
                SheetState { row: (state.row + 1) % 0x1_0000_0000, col: 0, ..state },
                OutcomeItem::More,
            )
        } else if name == bytes_of("sheetData") {
            (SheetState { place: PlaceItem::Outside, ..state }, OutcomeItem::End)
        } else {
            (state, OutcomeItem::More)
        },
        XmlItem::Eof => (
            state,
            OutcomeItem::Fail(
                failure(ErrorKind::UnexpectedEof, "Unexpected EOF in sheetData"@),
            ),
        ),
        XmlItem::Error(e) => (state, OutcomeItem::Fail(failure(ErrorKind::Xml, "XML error: "@ + e))),
        _ => (state, OutcomeItem::More),
    }
}

/// An event in a cell.
pub open spec fn in_cell_step(state: SheetState, cell: RawCellItem, item: XmlItem) -> (
    SheetState,
    OutcomeItem,
) {
    match item {
        XmlItem::Start(tag) => if tag.name == bytes_of("v") {
            (
                SheetState { place: PlaceItem::InValue(cell, Seq::empty()), ..state },
                OutcomeItem::More,
            )
        } else if tag.name == bytes_of("is") {
            (
                SheetState { place: PlaceItem::InInline(cell, Seq::empty()), ..state },
                OutcomeItem::More,
            )
        } else {
            (state, OutcomeItem::More)
        },
        XmlItem::End(name) => if name == bytes_of("c") {
            (SheetState { place: PlaceItem::Sheet, ..state }, OutcomeItem::Cell(cell))
        } else {
            (state, OutcomeItem::More)
        },
        XmlItem::Eof => failed(
            state,
            failure(ErrorKind::UnexpectedEof, "Unexpected EOF in <c>"@),
        ),
        XmlItem::Error(e) => failed(state, failure(ErrorKind::Xml, "XML error in <c>: "@ + e)),
        _ => (state, OutcomeItem::More),
    }
}

/// A failure inside a cell: the parser is between the cells again.
pub open spec fn failed(state: SheetState, e: Failure) -> (SheetState, OutcomeItem) {
    (SheetState { place: PlaceItem::Sheet, ..state }, OutcomeItem::Fail(e))
}

/// An event in a `v` element.
pub open spec fn in_value_step(
    state: SheetState,
    cell: RawCellItem,
    text: Seq<char>,
    item: XmlItem,
) -> (SheetState, OutcomeItem) {
    match text_after(text, item, bytes_of("v"), TextPlace::Cell) {
        Err(e) => failed(state, e),
        Ok((t, true)) => (
            SheetState {
                place: PlaceItem::InCell(RawCellItem { content: ContentItem::Raw(t), ..cell }),
                ..state
            },
            OutcomeItem::More,
        ),
        Ok((t, false)) => (
            SheetState { place: PlaceItem::InValue(cell, t), ..state },
            OutcomeItem::More,
        ),
    }
}

/// An event in an `is` element.
pub open spec fn in_inline_step(
    state: SheetState,
    cell: RawCellItem,
    text: Seq<char>,
    item: XmlItem,
) -> (SheetState, OutcomeItem) {
    match item {
        XmlItem::Start(tag) => if tag.name == bytes_of("t") {
            (
                SheetState { place: PlaceItem::InInlineText(cell, text, Seq::empty()), ..state },
                OutcomeItem::More,
            )
        } else {
            (state, OutcomeItem::More)
        },
        XmlItem::End(name) => if name == bytes_of("is") {
            (
                SheetState {
                    place: PlaceItem::InCell(
                        RawCellItem { content: ContentItem::Inline(text), ..cell },
                    ),
                    ..state
                },
                OutcomeItem::More,
            )
        } else {
            (state, OutcomeItem::More)
        },
        XmlItem::Eof => failed(
            state,
            failure(ErrorKind::UnexpectedEof, "Unexpected EOF in <is>"@),
        ),
        XmlItem::Error(e) => failed(state, failure(ErrorKind::Xml, "XML error in <is>: "@ + e)),
        _ => (state, OutcomeItem::More),
    }
}

/// An event in a `t` element of an `is` element.
pub open spec fn in_inline_text_step(
    state: SheetState,
    cell: RawCellItem,
    text: Seq<char>,
    inner: Seq<char>,
    item: XmlItem,
) -> (SheetState, OutcomeItem) {
    match text_after(inner, item, bytes_of("t"), TextPlace::Cell) {
        Err(e) => failed(state, e),
        Ok((t, true)) => (
            SheetState { place: PlaceItem::InInline(cell, text + t), ..state },
            OutcomeItem::More,
        ),
        Ok((t, false)) => (
            SheetState { place: PlaceItem::InInlineText(cell, text, t), ..state },
            OutcomeItem::More,
        ),
    }
}

/// What one event does to the parser.
pub open spec fn sheet_step(state: SheetState, styles: StylesItem, item: XmlItem) -> (
    SheetState,
    OutcomeItem,
) {
    match state.place {
        PlaceItem::Prelude => prelude_step(state, item),
        PlaceItem::Outside => outside_step(state, item),
        PlaceItem::Sheet => between_step(state, styles, item),
        PlaceItem::InCell(cell) => in_cell_step(state, cell, item),
        PlaceItem::InValue(cell, text) => in_value_step(state, cell, text, item),
        PlaceItem::InInline(cell, text) => in_inline_step(state, cell, text, item),
        PlaceItem::InInlineText(cell, text, inner) => in_inline_text_step(
            state,
            cell,
            text,
            inner,
            item,
        ),
    }
}

/// The last event of a document never asks for more.
pub proof fn lemma_last_event_decides(state: SheetState, styles: StylesItem, item: XmlItem)
    requires
        is_last(item),
    ensures
        !(sheet_step(state, styles, item).1 is More),
{
}

/// Whether a column shows dates is settled once: no event changes it after the first
/// styled cell of the column.
pub proof fn law_date_columns_are_settled(state: SheetState, styles: StylesItem, item: XmlItem)
    ensures
        state.dates.submap_of(sheet_step(state, styles, item).0.dates),
{
}

/// Where in the sheet the parser is.
#[derive(Debug)]
enum Place {
    Prelude,
    Outside,
    Sheet,
    InCell(RawCell),
    InValue(RawCell, String),
    InInline(RawCell, String),
    InInlineText(RawCell, String, String),
}

impl Place {
    spec fn item(&self) -> PlaceItem {
        match self {
            Place::Prelude => PlaceItem::Prelude,
            Place::Outside => PlaceItem::Outside,
            Place::Sheet => PlaceItem::Sheet,
            Place::InCell(cell) => PlaceItem::InCell(cell@),
            Place::InValue(cell, text) => PlaceItem::InValue(cell@, text@),
            Place::InInline(cell, text) => PlaceItem::InInline(cell@, text@),
            Place::InInlineText(cell, text, inner) => PlaceItem::InInlineText(
                cell@,
                text@,
                inner@,
            ),
        }
    }
}

/// What an event led to.
#[derive(Debug)]
pub enum Outcome {
    /// More events are due.
    More,
    /// The prelude is over.
    Started,
    /// A cell is complete.
    Cell(RawCell),
    /// The sheet's data is over.
    End,
    Fail(XlsxError),
}

impl View for Outcome {
    type V = OutcomeItem;

    open spec fn view(&self) -> OutcomeItem {
        match self {
            Outcome::More => OutcomeItem::More,
            Outcome::Started => OutcomeItem::Started,
            Outcome::Cell(cell) => OutcomeItem::Cell(cell@),
            Outcome::End => OutcomeItem::End,
            Outcome::Fail(e) => OutcomeItem::Fail(e@),
        }
    }
}

/// The parser of a worksheet. It is handed the events of the sheet's XML one by
/// one.
#[derive(Debug)]
pub struct SheetParser {
    styles: Styles,
    dimensions: Dimensions,
    row_index: u32,
    col_index: u32,
    date_columns: Vec<Option<bool>>,
    place: Place,
}

spec fn known_dates(columns: Seq<Option<bool>>) -> Map<int, bool> {
    Map::new(
        |i: int| 0 <= i < columns.len() && columns[i] is Some,
        |i: int| columns[i]->0,
    )
}

impl View for SheetParser {
    type V = SheetState;

    closed spec fn view(&self) -> SheetState {
        SheetState {
            dimensions: corners(self.dimensions),
            row: self.row_index as int,
            col: self.col_index as int,
            dates: known_dates(self.date_columns@),
            place: self.place.item(),
        }
    }
}

struct CellTag {
    position: Option<(u32, u32)>,
    kind: Option<CellType>,
    style: Option<usize>,
}

impl CellTag {
    spec fn item(&self) -> CellAttributes {
        CellAttributes {
            position: match self.position {
                Some(p) => Some((p.0 as int, p.1 as int)),
                None => None,
            },
            kind: self.kind,
            style: match self.style {
                Some(s) => Some(s as int),
                None => None,
            },
        }
    }
}

fn read_cell_tag(tag: &Tag) -> (read: Result<CellTag, XlsxError>)
    ensures
        match read {
            Ok(r) => cell_attributes(tag@.attributes, no_attributes()) == Ok::<
                CellAttributes,
                Failure,
            >(r.item()) && (r.position matches Some(p) ==> p.1 < u32::MAX),
            Err(e) => cell_attributes(tag@.attributes, no_attributes()) == Err::<
                CellAttributes,
                Failure,
            >(e@),
        },
{
    let ghost items = tag@.attributes;
    let mut read = CellTag { position: None, kind: None, style: None };
    let mut i: usize = 0;
    assert(items.skip(0) =~= items);
    while i < tag.attributes.len()
        invariant
            i <= tag.attributes.len(),
            items == tag@.attributes,
            items.len() == tag.attributes.len(),
            cell_attributes(items, no_attributes()) == cell_attributes(
                items.skip(i as int),
                read.item(),
            ),
            read.position matches Some(p) ==> p.1 < u32::MAX,
        decreases tag.attributes.len() - i,
    {
        assert(items.skip(i as int)[0] == tag.attributes[i as int]@);
        assert(items.skip(i as int).skip(1) =~= items.skip(i + 1));
        match &tag.attributes[i] {
            Attribute::Bad(message) => {
                return Err(error(ErrorKind::Attribute, message.as_str()));
            },
            Attribute::Pair { key, local: _, value } => {
                if same_bytes(key.as_slice(), "r".as_bytes()) {
                    match parse_a1(value.as_slice()) {
                        Ok(p) => {
                            read.position = Some(p);
                        },
                        Err(e) => {
                            return Err(e);
                        },
                    }
                } else if same_bytes(key.as_slice(), "t".as_bytes()) {
                    read.kind = CellType::from_bytes(value.as_slice());
                } else if same_bytes(key.as_slice(), "s".as_bytes()) {
                    read.style = parse_usize(value.as_slice());
                }
            },
        }
        i += 1;
    }
    Ok(read)
}

impl SheetParser {
    /// Whether the column index and the used range are ones that cell references can
    /// name.
    pub closed spec fn wf(&self) -> bool {
        &&& self.col_index < u32::MAX
        &&& self.dimensions.end.0 < u32::MAX
        &&& self.dimensions.end.1 < u32::MAX
    }

    /// The number formats that the parser goes by.
    pub closed spec fn style_items(&self) -> StylesItem {
        self.styles@
    }

    pub fn new(styles: Styles) -> (parser: Self)
        ensures
            parser.wf(),
            parser@ == sheet_start(),
            parser.style_items() == styles@,
    {
        let parser = SheetParser {
            styles,
            dimensions: Dimensions { start: (0, 0), end: (0, 0) },
            row_index: 0,
            col_index: 0,
            date_columns: Vec::new(),
            place: Place::Prelude,
        };
        assert(parser@.dates =~= Map::<int, bool>::empty());
        parser
    }

    /// The used range that the sheet states, (0, 0) to (0, 0) where it states
    /// none.
    pub fn dimensions(&self) -> (dimensions: Dimensions)
        ensures
            corners(dimensions) == self@.dimensions,
            self.wf() ==> dimensions.end.0 < u32::MAX && dimensions.end.1 < u32::MAX,
    {
        self.dimensions
    }

    fn take_dimension(&mut self, tag: &Tag) -> (outcome: Outcome)
        requires
            old(self).wf(),
        ensures
            final(self).wf(),
            final(self).style_items() == old(self).style_items(),
            (final(self)@, outcome@) == dimension_step(old(self)@, tag@.attributes),
    {
        match get_attribute(tag, "ref".as_bytes()) {
            Err(e) => Outcome::Fail(e),
            Ok(None) => Outcome::More,
            Ok(Some(text)) => match parse_dimension(text.as_str().as_bytes()) {
                Err(e) => Outcome::Fail(e),
                Ok(dimensions) => {
                    self.dimensions = dimensions;
                    Outcome::More
                },
            },
        }
    }

    fn take_row(&mut self, tag: &Tag) -> (outcome: Outcome)
        requires
            old(self).wf(),
        ensures
            final(self).wf(),
            final(self).style_items() == old(self).style_items(),
            (final(self)@, outcome@) == row_step(old(self)@, tag@.attributes),
    {
        match get_attribute(tag, "r".as_bytes()) {
            Err(e) => Outcome::Fail(e),
            Ok(None) => Outcome::More,
            Ok(Some(text)) => match parse_u32(text.as_str().as_bytes()) {
                None => Outcome::Fail(
                    error_with(ErrorKind::RowNumber, "Invalid row number: ", text.as_str()),
                ),
                Some(n) => {
                    self.row_index = n.saturating_sub(1);
                    Outcome::More
                },
            },
        }
    }

    /// Whether a column shows dates; the first styled cell decides.
    fn column_shows_date(&mut self, col: u32, style: Option<usize>) -> (is_date: bool)
        requires
            col < u32::MAX,
        ensures
            final(self).styles == old(self).styles,
            final(self).dimensions == old(self).dimensions,
            final(self).row_index == old(self).row_index,
            final(self).col_index == old(self).col_index,
            final(self).place == old(self).place,
            ({
                let before = old(self)@.dates;
                let shown = match style {
                    Some(s) => style_shows_date(old(self).styles@, Some(s as int)),
                    None => false,
                };
                &&& is_date == (if before.contains_key(col as int) {
                    before[col as int]
                } else {
                    shown
                })
                &&& final(self)@.dates == (if !before.contains_key(col as int) && style is Some {
                    before.insert(col as int, is_date)
                } else {
                    before
                })
            }),
    {
        let index: usize = col as usize;
        if index >= self.date_columns.len() {
            self.date_columns.resize(index + 1, None);
            assert(known_dates(self.date_columns@) =~= known_dates(old(self).date_columns@)) by {
                assert(forall|i: int|
                    old(self).date_columns.len() <= i < self.date_columns.len()
                        ==> self.date_columns@[i] is None);
                assert(forall|i: int|
                    0 <= i < old(self).date_columns.len() ==> self.date_columns@[i]
                        == old(self).date_columns@[i]);
            }
        }
        match self.date_columns[index] {
            Some(cached) => cached,
            None => {
                let shown = match style {
                    Some(s) => s < self.styles.cell_xfs.len() && is_date_numfmt(
                        self.styles.cell_xfs[s],
                        &*self.styles.custom_date_numfmts,
                    ),
                    None => false,
                };
                if style.is_some() {
                    let ghost columns = self.date_columns@;
                    self.date_columns.set(index, Some(shown));
                    assert(known_dates(self.date_columns@) =~= known_dates(columns).insert(
                        col as int,
                        shown,
                    ));
                }
                shown
            },
        }
    }

    fn take_cell(&mut self, tag: &Tag) -> (outcome: Outcome)
        requires
            old(self).wf(),
        ensures
            final(self).wf(),
            final(self).style_items() == old(self).style_items(),
            (final(self)@, outcome@) == cell_step(
                old(self)@,
                old(self).style_items(),
                tag@.attributes,
            ),
    {
        match read_cell_tag(tag) {
            Err(e) => Outcome::Fail(e),
            Ok(read) => {
                let (row, col) = match read.position {
                    Some(p) => p,
                    None => (self.row_index, self.col_index),
                };
                self.row_index = row;
                self.col_index = col;
                let is_date = self.column_shows_date(col, read.style);
                let cell = RawCell {
                    row,
                    col,
                    kind: read.kind,
                    is_date,
                    content: CellContent::Empty,
                };
                self.place = Place::InCell(cell);
                Outcome::More
            },
        }
    }

    fn take_empty_cell(&mut self, tag: &Tag) -> (outcome: Outcome)
        requires
            old(self).wf(),
        ensures
            final(self).wf(),
            final(self).style_items() == old(self).style_items(),
            (final(self)@, outcome@) == empty_cell_step(old(self)@, tag@.attributes),
    {
        match parse_cell_pos(tag, self.row_index, self.col_index) {
            Err(e) => Outcome::Fail(e),
            Ok((row, col)) => {
                self.row_index = row;
                self.col_index = col;
                Outcome::Cell(
                    RawCell { row, col, kind: None, is_date: false, content: CellContent::Empty },
                )
            },
        }
    }

    fn take_prelude(&mut self, event: &XmlEvent) -> (outcome: Outcome)
        requires
            old(self).wf(),
        ensures
            final(self).wf(),
            final(self).style_items() == old(self).style_items(),
            (final(self)@, outcome@) == prelude_step(old(self)@, event@),
    {
        match event {
            XmlEvent::Start(tag) => {
                if same_bytes(tag.name.as_slice(), "dimension".as_bytes()) {
                    self.take_dimension(tag)
                } else if same_bytes(tag.name.as_slice(), "sheetData".as_bytes()) {
                    self.place = Place::Sheet;
                    Outcome::Started
                } else {
                    Outcome::More
                }
            },
            XmlEvent::Empty(tag) => {
                if same_bytes(tag.name.as_slice(), "dimension".as_bytes()) {
                    self.take_dimension(tag)
                } else if same_bytes(tag.name.as_slice(), "sheetData".as_bytes()) {
                    self.place = Place::Sheet;
                    Outcome::Started
                } else {
                    Outcome::More
                }
            },
            XmlEvent::Eof => {
                self.place = Place::Outside;
                Outcome::Started
            },
            XmlEvent::Error(e) => Outcome::Fail(
                error_with(ErrorKind::Xml, "XML error: ", e.as_str()),
            ),
            _ => Outcome::More,
        }
    }

    fn take_outside(&mut self, event: &XmlEvent) -> (outcome: Outcome)
        requires
            old(self).wf(),
        ensures
            final(self).wf(),
            final(self).style_items() == old(self).style_items(),
            (final(self)@, outcome@) == outside_step(old(self)@, event@),
    {
        match event {
            XmlEvent::Start(tag) => {
                if same_bytes(tag.name.as_slice(), "sheetData".as_bytes()) {
                    self.place = Place::Sheet;
                }
                Outcome::More
            },
            XmlEvent::Empty(tag) => {
                if same_bytes(tag.name.as_slice(), "sheetData".as_bytes()) {
                    self.place = Place::Sheet;
                    Outcome::End
                } else {
                    Outcome::More
                }
            },
            XmlEvent::Eof => Outcome::End,
            XmlEvent::Error(e) => Outcome::Fail(
                error_with(ErrorKind::Xml, "XML error: ", e.as_str()),
            ),
            _ => Outcome::More,
        }
    }

    fn take_between(&mut self, event: &XmlEvent) -> (outcome: Outcome)
        requires
            old(self).wf(),
        ensures
            final(self).wf(),
            final(self).style_items() == old(self).style_items(),
            (final(self)@, outcome@) == between_step(
                old(self)@,
                old(self).style_items(),
                event@,
            ),
    {
        match event {
            XmlEvent::Start(tag) => {
                if same_bytes(tag.name.as_slice(), "row".as_bytes()) {
                    self.take_row(tag)
                } else if same_bytes(tag.name.as_slice(), "c".as_bytes()) {
                    self.take_cell(tag)
                } else {
                    Outcome::More
                }
            },
            XmlEvent::Empty(tag) => {
                if same_bytes(tag.name.as_slice(), "c".as_bytes()) {
                    self.take_empty_cell(tag)
                } else {
                    Outcome::More
                }
            },
            XmlEvent::End(name) => {
                if same_bytes(name.as_slice(), "row".as_bytes()) {
                    self.row_index = self.row_index.wrapping_add(1);
                    self.col_index = 0;
                    Outcome::More
                } else if same_bytes(name.as_slice(), "sheetData".as_bytes()) {
                    self.place = Place::Outside;
                    Outcome::End
                } else {
                    Outcome::More
                }
            },
            XmlEvent::Eof => Outcome::Fail(
                error(ErrorKind::UnexpectedEof, "Unexpected EOF in sheetData"),
            ),
            XmlEvent::Error(e) => Outcome::Fail(
                error_with(ErrorKind::Xml, "XML error: ", e.as_str()),
            ),
            _ => Outcome::More,
        }
    }

    fn take_in_cell(&mut self, cell: RawCell, event: &XmlEvent) -> (outcome: Outcome)
        requires
            old(self).wf(),
            old(self).place is Sheet,
        ensures
            final(self).wf(),
            final(self).style_items() == old(self).style_items(),
            (final(self)@, outcome@) == in_cell_step(
                (SheetState { place: PlaceItem::InCell(cell@), ..old(self)@ }),
                cell@,
                event@,
            ),
    {
        match event {
            XmlEvent::Start(tag) => {
                if same_bytes(tag.name.as_slice(), "v".as_bytes()) {
                    self.place = Place::InValue(cell, String::new());
                } else if same_bytes(tag.name.as_slice(), "is".as_bytes()) {
                    self.place = Place::InInline(cell, String::new());
                } else {
                    self.place = Place::InCell(cell);
                }
                Outcome::More
            },
            XmlEvent::End(name) => {
                if same_bytes(name.as_slice(), "c".as_bytes()) {
                    Outcome::Cell(cell)
                } else {
                    self.place = Place::InCell(cell);
                    Outcome::More
                }
            },
            XmlEvent::Eof => Outcome::Fail(
                error(ErrorKind::UnexpectedEof, "Unexpected EOF in <c>"),
            ),
            XmlEvent::Error(e) => Outcome::Fail(
                error_with(ErrorKind::Xml, "XML error in <c>: ", e.as_str()),
            ),
            _ => {
                self.place = Place::InCell(cell);
                Outcome::More
            },
        }
    }

    fn take_in_inline(&mut self, cell: RawCell, text: String, event: &XmlEvent) -> (outcome:
        Outcome)
        requires
            old(self).wf(),
            old(self).place is Sheet,
        ensures
            final(self).wf(),
            final(self).style_items() == old(self).style_items(),
            (final(self)@, outcome@) == in_inline_step(
                (SheetState { place: PlaceItem::InInline(cell@, text@), ..old(self)@ }),
                cell@,
                text@,
                event@,
            ),
    {
        match event {
            XmlEvent::Start(tag) => {
                if same_bytes(tag.name.as_slice(), "t".as_bytes()) {
                    self.place = Place::InInlineText(cell, text, String::new());
                } else {
                    self.place = Place::InInline(cell, text);
                }
                Outcome::More
            },
            XmlEvent::End(name) => {
                if same_bytes(name.as_slice(), "is".as_bytes()) {
                    self.place = Place::InCell(
                        RawCell {
                            row: cell.row,
                            col: cell.col,
                            kind: cell.kind,
                            is_date: cell.is_date,
                            content: CellContent::Inline(text),
                        },
                    );
                } else {
                    self.place = Place::InInline(cell, text);
                }
                Outcome::More
            },
            XmlEvent::Eof => Outcome::Fail(
                error(ErrorKind::UnexpectedEof, "Unexpected EOF in <is>"),
            ),
            XmlEvent::Error(e) => Outcome::Fail(
                error_with(ErrorKind::Xml, "XML error in <is>: ", e.as_str()),
            ),
            _ => {
                self.place = Place::InInline(cell, text);
                Outcome::More
            },
        }
    }

    /// Takes one event.
    pub fn step(&mut self, event: &XmlEvent) -> (outcome: Outcome)
        requires
            old(self).wf(),
        ensures
            final(self).wf(),
            final(self).style_items() == old(self).style_items(),
            (final(self)@, outcome@) == sheet_step(
                old(self)@,
                old(self).style_items(),
                event@,
            ),
    {
        let mut place = Place::Sheet;
        core::mem::swap(&mut place, &mut self.place);
        match place {
            Place::Prelude => {
                self.place = Place::Prelude;
                self.take_prelude(event)
            },
            Place::Outside => {
                self.place = Place::Outside;
                self.take_outside(event)
            },
            Place::Sheet => self.take_between(event),
            Place::InCell(cell) => self.take_in_cell(cell, event),
            Place::InValue(cell, text) => {
                let mut text = text;
                match text_step(&mut text, event, "v".as_bytes(), TextPlace::Cell) {
                    Err(e) => Outcome::Fail(e),
                    Ok(ended) => {
                        if ended {
                            self.place = Place::InCell(
                                RawCell {
                                    row: cell.row,
                                    col: cell.col,
                                    kind: cell.kind,
                                    is_date: cell.is_date,
                                    content: CellContent::Raw(text),
                                },
                            );
                        } else {
                            self.place = Place::InValue(cell, text);
                        }
                        Outcome::More
                    },
                }
            },
            Place::InInline(cell, text) => self.take_in_inline(cell, text, event),
            Place::InInlineText(cell, text, inner) => {
                let mut text = text;
                let mut inner = inner;
                match text_step(&mut inner, event, "t".as_bytes(), TextPlace::Cell) {
                    Err(e) => Outcome::Fail(e),
                    Ok(ended) => {
                        if ended {
                            text.append(inner.as_str());
                            self.place = Place::InInline(cell, text);
                        } else {
                            self.place = Place::InInlineText(cell, text, inner);
                        }
                        Outcome::More
                    },
                }
            },
        }
    }
}

/// Whether `data` is the shared string that a text refers to: nothing where the
/// table has no such entry, the text itself where it is no index.
pub open spec fn shared_value(text: Seq<char>, strings: Seq<Seq<char>>, data: Data) -> bool {
    match unsigned_value(encode_utf8(text), usize::MAX as int) {
        Some(index) => if index < strings.len() {
            data matches Data::String(s) && s@ == strings[index]
        } else {
            data == Data::Empty
        },
        None => data matches Data::String(s) && s@ == text,
    }
}

/// Whether `data` is the date that a serial number stands for.
pub open spec fn date_value(serial: Float, data: Data) -> bool {
    data matches Data::DateTime(date) && date.number() == serial && !date.from_1904()
}

/// Whether `data` is the value of a cell. `number` is the cell's raw text read as
/// a floating-point number.
pub open spec fn cell_value(
    cell: RawCellItem,
    strings: Seq<Seq<char>>,
    number: Option<Float>,
    data: Data,
) -> bool {
    match cell.content {
        ContentItem::Empty => data == Data::Empty,
        ContentItem::Raw(text) => if cell.kind == Some(CellType::Shared) {
            shared_value(text, strings, data)
        } else if cell.kind is None && cell.is_date {
            match signed_value(encode_utf8(text)) {
                Some(n) => date_value(Float::OfInt(n as i64), data),
                None => match number {
                    Some(float) => date_value(float, data),
                    None => data matches Data::String(s) && s@ == text,
                },
            }
        } else {
            raw_value(text, kind_text(cell.kind), number, data)
        },
        ContentItem::Inline(text) => if cell.kind == Some(CellType::Shared) {
            shared_value(text, strings, data)
        } else {
            data matches Data::String(s) && s@ == text
        },
    }
}

fn kind_str(kind: Option<CellType>) -> (name: Option<&'static str>)
    ensures
        type_text(name) == kind_text(kind),
{
    match kind {
        Some(k) => Some(k.as_str()),
        None => None,
    }
}

/// The shared string that a text refers to.
pub fn look_up_shared(text: String, strings: &SharedStrings) -> (data: Data)
    requires
        strings.wf(),
    ensures
        shared_value(text@, strings@, data),
{
    match parse_usize(text.as_str().as_bytes()) {
        Some(index) => match strings.get(index) {
            Some(s) => Data::String(s),
            None => Data::Empty,
        },
        None => Data::String(text),
    }
}

impl RawCell {
    /// The text that has to be read as a floating-point number before the cell
    /// is resolved, if there is one.
    pub fn number_text(&self) -> (text: Option<&str>)
        ensures
            match text {
                Some(t) => self@.content == ContentItem::Raw(t@) && wants_float(
                    t@,
                    kind_text(self@.kind),
                ),
                None => !(self@.content matches ContentItem::Raw(t) && wants_float(
                    t,
                    kind_text(self@.kind),
                )),
            },
    {
        match &self.content {
            CellContent::Raw(text) => {
                if needs_float(text.as_str(), kind_str(self.kind)) {
                    Some(text.as_str())
                } else {
                    None
                }
            },
            _ => None,
        }
    }

    /// Works out the value of the cell. `number` is the text of `number_text`
    /// read as a floating-point number, `None` where it is none.
    pub fn resolve(self, strings: &SharedStrings, number: Option<Float>) -> (cell: Cell<Data>)
        requires
            strings.wf(),
        ensures
            cell.position() == (self.row, self.col),
            cell_value(self@, strings@, number, cell.value()),
    {
        let shared = match self.kind {
            Some(CellType::Shared) => true,
            _ => false,
        };
        proof {
            crate::utils::lemma_type_names();
        }
        let data = match self.content {
            CellContent::Empty => Data::Empty,
            CellContent::Raw(text) => {
                if shared {
                    look_up_shared(text, strings)
                } else {
                    let value = match parse_raw_value(text.as_str(), kind_str(self.kind), number) {
                        Ok(value) => value,
                        Err(_) => Data::Empty,
                    };
                    if self.is_date && self.kind.is_none() {
                        match value {
                            Data::Int(n) => Data::DateTime(
                                ExcelDateTime::new(Float::OfInt(n), false),
                            ),
                            Data::Float(float) => Data::DateTime(ExcelDateTime::new(float, false)),
                            other => other,
                        }
                    } else {
                        value
                    }
                }
            },
            CellContent::Inline(text) => {
                if shared {
                    look_up_shared(text, strings)
                } else {
                    Data::String(text)
                }
            },
        };
        Cell::new((self.row, self.col), data)
    }
}

} // verus!
