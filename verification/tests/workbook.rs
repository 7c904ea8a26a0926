use std::collections::HashSet;
use std::io::{Cursor, Write};
use stream_xlsx::arrow::SharedStrings;
use stream_xlsx::error::ErrorKind;
use stream_xlsx::excel_types::{Data, Dimensions};
use stream_xlsx::float::Float;
use stream_xlsx::metadata::{read_rels, read_styles, read_workbook_sheets, resolve_target};
use stream_xlsx::sheet_parser::{CellContent, CellType, RawCell};
use stream_xlsx::shared_strings::{
    parse_shared_strings_fast, parse_shared_strings_xml, process_complete_sis_concurrent,
    PieceScanner, TextTable,
};
use stream_xlsx::stream_reader::StreamReader;
use stream_xlsx::utils::{get_attribute, parse_cell_pos, read_inline_str, read_text_content};
use stream_xlsx::workbook::XlsxWorkbook;
use stream_xlsx::xlsx_stream_lm::XlsxStreamReader;
use stream_xlsx::xml::{Attribute, Tag, XmlDocument, XmlEvent};
use zip::write::SimpleFileOptions;
use zip::ZipWriter;

fn archive(parts: &[(&str, &str)]) -> Vec<u8> {
    let mut zip = ZipWriter::new(Cursor::new(Vec::new()));
    for (name, content) in parts {
        zip.start_file(*name, SimpleFileOptions::default()).unwrap();
        zip.write_all(content.as_bytes()).unwrap();
    }
    zip.finish().unwrap().into_inner()
}

const RELS: &str = r#"<?xml version="1.0"?><Relationships>
<Relationship Id="rId1" Target="worksheets/sheet1.xml"/>
<Relationship Id="rId2" Target="/xl/worksheets/sheet2.xml"></Relationship>
<Relationship Target="nowhere.xml"/>
</Relationships>"#;

const BOOK: &str = r#"<x:workbook xmlns:x="m" xmlns:r="n"><x:sheets>
<x:sheet name="One" sheetId="1" r:id="rId1"/>
<x:sheet name="Gone" sheetId="2" r:id="rId9"/>
<x:sheet name="Zw&#246;i" sheetId="3" r:id="rId2"/>
</x:sheets></x:workbook>"#;

const STYLES: &str = r#"<styleSheet><numFmts><numFmt numFmtId="164" formatCode="YYYY-MM-DD"/>
<numFmt numFmtId="165" formatCode="0.00"/><numFmt numFmtId="x" formatCode="yyyy"/></numFmts>
<cellStyleXfs><xf numFmtId="14"/></cellStyleXfs>
<cellXfs><xf numFmtId="0"/><xf numFmtId="164"><alignment/></xf><xf/><xf numFmtId="14"/></cellXfs>
</styleSheet>"#;

const STRINGS: &str = r#"<sst><si><t>alpha</t></si><si><t xml:space="preserve"> beta </t></si></sst>"#;

const SHEET: &str = r#"<worksheet><dimension ref="A1:C4"/><sheetData>
<row r="1"><c r="A1" t="s"><v>0</v></c><c r="B1" t="s"><v>1</v></c><c r="C1" t="s"><v>9</v></c></row>
<row r="2"><c r="A2" s="1"><v>45352</v></c><c r="B2" t="inlineStr"><is><t>in</t><t>line</t></is></c><c r="C2"/></row>
<row r="4"><c r="A4"><v>7</v></c><c r="B4" t="b"><v>1</v></c><c r="C4" t="e"><v>#N/A</v></c></row>
</sheetData></worksheet>"#;

fn book() -> Vec<u8> {
    archive(&[
        ("xl/_rels/workbook.xml.rels", RELS),
        ("xl/workbook.xml", BOOK),
        ("xl/styles.xml", STYLES),
        ("xl/sharedStrings.xml", STRINGS),
        ("xl/worksheets/sheet1.xml", SHEET),
        ("xl/worksheets/sheet2.xml", "<worksheet><sheetData></sheetData></worksheet>"),
    ])
}

#[test]
fn workbook_open_test() {
    let wb = XlsxWorkbook::open(book()).unwrap();
    assert_eq!(wb.sheet_names(), vec!["One", "Zw&#246;i"]);
    assert_eq!(wb.sheet_count(), 2);
    assert_eq!(wb.sheet_path_by_name("One"), Some("xl/worksheets/sheet1.xml"));
    assert_eq!(wb.sheet_path_by_name("Gone"), None);
    assert_eq!(wb.sheet_path_by_idx(1), Some("xl/worksheets/sheet2.xml"));
    assert_eq!(wb.sheet_path_by_idx(2), None);
    assert!(wb.strings().is_none());
    assert!(wb.cell_xfs().is_none());
}

#[test]
fn prepare_test() {
    let rels = read_rels(XmlDocument::new(RELS.as_bytes().to_vec())).unwrap();
    assert_eq!(rels.len(), 2);
    assert_eq!(rels.get_by_name("rId1").unwrap(), "xl/worksheets/sheet1.xml");
    assert_eq!(rels.get_by_name("rId2").unwrap(), "xl/worksheets/sheet2.xml");
    let sheets = read_workbook_sheets(XmlDocument::new(BOOK.as_bytes().to_vec()), &rels).unwrap();
    assert_eq!(sheets.get_by_name("One").unwrap(), "xl/worksheets/sheet1.xml");
    assert_eq!(resolve_target("/a/b"), "a/b");
    assert_eq!(resolve_target(""), "xl/");
}

#[test]
fn profile_workbook_init() {
    let mut wb = XlsxWorkbook::open(book()).unwrap();
    wb.init().unwrap();
    assert_eq!(wb.strings().unwrap().len(), 2);
    assert_eq!(wb.strings().unwrap().get(0).unwrap(), "alpha");
    assert_eq!(wb.strings().unwrap().get(1).unwrap(), " beta ");
    assert_eq!(wb.strings().unwrap().get(2), None);
    assert_eq!(**wb.cell_xfs().unwrap(), vec![0, 164, 0, 14]);
    let custom: HashSet<u32> = [164].into_iter().collect();
    assert_eq!(**wb.custom_date_numfmts().unwrap(), custom);
    wb.init().unwrap();
    let mut fast = XlsxWorkbook::open_fast(book()).unwrap();
    fast.init().unwrap();
    assert_eq!(fast.strings().unwrap().get(1).unwrap(), " beta ");
}

#[test]
fn missing_parts_are_empty_or_errors() {
    let error = XlsxWorkbook::open(b"not a zip".to_vec()).err().unwrap();
    assert_eq!(error.kind, ErrorKind::Archive);
    let error = XlsxWorkbook::open(archive(&[("a", "b")])).err().unwrap();
    assert_eq!(error.kind, ErrorKind::MissingPart);
    assert_eq!(error.message, "workbook.xml not found");
    let mut wb = XlsxWorkbook::open(archive(&[("xl/workbook.xml", BOOK)])).unwrap();
    assert_eq!(wb.sheet_count(), 0);
    wb.init().unwrap();
    assert_eq!(wb.strings().unwrap().len(), 0);
    assert!(wb.cell_xfs().unwrap().is_empty());
    assert_eq!(
        wb.pick_sheet(None, None).err().unwrap().message,
        "Worksheet idx '0' not found"
    );
    assert_eq!(
        wb.pick_sheet(Some("x"), Some(0)).err().unwrap().message,
        "Worksheet 'x' not found"
    );
    assert_eq!(wb.pick_sheet(None, Some(12)).err().unwrap().kind, ErrorKind::SheetNotFound);
    assert_eq!(wb.read_part("nothing").err().unwrap().kind, ErrorKind::MissingPart);
    assert_eq!(wb.read_part("xl/workbook.xml").unwrap(), BOOK.as_bytes());
    let torn = archive(&[
        ("xl/_rels/workbook.xml.rels", "<Relationships><Relationship Id="),
        ("xl/workbook.xml", BOOK),
    ]);
    let error = XlsxWorkbook::open(torn).err().unwrap();
    assert_eq!(error.kind, ErrorKind::Xml);
    assert!(error.message.starts_with("XML error in rels: "));
}

/// An archive with one byte of a stored part changed, so that the part fails its
/// checksum after its last byte.
fn damaged(parts: &[(&str, &str)], from: &str, to: u8) -> Vec<u8> {
    let mut zip = ZipWriter::new(Cursor::new(Vec::new()));
    let stored = SimpleFileOptions::default().compression_method(zip::CompressionMethod::Stored);
    for (name, content) in parts {
        zip.start_file(*name, stored).unwrap();
        zip.write_all(content.as_bytes()).unwrap();
    }
    let mut bytes = zip.finish().unwrap().into_inner();
    let at = bytes.windows(from.len()).position(|w| w == from.as_bytes()).unwrap();
    bytes[at] = to;
    bytes
}

#[test]
fn a_damaged_part_counts_up_to_its_closing_tag() {
    let rels = ("xl/_rels/workbook.xml.rels", RELS);
    let wb = XlsxWorkbook::open(damaged(&[rels, ("xl/workbook.xml", BOOK)], "One", b'o')).unwrap();
    assert_eq!(wb.sheet_names(), vec!["one", "Zw&#246;i"]);
    assert_eq!(wb.read_part("xl/workbook.xml").err().unwrap().kind, ErrorKind::UnreadablePart);

    let open_ended = BOOK.replace("</x:workbook>", "");
    for ending in ["", "<x:open", "</y></z"] {
        let torn = format!("{}{}", open_ended, ending);
        let error = XlsxWorkbook::open(damaged(&[rels, ("xl/workbook.xml", &torn)], "One", b'o'))
            .err()
            .unwrap();
        assert_eq!(error.kind, ErrorKind::Xml);
        let expected = if ending == "</y></z" {
            "XML error in workbook: ill-formed document: "
        } else {
            "XML error in workbook: I/O error: "
        };
        assert!(error.message.starts_with(expected), "{}", error.message);
    }

    let parts = [rels, ("xl/workbook.xml", BOOK), ("xl/sharedStrings.xml", STRINGS)];
    let bytes = damaged(&parts, "alpha", b'A');
    let mut wb = XlsxWorkbook::open(bytes.clone()).unwrap();
    wb.init().unwrap();
    assert_eq!(wb.strings().unwrap().get(0).unwrap(), "Alpha");
    let mut wb = XlsxWorkbook::open_fast(bytes).unwrap();
    assert_eq!(wb.init().err().unwrap().kind, ErrorKind::UnreadablePart);
}

#[test]
fn a_damaged_sheet_counts_in_whole_pieces() {
    let rels = ("xl/_rels/workbook.xml.rels", RELS);
    let part = "xl/worksheets/sheet1.xml";
    let bytes = damaged(&[rels, ("xl/workbook.xml", BOOK), (part, SHEET)], "45352", b'5');
    let wb = XlsxWorkbook::open(bytes.clone()).unwrap();
    assert_eq!(wb.read_part(part).err().unwrap().kind, ErrorKind::UnreadablePart);
    assert!(wb.unpack_part(part).is_empty());
    let mut reader = XlsxStreamReader::new(bytes, Some("One"), None).unwrap();
    assert!(reader.next_cell().unwrap().is_none());

    let mut long = "<worksheet><sheetData><row r=\"1\">".to_string();
    for _ in 0..40000 {
        long.push_str("<c><v>7</v></c>");
    }
    let cells = long.len();
    long.push_str("<c><v>mark</v></c></row></sheetData></worksheet>");
    assert!(cells > 2 * 262144 && long.len() < 3 * 262144);
    let bytes = damaged(&[rels, ("xl/workbook.xml", BOOK), (part, &long)], "mark", b'p');
    let wb = XlsxWorkbook::open(bytes.clone()).unwrap();
    assert_eq!(wb.unpack_part(part), &long.as_bytes()[..2 * 262144]);
    let mut reader = XlsxStreamReader::new(bytes, Some("One"), None).unwrap();
    let mut count: usize = 0;
    let error = loop {
        match reader.next_cell() {
            Ok(cell) => {
                assert_eq!(cell.unwrap().content, CellContent::Raw("7".to_string()));
                count += 1;
            }
            Err(error) => break error,
        }
    };
    assert_eq!(count, (2 * 262144 - 33) / 15);
    assert_eq!(error.kind, ErrorKind::Xml);
}

#[test]
fn number_formats_that_fail_can_be_asked_for_again() {
    let bytes = archive(&[
        ("xl/_rels/workbook.xml.rels", RELS),
        ("xl/workbook.xml", BOOK),
        ("xl/styles.xml", "<styleSheet></x>"),
        ("xl/sharedStrings.xml", STRINGS),
        ("xl/worksheets/sheet1.xml", SHEET),
    ]);
    let mut wb = XlsxWorkbook::open(bytes).unwrap();
    for _ in 0..2 {
        let error = XlsxStreamReader::from_workbook(&mut wb, Some("One"), None).err().unwrap();
        assert!(error.message.starts_with("XML error in styles: "));
        assert!(wb.strings().is_some());
        assert!(wb.cell_xfs().is_none());
    }
    assert!(wb.init().is_ok());
    assert!(wb.load().is_err());
}

#[test]
fn reading_goes_on_after_an_ill_formed_part() {
    let bytes = archive(&[
        ("xl/_rels/workbook.xml.rels", RELS),
        ("xl/workbook.xml", BOOK),
        (
            "xl/worksheets/sheet1.xml",
            "<worksheet><sheetData><row r=\"1\"></x><c r=\"A1\"><v>1</v></c></row></sheetData></worksheet>",
        ),
    ]);
    let mut reader = XlsxStreamReader::new(bytes, Some("One"), None).unwrap();
    assert_eq!(reader.next_cell().err().unwrap().kind, ErrorKind::Xml);
    assert_eq!(reader.next_cell().unwrap().unwrap().content, CellContent::Raw("1".to_string()));
}

#[test]
fn a_refused_scan_keeps_what_was_there() {
    for refused in [
        "<si><r><t>bold</t></r><r><t>normal</t></r></si>",
        "<si><t><![CDATA[<value>]]></t></si>",
        "<si><t>a &amp; b</t></si>",
        "<si><t>hello</t>",
    ] {
        let mut table = TextTable::new();
        assert!(process_complete_sis_concurrent(refused.as_bytes(), &mut table, true).is_err());
        assert_eq!(table.finish().len(), 0);

        let mut table = TextTable::new();
        assert!(table.push(b"old"));
        let data = format!("<si><t>new</t></si>{}", refused);
        assert!(process_complete_sis_concurrent(data.as_bytes(), &mut table, true).is_err());
        assert_eq!(texts(&table.finish()), vec!["old", "new"]);
    }
}

#[test]
fn a_missing_sheet_has_no_cells() {
    let bytes = archive(&[("xl/_rels/workbook.xml.rels", RELS), ("xl/workbook.xml", BOOK)]);
    let mut reader = XlsxStreamReader::new(bytes, Some("One"), None).unwrap();
    assert_eq!(reader.dimensions(), Dimensions { start: (0, 0), end: (0, 0) });
    assert!(reader.next_cell().unwrap().is_none());
    assert!(reader.next_cell().unwrap().is_none());
}

#[test]
fn xlsx_stream_lm_test_stream_reader_unsafe() {
    let mut reader = XlsxStreamReader::new(book(), Some("One"), None).unwrap();
    assert_eq!(reader.dimensions(), Dimensions { start: (0, 0), end: (3, 2) });
    let strings = reader.strings().clone();
    let mut cells = Vec::new();
    while let Some(raw) = reader.next_cell().unwrap() {
        let cell = raw.resolve(&strings, None);
        cells.push((cell.get_position(), cell.into_value()));
    }
    let text = |s: &str| Data::String(s.to_string());
    assert_eq!(cells.len(), 9);
    assert_eq!(cells[0], ((0, 0), text("alpha")));
    assert_eq!(cells[1], ((0, 1), text(" beta ")));
    assert_eq!(cells[2], ((0, 2), Data::Empty));
    assert_eq!(cells[3].0, (1, 0));
    match &cells[3].1 {
        Data::DateTime(date) => {
            assert_eq!(date.as_f64(), &Float::OfInt(45_352));
            assert_eq!(date.to_ymd_hms_milli(), (2024, 3, 1, 0, 0, 0, 0));
        }
        other => panic!("{:?}", other),
    }
    assert_eq!(cells[4], ((1, 1), text("inline")));
    assert_eq!(cells[5], ((1, 2), Data::Empty));
    assert!(matches!(cells[6], ((3, 0), Data::DateTime(_))));
    assert_eq!(cells[7], ((3, 1), Data::Bool(true)));
    assert_eq!(cells[8].0, (3, 2));
    assert!(reader.next_cell().unwrap().is_none());
}

#[test]
fn xlsx_stream_unsafe_test_stream_reader_unsafe() {
    let mut reader = XlsxStreamReader::new(book(), None, None).unwrap();
    let mut count = 0;
    while let Some(_cell) = StreamReader::next_cell(&mut reader).unwrap() {
        count += 1;
    }
    assert_eq!(count, 9);
    assert_eq!(StreamReader::dimensions(&reader).end, (3, 2));
}

#[test]
fn test_stream_reader() {
    let mut wb = XlsxWorkbook::open(book()).unwrap();
    let mut reader = XlsxStreamReader::from_workbook(&mut wb, None, Some(1)).unwrap();
    assert_eq!(reader.dimensions(), Dimensions::default());
    assert!(reader.next_cell().unwrap().is_none());
    assert!(reader.next_cell().unwrap().is_none());
    assert!(XlsxStreamReader::from_workbook(&mut wb, Some("no"), None).is_err());
    assert!(XlsxStreamReader::from_workbook(&mut wb, None, Some(5)).is_err());
}

fn sheet_cells(xml: &str) -> Result<Vec<RawCell>, (ErrorKind, String)> {
    let book = archive(&[
        ("xl/_rels/workbook.xml.rels", RELS),
        ("xl/workbook.xml", BOOK),
        ("xl/worksheets/sheet1.xml", xml),
    ]);
    let mut cells = Vec::new();
    let mut reader =
        XlsxStreamReader::new(book, None, None).map_err(|e| (e.kind, e.message))?;
    loop {
        match reader.next_cell() {
            Ok(Some(cell)) => cells.push(cell),
            Ok(None) => return Ok(cells),
            Err(e) => return Err((e.kind, e.message)),
        }
    }
}

#[test]
fn cells_without_references_stay_in_place() {
    let cells = sheet_cells(
        "<worksheet><sheetData><row><c><v>1</v></c></row><row r=\"5\"><c t=\"n\"><v>a<![CDATA[b]]>c</v></c>\
         <c r=\"D5\"><v>x</v><is><t>y</t></is></c><c/></row></sheetData></worksheet>",
    )
    .unwrap();
    let at: Vec<(u32, u32)> = cells.iter().map(|c| (c.row, c.col)).collect();
    assert_eq!(at, vec![(0, 0), (4, 0), (4, 3), (4, 3)]);
    assert_eq!(cells[1].content, CellContent::Raw("abc".to_string()));
    assert_eq!(cells[1].kind, None);
    assert_eq!(cells[1].number_text(), Some("abc"));
    assert_eq!(cells[2].content, CellContent::Inline("y".to_string()));
    assert_eq!(cells[3].content, CellContent::Empty);
}

#[test]
fn torn_sheets_are_errors() {
    let eof = |xml: &str, message: &str| {
        assert_eq!(
            sheet_cells(xml).err().unwrap(),
            (ErrorKind::UnexpectedEof, message.to_string())
        );
    };
    eof("<worksheet><sheetData>", "Unexpected EOF in sheetData");
    eof("<worksheet><sheetData/></worksheet>", "Unexpected EOF in sheetData");
    eof("<sheetData><row><c>", "Unexpected EOF in <c>");
    eof("<sheetData><row><c><v>1", "Unexpected EOF in text content");
    eof("<sheetData><row><c><is>", "Unexpected EOF in <is>");
    eof("<sheetData><row><c><is><t>x", "Unexpected EOF in text content");
    let error = sheet_cells("<sheetData><row r=\"x\">").err().unwrap();
    assert_eq!(error, (ErrorKind::RowNumber, "Invalid row number: x".to_string()));
    let error = sheet_cells("<dimension ref=\"A1:B2:C3\"/>").err().unwrap();
    assert_eq!(error.0, ErrorKind::Dimension);
    let error = sheet_cells("<sheetData><row><c r=\"A1\" r=\"A2\">").err().unwrap();
    assert_eq!(error.0, ErrorKind::Attribute);
    let error = sheet_cells("<sheetData></row>").err().unwrap();
    assert_eq!(error.0, ErrorKind::Xml);
    assert!(error.1.starts_with("XML error: "));
    assert!(sheet_cells("<worksheet/>").unwrap().is_empty());
}

#[test]
fn cell_types_are_read_by_name() {
    for (kind, name) in [
        (CellType::Shared, "s"),
        (CellType::Bool, "b"),
        (CellType::Error, "e"),
        (CellType::Str, "str"),
        (CellType::Date, "d"),
    ] {
        assert_eq!(kind.as_str(), name);
        assert_eq!(CellType::from_bytes(name.as_bytes()), Some(kind));
    }
    assert_eq!(CellType::from_bytes(b"n"), None);
}

#[test]
fn attributes_are_found_before_malformed_ones() {
    let pair = |key: &str, value: &str| Attribute::Pair {
        key: key.as_bytes().to_vec(),
        local: key.as_bytes().to_vec(),
        value: value.as_bytes().to_vec(),
    };
    let tag = Tag {
        name: b"c".to_vec(),
        attributes: vec![pair("r", "B7"), Attribute::Bad("broken".to_string()), pair("t", "s")],
    };
    assert_eq!(get_attribute(&tag, b"r").unwrap().unwrap(), "B7");
    let error = get_attribute(&tag, b"t").err().unwrap();
    assert_eq!((error.kind, error.message.as_str()), (ErrorKind::Attribute, "broken"));
    assert_eq!(parse_cell_pos(&tag, 1, 1).unwrap(), (6, 1));
    let bare = Tag { name: b"c".to_vec(), attributes: Vec::new() };
    assert_eq!(get_attribute(&bare, b"r").unwrap(), None);
    assert_eq!(parse_cell_pos(&bare, 3, 4).unwrap(), (3, 4));
}

#[test]
fn texts_are_read_to_their_end_tags() {
    let mut xml = XmlDocument::new(b"<v>a\r\nb&amp;c<!-- no --><![CDATA[<d>]]></v><x/>".to_vec());
    assert!(matches!(xml.next(), XmlEvent::Start(_)));
    assert_eq!(read_text_content(&mut xml, b"v").unwrap(), "a\nbc<d>");
    assert!(matches!(xml.next(), XmlEvent::Empty(_)));
    assert!(matches!(xml.next(), XmlEvent::Eof));
    assert!(matches!(xml.next(), XmlEvent::Eof));
    let mut xml = XmlDocument::new(b"<t>a</t><r><t>b</t></r></is>".to_vec());
    assert!(matches!(xml.next(), XmlEvent::Start(_)));
    assert_eq!(read_text_content(&mut xml, b"t").unwrap(), "a");
    let error = read_inline_str(&mut xml).err().unwrap();
    assert_eq!(error.kind, ErrorKind::Xml);
    let mut xml = XmlDocument::new(b"<is><t>a</t><r><t>b</t></r></is>".to_vec());
    xml.next();
    assert_eq!(read_inline_str(&mut xml).unwrap(), "ab");
}

#[test]
fn a_plain_document_has_an_event_for_each_piece() {
    let xml = "<?xml version=\"1.0\" a='b'?>\r\n<sst count=\"2\" uri=\"a:b/\">x\u{e4} ]]<t>y\rz</t>\u{feff}</sst>\n";
    let mut document = XmlDocument::new(xml.as_bytes().to_vec());
    let named = |event: XmlEvent, name: &[u8]| match event {
        XmlEvent::Start(tag) => assert_eq!(tag.name, name),
        _ => panic!("a start tag was due"),
    };
    let text = |event: XmlEvent, expected: &str| match event {
        XmlEvent::Text(text) => assert_eq!(text, expected),
        _ => panic!("text was due"),
    };
    assert!(matches!(document.next(), XmlEvent::Other));
    text(document.next(), "\n");
    named(document.next(), b"sst");
    text(document.next(), "x\u{e4} ]]");
    named(document.next(), b"t");
    text(document.next(), "y\nz");
    assert!(matches!(document.next(), XmlEvent::End(name) if name == b"t"));
    text(document.next(), "\u{feff}");
    assert!(matches!(document.next(), XmlEvent::End(name) if name == b"sst"));
    text(document.next(), "\n");
    assert!(matches!(document.next(), XmlEvent::Eof));
}

#[test]
fn both_modes_read_a_simple_list_alike() {
    let declaration = "<?xml version=\"1.0\" encoding=\"UTF-8\" standalone=\"yes\"?>\r\n";
    let entries = "<si><t>one</t></si>\n  <si><t xml:space=\"preserve\"> zw\u{f6}i > </t></si><si><t></t></si>";
    for head in ["", declaration] {
        let xml = format!("{}<sst xmlns=\"main\" count=\"3\">{}\n</sst>", head, entries);
        let bytes = archive(&[
            ("xl/workbook.xml", BOOK),
            ("xl/sharedStrings.xml", xml.as_str()),
        ]);
        assert!(fast(&xml).is_ok());
        for opened in [XlsxWorkbook::open(bytes.clone()), XlsxWorkbook::open_fast(bytes)] {
            let mut wb = opened.unwrap();
            wb.init().unwrap();
            assert_eq!(texts(wb.strings().unwrap()), vec!["one", " zw\u{f6}i > ", ""]);
        }
    }
}

#[test]
fn both_modes_read_entries_without_text_alike() {
    for (entries, expected) in [
        ("<si></si>", vec![""]),
        ("<si/><si />", vec![]),
        ("<si><t/></si><si><t xml:space='preserve' /></si>", vec!["", ""]),
        ("<si><phoneticPr fontId=\"1\"/></si>", vec![""]),
        ("<si> <x a=\"b>c\">y</x><t>one</t>\r\n<phoneticPr fontId=\"1\"/></si>z", vec!["one"]),
        ("<ext uri='&lt;'><r2>q</r2></ext><si><t>two</t><r/></si><si><r a=\"\"></r></si>", vec!["two", ""]),
    ] {
        for tail in ["", "\n<?end?><more/>"] {
            let xml = format!("<sst count='1' uri=\"a>b\">{}\n</sst>{}", entries, tail);
            assert_eq!(fast(&xml).unwrap(), expected, "{}", xml);
            let document = XmlDocument::new(xml.clone().into_bytes());
            assert_eq!(texts(&parse_shared_strings_xml(document).unwrap()), expected, "{}", xml);
        }
    }
    let bytes = b"<sst><si><t>\xff</t></si><si><t>x</t></si></sst>".to_vec();
    let parsed = parse_shared_strings_xml(XmlDocument::new(bytes.clone())).unwrap();
    assert_eq!(texts(&parsed), vec!["", "x"]);
    assert_eq!(texts(&parse_shared_strings_fast(bytes).unwrap()), vec!["", "x"]);
}

fn texts(strings: &SharedStrings) -> Vec<String> {
    (0..strings.len()).map(|i| strings.get(i).unwrap()).collect()
}

fn fast(xml: &str) -> Result<Vec<String>, String> {
    match parse_shared_strings_fast(xml.as_bytes().to_vec()) {
        Ok(strings) => Ok(texts(&strings)),
        Err((bytes, e)) => {
            assert_eq!(bytes, xml.as_bytes());
            assert_eq!(e.kind, ErrorKind::NotSimple);
            Err(e.message)
        }
    }
}

#[test]
fn the_fast_scan_reads_simple_strings_only() {
    assert_eq!(fast("<sst><si><t>hello</t></si></sst>").unwrap(), vec!["hello"]);
    assert_eq!(
        fast("<si></si><si><t/></si><si><t a=\"b\"/></si><si><t xml:space=\"preserve\"> x </t></si>")
            .unwrap(),
        vec!["", "", "", " x "]
    );
    assert_eq!(
        fast("<si><r><t>bold</t></r><r><t>normal</t></r></si>").err().unwrap(),
        "Rich text <r> not supported in fast path"
    );
    assert_eq!(
        fast("<si><t><![CDATA[<value>]]></t></si>").err().unwrap(),
        "CDATA not supported in fast path"
    );
    assert_eq!(
        fast("<si><t>a &amp; b</t></si>").err().unwrap(),
        "XML entity in text not supported in fast path"
    );
    assert_eq!(
        fast("<si><t>part1</t><t>part2</t></si>").err().unwrap(),
        "Multiple <t> nodes not supported in fast path"
    );
    assert_eq!(
        fast("<si><t a=\"&lt;\">x</t></si>").err().unwrap(),
        "XML entity in <t> attribute not supported"
    );
    assert_eq!(fast("<si><t></si>").err().unwrap(), "No </t> found at EOF");
    assert_eq!(fast("<si><t</si>").err().unwrap(), "Unclosed <t> tag");
    assert_eq!(fast("<si><t>x").err().unwrap(), "Incomplete shared string at EOF");
    let bytes = b"<si><t>\xff</t></si><si><t>x\r\n</t></si>".to_vec();
    assert_eq!(texts(&parse_shared_strings_fast(bytes).unwrap()), vec!["", "x\r\n"]);
}

#[test]
fn what_the_scan_refuses_is_parsed() {
    for (xml, expected) in [
        ("<sst><si><r><t>bold</t></r><r><t>normal</t></r></si></sst>", "boldnormal"),
        ("<sst><si><t><![CDATA[<value>]]></t></si></sst>", "<value>"),
        ("<sst><si><t>part1</t><t>part2</t></si></sst>", "part1part2"),
        ("<sst><si><t>hello</t></si></sst>", "hello"),
    ] {
        let mut wb = XlsxWorkbook::open_fast(archive(&[
            ("xl/workbook.xml", BOOK),
            ("xl/sharedStrings.xml", xml),
        ]))
        .unwrap();
        wb.init().unwrap();
        assert_eq!(texts(wb.strings().unwrap()), vec![expected]);
    }
}

#[test]
fn compare_shared_strings_parsers() {
    let mut xml = String::from("<sst>");
    for i in 0..500 {
        xml.push_str(&format!("<si><t>text {} ä€😀</t></si>\n", i));
    }
    xml.push_str("</sst>");
    let scanned = parse_shared_strings_fast(xml.clone().into_bytes()).unwrap();
    let parsed = parse_shared_strings_xml(XmlDocument::new(xml.into_bytes())).unwrap();
    assert_eq!(texts(&scanned), texts(&parsed));
    assert_eq!(scanned.len(), 500);
}

#[test]
fn parse_shared_strings_raw() {
    let strings = parse_shared_strings_xml(XmlDocument::new(STRINGS.as_bytes().to_vec())).unwrap();
    assert_eq!(texts(&strings), vec!["alpha", " beta "]);
    let error = parse_shared_strings_xml(XmlDocument::new(b"<sst><si><t>x".to_vec())).err().unwrap();
    assert_eq!(error.message, "Unexpected EOF in shared string");
    let error = parse_shared_strings_xml(XmlDocument::new(b"<sst></si>".to_vec())).err().unwrap();
    assert!(error.message.starts_with("XML error in shared strings: "));
    let error = parse_shared_strings_xml(XmlDocument::new(b"<sst><si><t></x>".to_vec())).err().unwrap();
    assert!(error.message.starts_with("XML error in shared string: "));
}

#[test]
fn profile_concurrent_decompress_parse() {
    let xml = "<sst><si><t>one</t></si><si><t/></si> <si><t>three</t></si></sst>";
    for size in 1..xml.len() {
        let mut scanner = PieceScanner::new();
        for piece in xml.as_bytes().chunks(size) {
            scanner.take(piece).unwrap();
        }
        assert_eq!(texts(&scanner.finish().unwrap()), vec!["one", "", "three"]);
    }
    let mut scanner = PieceScanner::new();
    scanner.take(b"<si><t>x</t></si><si><t>").unwrap();
    assert_eq!(scanner.finish().err().unwrap().kind, ErrorKind::NotSimple);
    let mut table = TextTable::new();
    let used = process_complete_sis_concurrent(b"<si><t>x</t></si><si>", &mut table, false).unwrap();
    assert_eq!(used, 17);
    assert_eq!(texts(&table.finish()), vec!["x"]);
}

#[test]
fn styles_of_formats() {
    let formats = read_styles(XmlDocument::new(STYLES.as_bytes().to_vec())).unwrap();
    assert_eq!(formats.cell_xfs, vec![0, 164, 0, 14]);
    assert!(formats.custom_date_numfmts.contains(&164));
    assert!(!formats.custom_date_numfmts.contains(&165));
    let error = read_styles(XmlDocument::new(b"<styleSheet></x>".to_vec())).err().unwrap();
    assert!(error.message.starts_with("XML error in styles: "));
}

#[test]
fn the_first_styled_cell_settles_a_column() {
    let sheet = r#"<worksheet><sheetData>
<row r="1"><c r="A1" s="0"><v>1</v></c><c r="B1"><v>1</v></c><c r="C1" s="1"><v>1</v></c></row>
<row r="2"><c r="A2" s="1"><v>1</v></c><c r="B2" s="3"><v>1</v></c><c r="C2"><v>1</v></c></row>
<row r="3"><c r="A3" s="1"><v>1</v></c><c r="B3" s="0"><v>1</v></c><c r="C3" s="99"><v>1</v></c></row>
</sheetData></worksheet>"#;
    let bytes = archive(&[
        ("xl/_rels/workbook.xml.rels", RELS),
        ("xl/workbook.xml", BOOK),
        ("xl/styles.xml", STYLES),
        ("xl/worksheets/sheet1.xml", sheet),
    ]);
    let mut reader = XlsxStreamReader::new(bytes, Some("One"), None).unwrap();
    let mut dates = Vec::new();
    while let Some(cell) = reader.next_cell().unwrap() {
        dates.push(cell.is_date);
    }
    assert_eq!(dates, vec![false, false, true, false, true, true, false, true, true]);
}
