//! Reading the shared strings: from the events of their XML, or by scanning its
//! bytes for the simplest form.

use crate::arrow::{cut, cuts, lies_inside, texts_of, SharedStrings};
use crate::error::{error, error_with, failure, ErrorKind, Failure, XlsxError};
use crate::text::{
    byte_from, bytes_of, copy_range, find_byte, find_from, first_from, lemma_first_from, occurs_at,
    same_bytes,
};
use crate::utils::{text_after, text_step, TextPlace};
use crate::xml::{XmlDocument, XmlEvent, XmlItem};
use vstd::prelude::*;
use vstd::utf8::*;

verus! {

/// The bytes of all entries together.
pub open spec fn total_bytes(entries: Seq<Seq<u8>>) -> int
    decreases entries.len(),
{
    if entries.len() == 0 {
        0
    } else {
        total_bytes(entries.drop_last()) + entries.last().len()
    }
}

/// The texts in UTF-8.
pub open spec fn encoded(texts: Seq<Seq<char>>) -> Seq<Seq<u8>> {
    texts.map_values(|text: Seq<char>| encode_utf8(text))
}

/// Whether the entries of a table lie in its buffer one after the other, with nothing
/// between them or around them.
pub open spec fn contiguous(strings: SharedStrings) -> bool {
    let entries = strings.entries();
    &&& strings.size() == total_bytes(entries)
    &&& forall|i: int|
        0 <= i < entries.len() ==> #[trigger] strings.start(i) == total_bytes(entries.take(i))
    &&& forall|i: int|
        0 <= i < entries.len() ==> #[trigger] strings.length(i) == entries[i].len()
}

/// Entries that are being collected in one buffer.
#[derive(Debug)]
pub struct TextTable {
    buffer: Vec<u8>,
    offsets: Vec<(u32, u32)>,
}

impl View for TextTable {
    type V = Seq<Seq<u8>>;

    closed spec fn view(&self) -> Seq<Seq<u8>> {
        cuts(self.buffer@, self.offsets@)
    }
}

impl TextTable {
    /// Whether every entry lies in the buffer and the buffer holds nothing
    /// else.
    pub closed spec fn wf(&self) -> bool {
        &&& forall|i: int|
            0 <= i < self.offsets.len() ==> lies_inside(self.buffer@, #[trigger] self.offsets[i])
        &&& total_bytes(self@) == self.buffer.len()
        &&& self.buffer.len() <= u32::MAX
        &&& forall|i: int|
            0 <= i < self.offsets.len() ==> (#[trigger] self.offsets[i]).0 == total_bytes(
                self@.take(i),
            ) && self.offsets[i].1 == self@[i].len()
    }

    /// Where an entry starts in the buffer.
    pub closed spec fn start(&self, index: int) -> int {
        self.offsets[index].0 as int
    }

    /// The length in bytes of an entry.
    pub closed spec fn length(&self, index: int) -> int {
        self.offsets[index].1 as int
    }

    /// The bytes of the buffer.
    pub closed spec fn size(&self) -> int {
        self.buffer.len() as int
    }

    /// Each entry starts where the one before it ends, and the last ends with the
    /// buffer.
    pub proof fn law_entries_are_contiguous(&self)
        requires
            self.wf(),
        ensures
            self.size() == total_bytes(self@) <= u32::MAX,
            forall|i: int|
                0 <= i < self@.len() ==> #[trigger] self.start(i) == total_bytes(self@.take(i)),
            forall|i: int|
                0 <= i < self@.len() ==> #[trigger] self.length(i) == self@[i].len(),
            forall|i: int|
                0 <= i < self@.len() ==> #[trigger] self.start(i) + self.length(i) == (if i + 1
                    < self@.len() {
                    self.start(i + 1)
                } else {
                    self.size()
                }),
    {
        assert forall|i: int| 0 <= i < self@.len() implies #[trigger] self.start(i)
            + self.length(i) == (if i + 1 < self@.len() {
            self.start(i + 1)
        } else {
            self.size()
        }) by {
            assert(self@.take(i + 1).drop_last() =~= self@.take(i));
            assert(self@.take(i + 1).last() == self@[i]);
            assert(self.offsets[i].0 == total_bytes(self@.take(i)));
            if i + 1 < self@.len() {
                assert(self.offsets[i + 1].0 == total_bytes(self@.take(i + 1)));
            } else {
                assert(self@.take(i + 1) =~= self@);
            }
        }
    }

    pub fn new() -> (table: Self)
        ensures
            table.wf(),
            table@ == Seq::<Seq<u8>>::empty(),
    {
        let table = TextTable { buffer: Vec::new(), offsets: Vec::new() };
        assert(table@ =~= Seq::<Seq<u8>>::empty());
        table
    }

    /// Adds an entry, given by its bytes. It is refused exactly where all
    /// entries together would exceed what 32-bit offsets reach.
    pub fn push(&mut self, bytes: &[u8]) -> (pushed: bool)
        requires
            old(self).wf(),
        ensures
            final(self).wf(),
            pushed == (total_bytes(old(self)@) + bytes.len() <= u32::MAX),
            final(self)@ == (if pushed {
                old(self)@.push(bytes@)
            } else {
                old(self)@
            }),
    {
        let start: usize = self.buffer.len();
        let len: usize = bytes.len();
        if start as u128 + len as u128 > u32::MAX as u128 {
            return false;
        }
        let ghost before = self.buffer@;
        let ghost old_offsets = self.offsets@;
        let ghost old_entries = self@;
        let mut i: usize = 0;
        while i < bytes.len()
            invariant
                i <= bytes.len(),
                self.offsets@ == old_offsets,
                self.buffer@ == before + bytes@.take(i as int),
            decreases bytes.len() - i,
        {
            self.buffer.push(bytes[i]);
            i += 1;
            assert(before + bytes@.take(i as int) =~= (before + bytes@.take(i - 1)).push(
                bytes@[i - 1],
            ));
        }
        assert(bytes@.take(i as int) =~= bytes@);
        self.offsets.push((start as u32, len as u32));
        proof {
            let after = self.buffer@;
            assert(after == before + bytes@);
            assert(after.subrange(start as int, start + len) =~= bytes@);
            assert forall|k: int| 0 <= k < self.offsets.len() implies lies_inside(
                after,
                #[trigger] self.offsets[k],
            ) by {
                if k < old_offsets.len() {
                    let offset = old_offsets[k];
                    assert(lies_inside(before, offset));
                    assert(after.subrange(offset.0 as int, offset.0 + offset.1)
                        =~= before.subrange(offset.0 as int, offset.0 + offset.1));
                }
            }
            assert(self@ =~= old_entries.push(bytes@)) by {
                assert forall|k: int| 0 <= k < old_offsets.len() implies cut(
                    after,
                    #[trigger] old_offsets[k],
                ) == cut(before, old_offsets[k]) by {
                    let offset = old_offsets[k];
                    assert(lies_inside(before, offset));
                    assert(after.subrange(offset.0 as int, offset.0 + offset.1)
                        =~= before.subrange(offset.0 as int, offset.0 + offset.1));
                }
            }
            assert(old_entries.push(bytes@).drop_last() =~= old_entries);
            assert forall|k: int| 0 <= k < self.offsets.len() implies (
            #[trigger] self.offsets[k]).0 == total_bytes(self@.take(k)) && self.offsets[k].1
                == self@[k].len() by {
                if k < old_offsets.len() {
                    assert(self.offsets[k] == old_offsets[k]);
                    assert(self@.take(k) =~= old_entries.take(k));
                } else {
                    assert(self@.take(k) =~= old_entries);
                }
            }
        }
        true
    }

    /// The finished table.
    pub fn finish(self) -> (strings: SharedStrings)
        requires
            self.wf(),
        ensures
            strings.wf(),
            strings.entries() == self@,
            contiguous(strings),
    {
        let strings = SharedStrings::new(self.buffer, self.offsets);
        assert forall|i: int| 0 <= i < self@.len() implies #[trigger] strings.start(i)
            == total_bytes(self@.take(i)) && strings.length(i) == self@[i].len() by {
            assert(self.offsets[i].0 == total_bytes(self@.take(i)));
        }
        strings
    }
}

/// The state of the reader of the shared strings, as contracts speak of it.
pub struct StringsState {
    /// Whether the reader is in an `si` element.
    pub in_si: bool,
    /// Whether the reader is in a `t` element of an `si` element.
    pub in_t: bool,
    /// The text of the current entry so far.
    pub current: Seq<char>,
    /// The entries so far.
    pub texts: Seq<Seq<char>>,
}

/// Nothing read yet.
pub open spec fn no_strings() -> StringsState {
    StringsState { in_si: false, in_t: false, current: Seq::empty(), texts: Seq::empty() }
}

/// The message for shared strings that are too long together.
pub open spec fn too_long() -> Failure {
    failure(ErrorKind::TooLong, "Shared strings exceed 4 GiB"@)
}

/// What one event adds to the shared strings, and whether the list is over.
pub open spec fn strings_step(state: StringsState, item: XmlItem) -> Result<
    (StringsState, bool),
    Failure,
> {
    if state.in_t {
        match text_after(state.current, item, bytes_of("t"), TextPlace::SharedString) {
            Err(e) => Err(e),
            Ok((current, ended)) => Ok((StringsState { current, in_t: !ended, ..state }, false)),
        }
    } else {
        match item {
            XmlItem::Start(tag) => if tag.name == bytes_of("si") {
                Ok((StringsState { in_si: true, current: Seq::empty(), ..state }, false))
            } else if tag.name == bytes_of("t") && state.in_si {
                Ok((StringsState { in_t: true, ..state }, false))
            } else {
                Ok((state, false))
            },
            XmlItem::End(name) => if name == bytes_of("si") {
                if total_bytes(encoded(state.texts)) + encode_utf8(state.current).len() > u32::MAX {
                    Err(too_long())
                } else {
                    Ok(
                        (
                            StringsState {
                                in_si: false,
                                current: Seq::empty(),
                                texts: state.texts.push(state.current),
                                ..state
                            },
                            false,
                        ),
                    )
                }
            } else {
                Ok((state, name == bytes_of("sst")))
            },
            XmlItem::Eof => Ok((state, true)),
            XmlItem::Error(e) => Err(
                failure(ErrorKind::Xml, "XML error in shared strings: "@ + e),
            ),
            _ => Ok((state, false)),
        }
    }
}

/// The shared strings that a document lists. The text of an entry is that of all
/// its `t` elements, one after the other.
pub open spec fn strings_of(items: Seq<XmlItem>, state: StringsState) -> Result<
    Seq<Seq<char>>,
    Failure,
>
    decreases items.len(),
{
    if items.len() == 0 {
        Ok(state.texts)
    } else {
        match strings_step(state, items[0]) {
            Err(e) => Err(e),
            Ok((after, true)) => Ok(after.texts),
            Ok((after, false)) => strings_of(items.skip(1), after),
        }
    }
}

/// The reader of the shared strings. It is handed the events of their XML one by
/// one.
#[derive(Debug)]
pub struct StringsParser {
    in_si: bool,
    in_t: bool,
    current: String,
    table: TextTable,
}

impl View for StringsParser {
    type V = StringsState;

    closed spec fn view(&self) -> StringsState {
        StringsState {
            in_si: self.in_si,
            in_t: self.in_t,
            current: self.current@,
            texts: texts_of(self.table@),
        }
    }
}

impl StringsParser {
    /// Whether the table holds the texts in UTF-8.
    pub closed spec fn wf(&self) -> bool {
        self.table.wf() && self.table@ == encoded(texts_of(self.table@))
    }

    pub fn new() -> (parser: Self)
        ensures
            parser.wf(),
            parser@ == no_strings(),
    {
        let table = TextTable::new();
        proof {
            assert(texts_of(table@) =~= Seq::<Seq<char>>::empty());
            assert(encoded(texts_of(table@)) =~= table@);
        }
        StringsParser { in_si: false, in_t: false, current: String::new(), table }
    }

    /// Takes one event; says whether the list is over.
    pub fn take(&mut self, event: &XmlEvent) -> (over: Result<bool, XlsxError>)
        requires
            old(self).wf(),
        ensures
            final(self).wf(),
            match over {
                Ok(b) => strings_step(old(self)@, event@) == Ok::<(StringsState, bool), Failure>(
                    (final(self)@, b),
                ),
                Err(e) => strings_step(old(self)@, event@) == Err::<
                    (StringsState, bool),
                    Failure,
                >(e@) && final(self)@ == old(self)@,
            },
    {
        if self.in_t {
            return match text_step(
                &mut self.current,
                event,
                "t".as_bytes(),
                TextPlace::SharedString,
            ) {
                Err(e) => Err(e),
                Ok(ended) => {
                    self.in_t = !ended;
                    Ok(false)
                },
            };
        }
        match event {
            XmlEvent::Start(tag) => {
                if same_bytes(tag.name.as_slice(), "si".as_bytes()) {
                    self.in_si = true;
                    self.current = String::new();
                } else if same_bytes(tag.name.as_slice(), "t".as_bytes()) && self.in_si {
                    self.in_t = true;
                }
                Ok(false)
            },
            XmlEvent::End(name) => {
                if same_bytes(name.as_slice(), "si".as_bytes()) {
                    let ghost before = self.table@;
                    if !self.table.push(self.current.as_str().as_bytes()) {
                        return Err(error(ErrorKind::TooLong, "Shared strings exceed 4 GiB"));
                    }
                    proof {
                        encode_utf8_valid_utf8(self.current@);
                        encode_utf8_decode_utf8(self.current@);
                        let texts = texts_of(before).push(self.current@);
                        assert(texts_of(self.table@) =~= texts);
                        assert(encoded(texts) =~= encoded(texts_of(before)).push(
                            encode_utf8(self.current@),
                        ));
                    }
                    self.in_si = false;
                    self.current = String::new();
                    Ok(false)
                } else {
                    Ok(same_bytes(name.as_slice(), "sst".as_bytes()))
                }
            },
            XmlEvent::Eof => Ok(true),
            XmlEvent::Error(e) => Err(
                error_with(ErrorKind::Xml, "XML error in shared strings: ", e.as_str()),
            ),
            _ => Ok(false),
        }
    }

    /// The shared strings read so far.
    pub fn finish(self) -> (strings: SharedStrings)
        requires
            self.wf(),
        ensures
            strings.wf(),
            strings@ == self@.texts,
            contiguous(strings),
    {
        self.table.finish()
    }
}

/// Reads the shared strings from their XML.
pub fn parse_shared_strings_xml(xml: XmlDocument) -> (strings: Result<SharedStrings, XlsxError>)
    requires
        xml.wf(),
    ensures
        match strings {
            Ok(s) => s.wf() && contiguous(s) && strings_of(xml.pending(), no_strings()) == Ok::<
                Seq<Seq<char>>,
                Failure,
            >(s@),
            Err(e) => strings_of(xml.pending(), no_strings()) == Err::<
                Seq<Seq<char>>,
                Failure,
            >(e@),
        },
{
    let mut document = xml;
    let mut parser = StringsParser::new();
    loop
        invariant
            document.wf(),
            parser.wf(),
            strings_of(xml.pending(), no_strings()) == strings_of(
                document.pending(),
                parser@,
            ),
        decreases document.pending().len(),
    {
        let event = document.next();
        match parser.take(&event) {
            Err(e) => {
                return Err(e);
            },
            Ok(over) => {
                if over {
                    return Ok(parser.finish());
                }
            },
        }
    }
}

/// What the byte scanner makes of the content of an `si` element.
pub enum EntryScan {
    /// The bytes of its text.
    Text(Seq<u8>),
    /// Its `t` element does not end.
    Unended,
    /// It is of a form that is left to the XML parser, for the stated reason.
    Complex(Seq<char>),
}

/// Whether a byte stands in a range of positions.
pub open spec fn has_byte(bytes: Seq<u8>, byte: u8, from: int, to: int) -> bool {
    exists|i: int| from <= i < to && #[trigger] bytes[i] == byte
}

/// The text of a `t` element, the only one of its entry.
pub open spec fn only_text(content: Seq<u8>, from: int, to: int, after: int) -> EntryScan {
    let text = content.subrange(from, to);
    if has_byte(content, 38, from, to) {
        EntryScan::Complex("XML entity in text not supported in fast path"@)
    } else if first_from(content, bytes_of("<t"), after) is Some {
        EntryScan::Complex("Multiple <t> nodes not supported in fast path"@)
    } else {
        EntryScan::Text(text)
    }
}

/// The text of an entry of the shared strings: that of its one `t` element,
/// empty where it has none or an empty one. Rich text, CDATA, entities and several
/// `t` elements are left to the XML parser.
pub open spec fn entry_scan(content: Seq<u8>) -> EntryScan {
    if first_from(content, bytes_of("<r>"), 0) is Some {
        EntryScan::Complex("Rich text <r> not supported in fast path"@)
    } else if first_from(content, bytes_of("<![CDATA["), 0) is Some {
        EntryScan::Complex("CDATA not supported in fast path"@)
    } else {
        match first_from(content, bytes_of("<t"), 0) {
            None => EntryScan::Text(Seq::empty()),
            Some(t) => {
                let close = byte_from(content, 62, t + 2);
                if has_byte(content, 38, t + 2, close) {
                    EntryScan::Complex("XML entity in <t> attribute not supported"@)
                } else if close >= content.len() {
                    EntryScan::Complex("Unclosed <t> tag"@)
                } else if close > t + 2 && content[close - 1] == 47 {
                    only_text(content, close + 1, close + 1, close + 1)
                } else {
                    match first_from(content, bytes_of("</t>"), close + 1) {
                        None => EntryScan::Unended,
                        Some(end) => only_text(content, close + 1, end, end + 4),
                    }
                }
            },
        }
    }
}

/// Scans `data` from `at` on for `si` elements, and adds the bytes of their texts to
/// `entries`. The result is the entries and how far the data was used up.
/// Where more data is to come (`at_eof` is false), an entry that is not complete
/// is left for later; at the end of the data it is a failure.
pub open spec fn entries_scan(data: Seq<u8>, at: int, at_eof: bool, entries: Seq<Seq<u8>>) -> Result<
    (Seq<Seq<u8>>, int),
    Failure,
>
    decreases data.len() - at when 0 <= at
    via entries_scan_ends
{
    if at >= data.len() {
        Ok((entries, at))
    } else {
        match first_from(data, bytes_of("<si>"), at) {
            None => if at_eof {
                Ok((entries, data.len() as int))
            } else {
                Ok((entries, at))
            },
            Some(open) => match first_from(data, bytes_of("</si>"), open + 4) {
                None => if at_eof {
                    Err(failure(ErrorKind::NotSimple, "Incomplete shared string at EOF"@))
                } else {
                    Ok((entries, at))
                },
                Some(end) => match entry_scan(data.subrange(open + 4, end)) {
                    EntryScan::Complex(reason) => Err(failure(ErrorKind::NotSimple, reason)),
                    EntryScan::Unended => if at_eof {
                        Err(failure(ErrorKind::NotSimple, "No </t> found at EOF"@))
                    } else {
                        Ok((entries, at))
                    },
                    EntryScan::Text(text) => if total_bytes(entries) + text.len() > u32::MAX {
                        Err(too_long())
                    } else {
                        entries_scan(data, end + 5, at_eof, entries.push(text))
                    },
                },
            },
        }
    }
}

#[via_fn]
proof fn entries_scan_ends(data: Seq<u8>, at: int, at_eof: bool, entries: Seq<Seq<u8>>) {
    lemma_marker_lengths();
    lemma_first_from(data, bytes_of("<si>"), at);
    match first_from(data, bytes_of("<si>"), at) {
        Some(open) => {
            lemma_first_from(data, bytes_of("</si>"), open + 4);
        },
        None => {},
    }
}

/// The entries after a scan, whether it comes to its end or is refused: those before it,
/// and those of the `si` elements that it read.
pub open spec fn entries_scanned(data: Seq<u8>, at: int, entries: Seq<Seq<u8>>) -> Seq<Seq<u8>>
    decreases data.len() - at when 0 <= at
    via entries_scanned_ends
{
    if at >= data.len() {
        entries
    } else {
        match first_from(data, bytes_of("<si>"), at) {
            None => entries,
            Some(open) => match first_from(data, bytes_of("</si>"), open + 4) {
                None => entries,
                Some(end) => match entry_scan(data.subrange(open + 4, end)) {
                    EntryScan::Text(text) => if total_bytes(entries) + text.len() > u32::MAX {
                        entries
                    } else {
                        entries_scanned(data, end + 5, entries.push(text))
                    },
                    _ => entries,
                },
            },
        }
    }
}

#[via_fn]
proof fn entries_scanned_ends(data: Seq<u8>, at: int, entries: Seq<Seq<u8>>) {
    lemma_marker_lengths();
    lemma_first_from(data, bytes_of("<si>"), at);
    match first_from(data, bytes_of("<si>"), at) {
        Some(open) => {
            lemma_first_from(data, bytes_of("</si>"), open + 4);
        },
        None => {},
    }
}

/// A scan keeps the entries that were there before it, also where it is refused. Where
/// it comes to its end, it stops at the end of the data or after an entry: with no
/// more data to come, at the end.
pub proof fn law_scan_keeps_earlier_entries(
    data: Seq<u8>,
    at: int,
    at_eof: bool,
    entries: Seq<Seq<u8>>,
)
    requires
        0 <= at <= data.len(),
    ensures
        entries.is_prefix_of(entries_scanned(data, at, entries)),
        match entries_scan(data, at, at_eof, entries) {
            Ok((found, used)) => {
                &&& found == entries_scanned(data, at, entries)
                &&& at <= used <= data.len()
                &&& at_eof ==> used == data.len()
                &&& !at_eof ==> used == at || (used >= 5 && data.subrange(used - 5, used)
                    == bytes_of("</si>"))
            },
            Err(_) => true,
        },
    decreases data.len() - at,
{
    lemma_marker_lengths();
    if at < data.len() {
        lemma_first_from(data, bytes_of("<si>"), at);
        if let Some(open) = first_from(data, bytes_of("<si>"), at) {
            lemma_first_from(data, bytes_of("</si>"), open + 4);
            if let Some(end) = first_from(data, bytes_of("</si>"), open + 4) {
                if let EntryScan::Text(text) = entry_scan(data.subrange(open + 4, end)) {
                    if total_bytes(entries) + text.len() <= u32::MAX {
                        let more = entries.push(text);
                        law_scan_keeps_earlier_entries(data, end + 5, at_eof, more);
                        assert(entries.is_prefix_of(more));
                        let all = entries_scanned(data, end + 5, more);
                        assert(all.take(entries.len() as int) =~= all.take(more.len() as int).take(
                            entries.len() as int,
                        ));
                    }
                }
            }
        }
    }
}

pub(crate) proof fn lemma_marker_lengths()
    ensures
        bytes_of("<si>").len() == 4,
        bytes_of("</si>").len() == 5,
        bytes_of("</t>").len() == 4,
        bytes_of("<t").len() == 2,
        bytes_of("<r>").len() == 3,
        bytes_of("<![CDATA[").len() == 9,
{
    reveal_strlit("<si>");
    reveal_strlit("</si>");
    reveal_strlit("</t>");
    reveal_strlit("<t");
    reveal_strlit("<r>");
    reveal_strlit("<![CDATA[");
    is_ascii_chars_encode_utf8("<si>"@);
    is_ascii_chars_encode_utf8("</si>"@);
    is_ascii_chars_encode_utf8("</t>"@);
    is_ascii_chars_encode_utf8("<t"@);
    is_ascii_chars_encode_utf8("<r>"@);
    is_ascii_chars_encode_utf8("<![CDATA["@);
}

fn contains_byte(bytes: &[u8], byte: u8, from: usize, to: usize) -> (held: bool)
    requires
        from <= to <= bytes.len(),
    ensures
        held == has_byte(bytes@, byte, from as int, to as int),
{
    let at: usize = find_byte(bytes, byte, from);
    at < to
}

/// What the byte scanner makes of an entry: the range of its text, `Unended`
/// where its `t` element does not end, or why it is left to the XML parser.
#[derive(Debug)]
enum Scanned {
    Text(usize, usize),
    Unended,
    Complex(XlsxError),
}

spec fn scanned_item(content: Seq<u8>, scanned: Scanned) -> EntryScan {
    match scanned {
        Scanned::Text(from, to) => EntryScan::Text(content.subrange(from as int, to as int)),
        Scanned::Unended => EntryScan::Unended,
        Scanned::Complex(e) => EntryScan::Complex(e.message@),
    }
}

fn complex(reason: &str) -> (scanned: Scanned)
    ensures
        scanned matches Scanned::Complex(e) && e@ == failure(ErrorKind::NotSimple, reason@),
{
    Scanned::Complex(error(ErrorKind::NotSimple, reason))
}

fn scan_only_text(content: &[u8], from: usize, to: usize, after: usize) -> (scanned: Scanned)
    requires
        from <= to <= after <= content.len(),
    ensures
        scanned_item(content@, scanned) == only_text(
            content@,
            from as int,
            to as int,
            after as int,
        ),
        scanned matches Scanned::Text(a, b) ==> a <= b <= content.len(),
        scanned matches Scanned::Complex(e) ==> e.kind == ErrorKind::NotSimple,
{
    if contains_byte(content, 38, from, to) {
        return complex("XML entity in text not supported in fast path");
    }
    if find_from(content, "<t".as_bytes(), after).is_some() {
        return complex("Multiple <t> nodes not supported in fast path");
    }
    Scanned::Text(from, to)
}

fn scan_entry(content: &[u8]) -> (scanned: Scanned)
    ensures
        scanned_item(content@, scanned) == entry_scan(content@),
        scanned matches Scanned::Text(a, b) ==> a <= b <= content.len(),
        scanned matches Scanned::Complex(e) ==> e.kind == ErrorKind::NotSimple,
{
    proof {
        lemma_marker_lengths();
        assert(content@.subrange(0, 0) =~= Seq::<u8>::empty());
    }
    if find_from(content, "<r>".as_bytes(), 0).is_some() {
        return complex("Rich text <r> not supported in fast path");
    }
    if find_from(content, "<![CDATA[".as_bytes(), 0).is_some() {
        return complex("CDATA not supported in fast path");
    }
    let t_pos: usize = match find_from(content, "<t".as_bytes(), 0) {
        Some(p) => p,
        None => {
            return Scanned::Text(0, 0);
        },
    };
    let close: usize = find_byte(content, 62, t_pos + 2);
    if contains_byte(content, 38, t_pos + 2, close) {
        return complex("XML entity in <t> attribute not supported");
    }
    if close >= content.len() {
        return complex("Unclosed <t> tag");
    }
    if close > t_pos + 2 && content[close - 1] == 47 {
        return scan_only_text(content, close + 1, close + 1, close + 1);
    }
    match find_from(content, "</t>".as_bytes(), close + 1) {
        None => Scanned::Unended,
        Some(end) => scan_only_text(content, close + 1, end, end + 4),
    }
}

/// Scans a run of bytes for `si` elements and adds the bytes of their texts to
/// `table`; gives back how many bytes were used up. `at_eof` says whether the run
/// reaches the end of the data.
pub fn process_complete_sis_concurrent(
    data: &[u8],
    table: &mut TextTable,
    at_eof: bool,
) -> (used: Result<usize, XlsxError>)
    requires
        old(table).wf(),
    ensures
        final(table).wf(),
        match used {
            Ok(n) => entries_scan(data@, 0, at_eof, old(table)@) == Ok::<
                (Seq<Seq<u8>>, int),
                Failure,
            >((final(table)@, n as int)) && n <= data.len(),
            Err(e) => entries_scan(data@, 0, at_eof, old(table)@) == Err::<
                (Seq<Seq<u8>>, int),
                Failure,
            >(e@),
        },
        final(table)@ == entries_scanned(data@, 0, old(table)@),
        old(table)@.is_prefix_of(final(table)@),
{
    proof {
        lemma_marker_lengths();
        law_scan_keeps_earlier_entries(data@, 0, at_eof, old(table)@);
    }
    let mut at: usize = 0;
    while at < data.len()
        invariant
            at <= data.len(),
            table.wf(),
            entries_scanned(data@, 0, old(table)@) == entries_scanned(data@, at as int, table@),
            old(table)@.is_prefix_of(entries_scanned(data@, 0, old(table)@)),
            entries_scan(data@, 0, at_eof, old(table)@) == entries_scan(
                data@,
                at as int,
                at_eof,
                table@,
            ),
            bytes_of("<si>").len() == 4,
            bytes_of("</si>").len() == 5,
        ensures
            at <= data.len(),
            table.wf(),
            table@ == entries_scanned(data@, 0, old(table)@),
            old(table)@.is_prefix_of(table@),
            entries_scan(data@, 0, at_eof, old(table)@) == Ok::<(Seq<Seq<u8>>, int), Failure>(
                (table@, at as int),
            ),
        decreases data.len() - at,
    {
        let open: usize = match find_from(data, "<si>".as_bytes(), at) {
            Some(p) => p,
            None => {
                if at_eof {
                    return Ok(data.len());
                }
                break;
            },
        };
        let start: usize = open + 4;
        let end: usize = match find_from(data, "</si>".as_bytes(), start) {
            Some(p) => p,
            None => {
                if at_eof {
                    return Err(error(ErrorKind::NotSimple, "Incomplete shared string at EOF"));
                }
                break;
            },
        };
        let content = vstd::slice::slice_subrange(data, start, end);
        match scan_entry(content) {
            Scanned::Complex(e) => {
                return Err(e);
            },
            Scanned::Unended => {
                if at_eof {
                    return Err(error(ErrorKind::NotSimple, "No </t> found at EOF"));
                }
                break;
            },
            Scanned::Text(from, to) => {
                let text = vstd::slice::slice_subrange(content, from, to);
                if !table.push(text) {
                    return Err(error(ErrorKind::TooLong, "Shared strings exceed 4 GiB"));
                }
            },
        }
        at = end + 5;
    }
    Ok(at)
}

/// Reads the shared strings by scanning the bytes of their XML. Where they are of
/// a form that is left to the XML parser, the bytes are handed back with the
/// reason.
pub fn parse_shared_strings_fast(xml: Vec<u8>) -> (strings: Result<
    SharedStrings,
    (Vec<u8>, XlsxError),
>)
    ensures
        match strings {
            Ok(s) => s.wf() && contiguous(s)
                && (entries_scan(xml@, 0, true, Seq::empty()) matches Ok((entries, _))
                && s.entries() == entries),
            Err((bytes, e)) => bytes == xml && entries_scan(xml@, 0, true, Seq::empty()) == Err::<
                (Seq<Seq<u8>>, int),
                Failure,
            >(e@),
        },
{
    let mut table = TextTable::new();
    match process_complete_sis_concurrent(xml.as_slice(), &mut table, true) {
        Ok(_) => Ok(table.finish()),
        Err(e) => Err((xml, e)),
    }
}

proof fn lemma_first_from_extended(a: Seq<u8>, b: Seq<u8>, needle: Seq<u8>, start: int)
    requires
        0 <= start,
    ensures
        first_from(a, needle, start) is Some ==> first_from(a + b, needle, start) == first_from(
            a,
            needle,
            start,
        ),
    decreases a.len() + 1 - start,
{
    if start + needle.len() <= a.len() {
        assert((a + b).subrange(start, start + needle.len()) =~= a.subrange(
            start,
            start + needle.len(),
        ));
        if !occurs_at(a, needle, start) {
            lemma_first_from_extended(a, b, needle, start + 1);
        }
    }
}

pub(crate) proof fn lemma_first_from_shifted(data: Seq<u8>, needle: Seq<u8>, k: int, start: int)
    requires
        0 <= start,
        0 <= k <= data.len(),
    ensures
        match first_from(data.skip(k), needle, start) {
            Some(at) => first_from(data, needle, start + k) == Some(at + k),
            None => first_from(data, needle, start + k) is None,
        },
    decreases data.len() + 1 - start - k,
{
    let rest = data.skip(k);
    if start + needle.len() <= rest.len() {
        assert(rest.subrange(start, start + needle.len()) =~= data.subrange(
            start + k,
            start + k + needle.len(),
        ));
        if !occurs_at(rest, needle, start) {
            lemma_first_from_shifted(data, needle, k, start + 1);
        }
    }
}

/// A scan that is moved on by `by` bytes.
pub open spec fn moved(
    scan: Result<(Seq<Seq<u8>>, int), Failure>,
    by: int,
) -> Result<(Seq<Seq<u8>>, int), Failure> {
    match scan {
        Ok((entries, at)) => Ok((entries, at + by)),
        Err(e) => Err(e),
    }
}

pub(crate) proof fn lemma_scan_shifted(
    data: Seq<u8>,
    k: int,
    at: int,
    at_eof: bool,
    entries: Seq<Seq<u8>>,
)
    requires
        0 <= at,
        0 <= k <= data.len(),
    ensures
        moved(entries_scan(data.skip(k), at, at_eof, entries), k) == entries_scan(
            data,
            at + k,
            at_eof,
            entries,
        ),
    decreases data.len() - k - at,
{
    let rest = data.skip(k);
    lemma_marker_lengths();
    if at < rest.len() {
        lemma_first_from(rest, bytes_of("<si>"), at);
        lemma_first_from_shifted(data, bytes_of("<si>"), k, at);
        match first_from(rest, bytes_of("<si>"), at) {
            None => {},
            Some(open) => {
                lemma_first_from(rest, bytes_of("</si>"), open + 4);
                lemma_first_from_shifted(data, bytes_of("</si>"), k, open + 4);
                match first_from(rest, bytes_of("</si>"), open + 4) {
                    None => {},
                    Some(end) => {
                        assert(rest.subrange(open + 4, end) =~= data.subrange(
                            open + k + 4,
                            end + k,
                        ));
                        match entry_scan(rest.subrange(open + 4, end)) {
                            EntryScan::Text(text) => {
                                lemma_scan_shifted(
                                    data,
                                    k,
                                    end + 5,
                                    at_eof,
                                    entries.push(text),
                                );
                            },
                            _ => {},
                        }
                    },
                }
            },
        }
    }
}

proof fn lemma_scan_extended(
    a: Seq<u8>,
    b: Seq<u8>,
    at: int,
    at_eof: bool,
    entries: Seq<Seq<u8>>,
)
    requires
        0 <= at <= a.len(),
    ensures
        match entries_scan(a, at, false, entries) {
            Ok((found, used)) => at <= used <= a.len() && entries_scan(a + b, at, at_eof, entries)
                == entries_scan(a + b, used, at_eof, found),
            Err(e) => entries_scan(a + b, at, at_eof, entries) == Err::<
                (Seq<Seq<u8>>, int),
                Failure,
            >(e),
        },
    decreases a.len() - at,
{
    lemma_marker_lengths();
    if at < a.len() {
        lemma_first_from(a, bytes_of("<si>"), at);
        lemma_first_from_extended(a, b, bytes_of("<si>"), at);
        match first_from(a, bytes_of("<si>"), at) {
            None => {},
            Some(open) => {
                lemma_first_from(a, bytes_of("</si>"), open + 4);
                lemma_first_from_extended(a, b, bytes_of("</si>"), open + 4);
                match first_from(a, bytes_of("</si>"), open + 4) {
                    None => {},
                    Some(end) => {
                        assert((a + b).subrange(open + 4, end) =~= a.subrange(open + 4, end));
                        match entry_scan(a.subrange(open + 4, end)) {
                            EntryScan::Text(text) => {
                                lemma_scan_extended(
                                    a,
                                    b,
                                    end + 5,
                                    at_eof,
                                    entries.push(text),
                                );
                            },
                            _ => {},
                        }
                    },
                }
            },
        }
    }
}

/// Scanning in pieces is scanning the whole: where the scan of a first piece
/// leaves off, the scan of what it left and the next piece comes to the same as
/// the scan of both pieces in one run. Where the first piece is refused, so is
/// the whole.
pub proof fn law_scanning_in_pieces(
    first: Seq<u8>,
    next: Seq<u8>,
    at_eof: bool,
    entries: Seq<Seq<u8>>,
)
    ensures
        match entries_scan(first, 0, false, entries) {
            Ok((found, used)) => moved(
                entries_scan(first.skip(used) + next, 0, at_eof, found),
                used,
            ) == entries_scan(first + next, 0, at_eof, entries),
            Err(e) => entries_scan(first + next, 0, at_eof, entries) == Err::<
                (Seq<Seq<u8>>, int),
                Failure,
            >(e),
        },
{
    lemma_scan_extended(first, next, 0, at_eof, entries);
    match entries_scan(first, 0, false, entries) {
        Ok((found, used)) => {
            assert((first + next).skip(used) =~= first.skip(used) + next);
            lemma_scan_shifted(first + next, used, 0, at_eof, found);
        },
        Err(_) => {},
    }
}

pub(crate) proof fn lemma_marker_bytes()
    ensures
        bytes_of("<si>") =~= seq![60u8, 115, 105, 62],
        bytes_of("</si>") =~= seq![60u8, 47, 115, 105, 62],
        bytes_of(">") =~= seq![62u8],
        bytes_of("</t>") =~= seq![60u8, 47, 116, 62],
        bytes_of("<t") =~= seq![60u8, 116],
        bytes_of("<r>") =~= seq![60u8, 114, 62],
        bytes_of("<![CDATA[").len() == 9,
        bytes_of("<![CDATA[")[0] == 60,
        bytes_of("<![CDATA[")[1] == 33,
{
    reveal_strlit("<si>");
    reveal_strlit("</si>");
    reveal_strlit(">");
    reveal_strlit("</t>");
    reveal_strlit("<t");
    reveal_strlit("<r>");
    reveal_strlit("<![CDATA[");
    is_ascii_chars_encode_utf8("<si>"@);
    is_ascii_chars_encode_utf8("</si>"@);
    is_ascii_chars_encode_utf8(">"@);
    is_ascii_chars_encode_utf8("</t>"@);
    is_ascii_chars_encode_utf8("<t"@);
    is_ascii_chars_encode_utf8("<r>"@);
    is_ascii_chars_encode_utf8("<![CDATA["@);
}

/// The bytes of all pieces, one after the other.
pub open spec fn joined(pieces: Seq<Seq<u8>>) -> Seq<u8>
    decreases pieces.len(),
{
    if pieces.len() == 0 {
        Seq::empty()
    } else {
        pieces[0] + joined(pieces.skip(1))
    }
}

/// The entries of a scan.
pub open spec fn entries_of(scan: Result<(Seq<Seq<u8>>, int), Failure>) -> Result<
    Seq<Seq<u8>>,
    Failure,
> {
    match scan {
        Ok((entries, _)) => Ok(entries),
        Err(e) => Err(e),
    }
}

/// What comes of pieces that are scanned as they arrive, after `rest` was left
/// over of earlier ones.
pub open spec fn pieces_scan(pieces: Seq<Seq<u8>>, rest: Seq<u8>, entries: Seq<Seq<u8>>) -> Result<
    Seq<Seq<u8>>,
    Failure,
>
    decreases pieces.len(),
{
    if pieces.len() == 0 {
        entries_of(entries_scan(rest, 0, true, entries))
    } else {
        match entries_scan(rest + pieces[0], 0, false, entries) {
            Err(e) => Err(e),
            Ok((found, used)) => pieces_scan(
                pieces.skip(1),
                (rest + pieces[0]).skip(used),
                found,
            ),
        }
    }
}

/// However the data is cut into pieces, scanning the pieces as they arrive finds
/// the entries that a scan of the whole data finds, and fails where that fails.
pub proof fn law_pieces_make_the_whole(
    pieces: Seq<Seq<u8>>,
    rest: Seq<u8>,
    entries: Seq<Seq<u8>>,
)
    ensures
        pieces_scan(pieces, rest, entries) == entries_of(
            entries_scan(rest + joined(pieces), 0, true, entries),
        ),
    decreases pieces.len(),
{
    if pieces.len() == 0 {
        assert(rest + joined(pieces) =~= rest);
    } else {
        let first = rest + pieces[0];
        let next = joined(pieces.skip(1));
        assert(rest + joined(pieces) =~= first + next);
        law_scanning_in_pieces(first, next, true, entries);
        match entries_scan(first, 0, false, entries) {
            Ok((found, used)) => {
                law_pieces_make_the_whole(pieces.skip(1), first.skip(used), found);
            },
            Err(_) => {},
        }
    }
}

/// The scanner of shared strings that arrive in pieces.
#[derive(Debug)]
pub struct PieceScanner {
    accumulate: Vec<u8>,
    table: TextTable,
}

impl PieceScanner {
    pub closed spec fn wf(&self) -> bool {
        self.table.wf()
    }

    /// The bytes that were left over of the pieces so far.
    pub closed spec fn rest(&self) -> Seq<u8> {
        self.accumulate@
    }

    /// The entries found so far.
    pub closed spec fn entries(&self) -> Seq<Seq<u8>> {
        self.table@
    }

    pub fn new() -> (scanner: Self)
        ensures
            scanner.wf(),
            scanner.rest() == Seq::<u8>::empty(),
            scanner.entries() == Seq::<Seq<u8>>::empty(),
    {
        PieceScanner { accumulate: Vec::new(), table: TextTable::new() }
    }

    /// Takes the next piece.
    pub fn take(&mut self, piece: &[u8]) -> (taken: Result<(), XlsxError>)
        requires
            old(self).wf(),
        ensures
            final(self).wf(),
            match taken {
                Ok(_) => entries_scan(
                    old(self).rest() + piece@,
                    0,
                    false,
                    old(self).entries(),
                ) matches Ok((found, used)) && final(self).entries() == found && final(self).rest()
                    == (old(self).rest() + piece@).skip(used),
                Err(e) => entries_scan(
                    old(self).rest() + piece@,
                    0,
                    false,
                    old(self).entries(),
                ) == Err::<(Seq<Seq<u8>>, int), Failure>(e@)
                    && final(self).rest() == old(self).rest() + piece@
                    && final(self).entries() == entries_scanned(
                    old(self).rest() + piece@,
                    0,
                    old(self).entries(),
                ),
            },
    {
        self.accumulate.extend_from_slice(piece);
        assert(self.accumulate@ =~= old(self).accumulate@ + piece@);
        match process_complete_sis_concurrent(
            self.accumulate.as_slice(),
            &mut self.table,
            false,
        ) {
            Err(e) => Err(e),
            Ok(used) => {
                let rest = copy_range(self.accumulate.as_slice(), used, self.accumulate.len());
                assert(rest@ =~= self.accumulate@.skip(used as int));
                self.accumulate = rest;
                Ok(())
            },
        }
    }

    /// Scans what is left over and hands out the table.
    pub fn finish(self) -> (strings: Result<SharedStrings, XlsxError>)
        requires
            self.wf(),
        ensures
            match strings {
                Ok(s) => s.wf() && contiguous(s)
                    && entries_of(entries_scan(self.rest(), 0, true, self.entries()))
                    == Ok::<Seq<Seq<u8>>, Failure>(s.entries()),
                Err(e) => entries_of(entries_scan(self.rest(), 0, true, self.entries())) == Err::<
                    Seq<Seq<u8>>,
                    Failure,
                >(e@),
            },
    {
        let mut table = self.table;
        match process_complete_sis_concurrent(self.accumulate.as_slice(), &mut table, true) {
            Err(e) => Err(e),
            Ok(_) => Ok(table.finish()),
        }
    }
}

} // verus!
