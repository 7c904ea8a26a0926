//! The Arrow containers that hold column data.

use crate::series::{series_items, series_name, series_type};
use crate::text::{copy_range, utf8_text};
use crate::typed_col::{text_items, DataType};
use polars::prelude::{IntoSeries, Series, StringChunked};
use polars_arrow::array::{Array, BinaryViewArrayGeneric, MutableBinaryViewArray};
use polars_arrow::bitmap::MutableBitmap;
use polars_buffer::Buffer;
use vstd::prelude::*;
use vstd::utf8::*;

verus! {

/// A growable sequence of bits, of `polars_arrow`.
#[verifier::external_type_specification]
#[verifier::external_body]
pub struct ExMutableBitmap(MutableBitmap);

/// A growable array of optional texts: a `MutableBinaryViewArray<str>` of
/// `polars_arrow`.
#[verifier::external_body]
#[derive(Debug)]
pub struct TextArray {
    inner: MutableBinaryViewArray<str>,
}

/// An array of optional texts that no longer grows: a
/// `BinaryViewArrayGeneric<str>` of `polars_arrow`.
#[verifier::external_body]
pub struct FrozenTexts {
    inner: BinaryViewArrayGeneric<str>,
}

/// A shared run of memory, of `polars_buffer`.
#[verifier::external_type_specification]
#[verifier::external_body]
#[verifier::reject_recursive_types(T)]
pub struct ExBuffer<T>(Buffer<T>);

/// The bits of a bitmap.
pub uninterp spec fn bits(bitmap: MutableBitmap) -> Seq<bool>;

/// The entries of a growable text array, `None` where an entry is null.
pub uninterp spec fn texts(array: TextArray) -> Seq<Option<Seq<char>>>;

/// The number of buffers that are full or were taken over from elsewhere.
pub uninterp spec fn whole_buffers(array: TextArray) -> nat;

/// The bytes in all buffers of an array. Texts of up to twelve bytes stand in
/// no buffer.
pub uninterp spec fn buffered_bytes(array: TextArray) -> nat;

/// The entries of a frozen text array, `None` where an entry is null.
pub uninterp spec fn frozen_texts(array: FrozenTexts) -> Seq<Option<Seq<char>>>;

/// The bytes of a buffer.
pub uninterp spec fn buffer_bytes(buffer: Buffer<u8>) -> Seq<u8>;

/// The most entries that space is reserved for in advance.
pub const RESERVE_LIMIT: usize = 0x0400_0000;

/// `MutableBitmap::with_capacity`: an empty bitmap.
#[verifier::external_body]
pub(crate) fn new_bitmap(capacity: usize) -> (bitmap: MutableBitmap)
    requires
        capacity <= RESERVE_LIMIT,
    ensures
        bits(bitmap) == Seq::<bool>::empty(),
{
    MutableBitmap::with_capacity(capacity)
}

/// `MutableBitmap::push`: appends one bit.
#[verifier::external_body]
pub(crate) fn push_bit(bitmap: &mut MutableBitmap, value: bool)
    ensures
        bits(*final(bitmap)) == bits(*old(bitmap)).push(value),
{
    bitmap.push(value)
}

/// `MutableBitmap::get`: the bit at an index.
#[verifier::external_body]
pub(crate) fn bit_at(bitmap: &MutableBitmap, index: usize) -> (value: bool)
    requires
        index < bits(*bitmap).len(),
    ensures
        value == bits(*bitmap)[index as int],
{
    bitmap.get(index)
}

/// `MutableBinaryViewArray::with_capacity`: an empty array.
#[verifier::external_body]
pub(crate) fn new_texts(capacity: usize) -> (array: TextArray)
    requires
        capacity <= RESERVE_LIMIT,
    ensures
        texts(array) == Seq::<Option<Seq<char>>>::empty(),
        whole_buffers(array) == 0,
        buffered_bytes(array) == 0,
{
    TextArray { inner: MutableBinaryViewArray::with_capacity(capacity) }
}

/// `MutableBinaryViewArray::len`: the number of entries.
#[verifier::external_body]
pub(crate) fn texts_len(array: &TextArray) -> (len: usize)
    ensures
        len == texts(*array).len(),
{
    array.inner.len()
}

/// `MutableBinaryViewArray::push_value`: appends a text. A text of more than
/// `u32::MAX` bytes would make it panic.
#[verifier::external_body]
pub(crate) fn push_text(array: &mut TextArray, value: &str)
    requires
        encode_utf8(value@).len() <= u32::MAX,
    ensures
        texts(*final(array)) == texts(*old(array)).push(Some(value@)),
{
    array.inner.push_value(value)
}

/// `MutableBinaryViewArray::push_null`: appends a null.
#[verifier::external_body]
pub(crate) fn push_null_text(array: &mut TextArray)
    ensures
        texts(*final(array)) == texts(*old(array)).push(None),
{
    array.inner.push_null()
}

/// `MutableBinaryViewArray::freeze`: the same entries in an array that no longer
/// grows.
#[verifier::external_body]
pub(crate) fn freeze(array: TextArray) -> (frozen: FrozenTexts)
    ensures
        frozen_texts(frozen) == texts(array),
{
    FrozenTexts { inner: array.inner.freeze() }
}

/// `BinaryViewArrayGeneric::len`: the number of entries.
#[verifier::external_body]
pub(crate) fn frozen_len(frozen: &FrozenTexts) -> (len: usize)
    ensures
        len == frozen_texts(*frozen).len(),
{
    frozen.inner.len()
}

/// `Array::is_null` of a frozen text array: whether an entry is null.
#[verifier::external_body]
pub(crate) fn frozen_is_null(frozen: &FrozenTexts, index: usize) -> (null: bool)
    requires
        index < frozen_texts(*frozen).len(),
    ensures
        null == (frozen_texts(*frozen)[index as int] is None),
{
    frozen.inner.is_null(index)
}

/// `BinaryViewArrayGeneric::value`: the text of an entry that is not null.
#[verifier::external_body]
pub(crate) fn frozen_value(frozen: &FrozenTexts, index: usize) -> (text: &str)
    requires
        index < frozen_texts(*frozen).len(),
    ensures
        frozen_texts(*frozen)[index as int] is Some ==> frozen_texts(*frozen)[index as int]
            == Some(text@),
{
    frozen.inner.value(index)
}

/// `StringChunked::with_chunk` on the frozen array: a series of texts. With
/// `u32::MAX` entries or more it would panic.
#[verifier::external_body]
pub(crate) fn text_series(name: &str, array: TextArray) -> (series: Series)
    requires
        texts(array).len() < u32::MAX,
    ensures
        series_items(series) == text_items(texts(array)),
        series_name(series) == name@,
        series_type(series) == DataType::String,
{
    StringChunked::with_chunk(name.into(), array.inner.freeze()).into_series()
}

/// `Buffer::from_vec`: a buffer that holds the bytes.
#[verifier::external_body]
pub(crate) fn buffer_of(bytes: Vec<u8>) -> (buffer: Buffer<u8>)
    ensures
        buffer_bytes(buffer) == bytes@,
{
    Buffer::from_vec(bytes)
}

/// `Buffer::as_slice`: the bytes of a buffer.
#[verifier::external_body]
pub(crate) fn buffer_slice(buffer: &Buffer<u8>) -> (bytes: &[u8])
    ensures
        bytes@ == buffer_bytes(*buffer),
{
    buffer.as_slice()
}

/// `MutableBinaryViewArray::completed_buffers`: the number of whole buffers.
#[verifier::external_body]
pub(crate) fn count_buffers(array: &TextArray) -> (count: usize)
    ensures
        count == whole_buffers(*array),
{
    array.inner.completed_buffers().len()
}

/// `MutableBinaryViewArray::total_buffer_len`: the bytes in all buffers.
#[verifier::external_body]
pub(crate) fn count_bytes(array: &TextArray) -> (count: usize)
    ensures
        count == buffered_bytes(*array),
{
    array.inner.total_buffer_len()
}

/// The shared strings: all texts in one buffer, and the offset and the length
/// of each, so that column data can refer to them without a copy.
#[derive(Debug)]
pub struct SharedStrings {
    buffer: Buffer<u8>,
    offsets: Vec<(u32, u32)>,
}

/// Whether an offset and a length lie inside a run of bytes.
pub open spec fn lies_inside(bytes: Seq<u8>, offset: (u32, u32)) -> bool {
    offset.0 + offset.1 <= bytes.len()
}

/// What an offset and a length cut out of a run of bytes.
pub open spec fn cut(bytes: Seq<u8>, offset: (u32, u32)) -> Seq<u8> {
    bytes.subrange(offset.0 as int, offset.0 + offset.1)
}

/// What offsets cut out of a run of bytes.
pub open spec fn cuts(bytes: Seq<u8>, offsets: Seq<(u32, u32)>) -> Seq<Seq<u8>> {
    offsets.map_values(|offset: (u32, u32)| cut(bytes, offset))
}

/// The text of an entry, empty where its bytes are not UTF-8.
pub open spec fn text_of(entry: Seq<u8>) -> Seq<char> {
    if valid_utf8(entry) {
        decode_utf8(entry)
    } else {
        Seq::empty()
    }
}

/// The texts of entries.
pub open spec fn texts_of(entries: Seq<Seq<u8>>) -> Seq<Seq<char>> {
    entries.map_values(|entry: Seq<u8>| text_of(entry))
}

impl View for SharedStrings {
    type V = Seq<Seq<char>>;

    open spec fn view(&self) -> Seq<Seq<char>> {
        texts_of(self.entries())
    }
}

impl SharedStrings {
    /// The bytes of the entries.
    pub closed spec fn entries(&self) -> Seq<Seq<u8>> {
        cuts(buffer_bytes(self.buffer), self.offsets@)
    }

    /// Whether every entry lies inside the buffer.
    pub closed spec fn wf(&self) -> bool {
        forall|i: int|
            0 <= i < self.offsets.len() ==> lies_inside(
                buffer_bytes(self.buffer),
                #[trigger] self.offsets[i],
            )
    }

    /// The table of the entries that `offsets`, each with a length, cut out of
    /// `buffer`.
    pub fn new(buffer: Vec<u8>, offsets: Vec<(u32, u32)>) -> (strings: Self)
        requires
            forall|i: int| 0 <= i < offsets.len() ==> lies_inside(buffer@, #[trigger] offsets[i]),
        ensures
            strings.wf(),
            strings.entries() == cuts(buffer@, offsets@),
            strings.size() == buffer.len(),
            forall|i: int|
                0 <= i < offsets.len() ==> #[trigger] strings.start(i) == offsets[i].0,
            forall|i: int|
                0 <= i < offsets.len() ==> #[trigger] strings.length(i) == offsets[i].1,
    {
        SharedStrings { buffer: buffer_of(buffer), offsets }
    }

    /// Where an entry starts in the buffer.
    pub closed spec fn start(&self, index: int) -> int {
        self.offsets[index].0 as int
    }

    /// The length in bytes of an entry.
    pub closed spec fn length(&self, index: int) -> int {
        self.offsets[index].1 as int
    }

    /// The bytes of the buffer that holds the entries.
    pub closed spec fn size(&self) -> int {
        buffer_bytes(self.buffer).len() as int
    }

    /// The number of entries.
    pub fn len(&self) -> (n: usize)
        ensures
            n == self@.len(),
    {
        self.offsets.len()
    }

    /// The text of an entry, empty where its bytes are not UTF-8.
    pub fn get(&self, index: usize) -> (text: Option<String>)
        requires
            self.wf(),
        ensures
            match text {
                Some(t) => index < self@.len() && t@ == self@[index as int],
                None => index >= self@.len(),
            },
    {
        if index >= self.offsets.len() {
            return None;
        }
        let (offset, len) = self.offsets[index];
        let bytes = buffer_slice(&self.buffer);
        assert(lies_inside(bytes@, self.offsets[index as int]));
        let total: usize = bytes.len();
        assert(offset + len <= total);
        let copy = copy_range(bytes, offset as usize, offset as usize + len as usize);
        match utf8_text(copy.as_slice()) {
            Some(t) => Some(t.to_owned()),
            None => Some(String::new()),
        }
    }
}

/// `MutableBinaryViewArray::push_view` with a view that `View::new_from_bytes` makes
/// of a text and its offset in the buffer of the shared strings: appends the text. A
/// text of more than twelve bytes is not copied but referred to in the buffer, which
/// the array takes over the first time.
#[verifier::external_body]
fn push_view(array: &mut TextArray, strings: &SharedStrings, offset: u32, text: &[u8])
    requires
        valid_utf8(text@),
        text.len() <= u32::MAX,
        offset + text.len() <= buffer_bytes(strings.buffer).len(),
        text@ == buffer_bytes(strings.buffer).subrange(offset as int, offset + text.len()),
    ensures
        texts(*final(array)) == texts(*old(array)).push(Some(decode_utf8(text@))),
        text.len() <= 12 ==> whole_buffers(*final(array)) == whole_buffers(*old(array))
            && buffered_bytes(*final(array)) == buffered_bytes(*old(array)),
        text.len() > 12 && whole_buffers(*old(array)) == 0 && buffered_bytes(*old(array)) == 0
            ==> whole_buffers(*final(array)) == 1 && buffered_bytes(*final(array))
            == buffer_bytes(strings.buffer).len(),
{
    let view = polars_arrow::array::View::new_from_bytes(text, 0, offset);
    array.inner.push_view(view, std::slice::from_ref(&strings.buffer));
}

/// Appends a shared string. A text of more than twelve bytes is not copied but
/// referred to in the buffer of the shared strings.
pub(crate) fn push_shared_text(array: &mut TextArray, strings: &SharedStrings, index: usize)
    requires
        strings.wf(),
        index < strings@.len(),
    ensures
        texts(*final(array)) == texts(*old(array)).push(Some(strings@[index as int])),
        encode_utf8(strings@[index as int]).len() <= 12 ==> whole_buffers(*final(array))
            == whole_buffers(*old(array)) && buffered_bytes(*final(array)) == buffered_bytes(
            *old(array),
        ),
        encode_utf8(strings@[index as int]).len() > 12 && whole_buffers(*old(array)) == 0
            && buffered_bytes(*old(array)) == 0 ==> whole_buffers(*final(array)) == 1
            && buffered_bytes(*final(array)) == strings.size(),
{
    let (offset, len) = strings.offsets[index];
    let bytes = buffer_slice(&strings.buffer);
    assert(lies_inside(bytes@, strings.offsets[index as int]));
    let total: usize = bytes.len();
    assert(offset + len <= total);
    let start: usize = offset as usize;
    let entry = vstd::slice::slice_subrange(bytes, start, start + len as usize);
    assert(entry@ == strings.entries()[index as int]);
    if utf8_text(entry).is_some() {
        proof {
            decode_utf8_encode_utf8(entry@);
        }
        push_view(array, strings, offset, entry);
    } else {
        let empty = vstd::slice::slice_subrange(bytes, start, start);
        proof {
            let none = Seq::<char>::empty();
            assert(encode_utf8(none) =~= empty@);
            encode_utf8_valid_utf8(none);
            encode_utf8_decode_utf8(none);
        }
        push_view(array, strings, offset, empty);
    }
}

/// The text of an entry is the one that its bytes encode, and empty where they encode none.
pub proof fn law_entries_read_back(text: Seq<char>, entry: Seq<u8>)
    ensures
        text_of(encode_utf8(text)) == text,
        !valid_utf8(entry) ==> text_of(entry).len() == 0,
        valid_utf8(entry) ==> encode_utf8(text_of(entry)) == entry,
{
    encode_utf8_valid_utf8(text);
    encode_utf8_decode_utf8(text);
    if valid_utf8(entry) {
        decode_utf8_encode_utf8(entry);
    }
}

} // verus!
