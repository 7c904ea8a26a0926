//! Text helpers shared by the readers: comparison, decimal notation and the
//! decoding of bytes.

use vstd::prelude::*;
use vstd::utf8::*;

verus! {

/// The character of one decimal digit.
pub open spec fn digit_char(d: nat) -> char {
    (48 + d) as char
}

/// The decimal notation of a natural number, without leading zeros.
pub open spec fn decimal_digits(n: nat) -> Seq<char>
    decreases n,
{
    if n < 10 {
        seq![digit_char(n)]
    } else {
        decimal_digits(n / 10).push(digit_char(n % 10))
    }
}

/// The decimal notation of an integer, with a leading minus sign where it is
/// negative.
pub open spec fn decimal(n: int) -> Seq<char> {
    if n < 0 {
        seq!['-'] + decimal_digits((-n) as nat)
    } else {
        decimal_digits(n as nat)
    }
}

fn digit_str(d: u64) -> (text: &'static str)
    requires
        d < 10,
    ensures
        text@ =~= seq![digit_char(d as nat)],
{
    proof {
        reveal_strlit("0");
        reveal_strlit("1");
        reveal_strlit("2");
        reveal_strlit("3");
        reveal_strlit("4");
        reveal_strlit("5");
        reveal_strlit("6");
        reveal_strlit("7");
        reveal_strlit("8");
        reveal_strlit("9");
    }
    if d == 0 {
        "0"
    } else if d == 1 {
        "1"
    } else if d == 2 {
        "2"
    } else if d == 3 {
        "3"
    } else if d == 4 {
        "4"
    } else if d == 5 {
        "5"
    } else if d == 6 {
        "6"
    } else if d == 7 {
        "7"
    } else if d == 8 {
        "8"
    } else {
        "9"
    }
}

/// Appends the decimal notation of `n`.
pub fn push_decimal(out: &mut String, n: u64)
    ensures
        final(out)@ == old(out)@ + decimal_digits(n as nat),
    decreases n,
{
    if n >= 10 {
        push_decimal(out, n / 10);
    }
    out.append(digit_str(n % 10));
    assert(out@ =~= old(out)@ + decimal_digits(n as nat));
}

/// The decimal notation of a signed integer.
pub fn decimal_text(n: i64) -> (text: String)
    ensures
        text@ == decimal(n as int),
{
    let mut out = String::new();
    if n < 0 {
        out.append("-");
        proof {
            reveal_strlit("-");
        }
        let magnitude: u64 = (-(n as i128)) as u64;
        push_decimal(&mut out, magnitude);
        assert(out@ =~= decimal(n as int));
    } else {
        push_decimal(&mut out, n as u64);
        assert(out@ =~= decimal(n as int));
    }
    out
}

/// The UTF-8 bytes of a text.
pub open spec fn bytes_of(text: &str) -> Seq<u8> {
    encode_utf8(text@)
}

/// Whether two byte slices hold the same bytes.
pub fn same_bytes(a: &[u8], b: &[u8]) -> (same: bool)
    ensures
        same == (a@ == b@),
{
    if a.len() != b.len() {
        return false;
    }
    let mut i: usize = 0;
    while i < a.len()
        invariant
            i <= a.len(),
            a.len() == b.len(),
            forall|j: int| 0 <= j < i ==> a@[j] == b@[j],
        decreases a.len() - i,
    {
        if a[i] != b[i] {
            return false;
        }
        i += 1;
    }
    assert(a@ =~= b@);
    true
}

/// Two texts with the same UTF-8 bytes are the same text.
pub proof fn lemma_encoding_is_injective(a: Seq<char>, b: Seq<char>)
    ensures
        encode_utf8(a) == encode_utf8(b) <==> a == b,
{
    encode_utf8_decode_utf8(a);
    encode_utf8_decode_utf8(b);
}

/// Whether two texts are equal.
pub fn same_text(a: &str, b: &str) -> (same: bool)
    ensures
        same == (a@ == b@),
{
    proof {
        lemma_encoding_is_injective(a@, b@);
    }
    same_bytes(a.as_bytes(), b.as_bytes())
}

/// Whether `needle` stands in `haystack` at position `at`.
pub open spec fn occurs_at(haystack: Seq<u8>, needle: Seq<u8>, at: int) -> bool {
    0 <= at && at + needle.len() <= haystack.len() && haystack.subrange(at, at + needle.len())
        == needle
}

/// The first position from `start` on at which `needle` stands.
pub open spec fn first_from(haystack: Seq<u8>, needle: Seq<u8>, start: int) -> Option<int>
    decreases haystack.len() + 1 - start,
{
    if start + needle.len() > haystack.len() {
        None
    } else if occurs_at(haystack, needle, start) {
        Some(start)
    } else {
        first_from(haystack, needle, start + 1)
    }
}

/// `first_from` names an occurrence, and there is none before it.
pub proof fn lemma_first_from(haystack: Seq<u8>, needle: Seq<u8>, start: int)
    requires
        0 <= start,
    ensures
        match first_from(haystack, needle, start) {
            Some(at) => start <= at && occurs_at(haystack, needle, at) && forall|j: int|
                start <= j < at ==> !#[trigger] occurs_at(haystack, needle, j),
            None => forall|j: int| start <= j ==> !#[trigger] occurs_at(haystack, needle, j),
        },
    decreases haystack.len() + 1 - start,
{
    if start + needle.len() <= haystack.len() && !occurs_at(haystack, needle, start) {
        lemma_first_from(haystack, needle, start + 1);
    }
}

/// The first position from `start` on at which `needle` stands.
pub fn find_from(haystack: &[u8], needle: &[u8], start: usize) -> (found: Option<usize>)
    requires
        start <= haystack.len(),
    ensures
        match found {
            Some(at) => first_from(haystack@, needle@, start as int) == Some(at as int) && start
                <= at && at + needle.len() <= haystack.len(),
            None => first_from(haystack@, needle@, start as int) is None,
        },
{
    let mut at: usize = start;
    while needle.len() <= haystack.len() - at
        invariant
            start <= at <= haystack.len(),
            first_from(haystack@, needle@, start as int) == first_from(
                haystack@,
                needle@,
                at as int,
            ),
        decreases haystack.len() - at,
    {
        let mut k: usize = 0;
        while k < needle.len() && haystack[at + k] == needle[k]
            invariant
                k <= needle.len(),
                at + needle.len() <= haystack.len(),
                forall|j: int| 0 <= j < k ==> haystack@[at + j] == needle@[j],
            decreases needle.len() - k,
        {
            k += 1;
        }
        if k == needle.len() {
            assert(haystack@.subrange(at as int, at + needle.len()) =~= needle@);
            return Some(at);
        }
        assert(haystack@.subrange(at as int, at + needle.len())[k as int] == haystack@[at + k]);
        if at == haystack.len() {
            return None;
        }
        at += 1;
    }
    None
}

/// The first position at which `needle` stands in `haystack`.
pub fn find_subsequence(haystack: &[u8], needle: &[u8]) -> (found: Option<usize>)
    ensures
        match found {
            Some(at) => first_from(haystack@, needle@, 0) == Some(at as int) && at + needle.len()
                <= haystack.len(),
            None => first_from(haystack@, needle@, 0) is None,
        },
{
    find_from(haystack, needle, 0)
}

/// The first position from `start` on that holds `byte`; the length where no
/// position does.
pub open spec fn byte_from(bytes: Seq<u8>, byte: u8, start: int) -> int
    decreases bytes.len() - start,
{
    if start >= bytes.len() {
        bytes.len() as int
    } else if bytes[start] == byte {
        start
    } else {
        byte_from(bytes, byte, start + 1)
    }
}

/// The first position from `start` on that holds `byte`; the length where no
/// position does.
pub fn find_byte(bytes: &[u8], byte: u8, start: usize) -> (at: usize)
    requires
        start <= bytes.len(),
    ensures
        at == byte_from(bytes@, byte, start as int),
        start <= at <= bytes.len(),
        forall|j: int| start <= j < at ==> bytes@[j] != byte,
        at < bytes.len() ==> bytes@[at as int] == byte,
{
    let mut at: usize = start;
    while at < bytes.len() && bytes[at] != byte
        invariant
            start <= at <= bytes.len(),
            byte_from(bytes@, byte, start as int) == byte_from(bytes@, byte, at as int),
            forall|j: int| start <= j < at ==> bytes@[j] != byte,
        decreases bytes.len() - at,
    {
        at += 1;
    }
    at
}

/// A copy of the bytes from `start` to `end`.
pub fn copy_range(bytes: &[u8], start: usize, end: usize) -> (copy: Vec<u8>)
    requires
        start <= end <= bytes.len(),
    ensures
        copy@ == bytes@.subrange(start as int, end as int),
{
    let mut copy: Vec<u8> = Vec::with_capacity(end - start);
    let mut i: usize = start;
    while i < end
        invariant
            start <= i <= end <= bytes.len(),
            copy@ == bytes@.subrange(start as int, i as int),
        decreases end - i,
    {
        copy.push(bytes[i]);
        i += 1;
        assert(copy@ =~= bytes@.subrange(start as int, i as int));
    }
    copy
}

/// Whether every byte is an ASCII digit.
pub open spec fn all_digits(bytes: Seq<u8>) -> bool {
    forall|i: int| 0 <= i < bytes.len() ==> 48 <= #[trigger] bytes[i] <= 57
}

/// The number that a run of ASCII digits denotes.
pub open spec fn digits_value(bytes: Seq<u8>) -> int
    decreases bytes.len(),
{
    if bytes.len() == 0 {
        0
    } else {
        digits_value(bytes.drop_last()) * 10 + (bytes.last() - 48)
    }
}

/// The number that a non-empty run of ASCII digits denotes, where it is at most
/// `max`.
pub open spec fn digits_up_to(bytes: Seq<u8>, max: int) -> Option<int> {
    if bytes.len() > 0 && all_digits(bytes) && digits_value(bytes) <= max {
        Some(digits_value(bytes))
    } else {
        None
    }
}

/// The unsigned integer that a text denotes: digits, with at most one plus sign
/// before them, and a value of at most `max`.
pub open spec fn unsigned_value(bytes: Seq<u8>, max: int) -> Option<int> {
    if bytes.len() > 0 && bytes[0] == 43 {
        digits_up_to(bytes.skip(1), max)
    } else {
        digits_up_to(bytes, max)
    }
}

/// The 64-bit integer that a text denotes: digits, with at most one sign before
/// them.
pub open spec fn signed_value(bytes: Seq<u8>) -> Option<int> {
    if bytes.len() > 0 && bytes[0] == 45 {
        match digits_up_to(bytes.skip(1), 0x8000_0000_0000_0000) {
            Some(n) => Some(-n),
            None => None,
        }
    } else {
        unsigned_value(bytes, 0x7fff_ffff_ffff_ffff)
    }
}

proof fn lemma_digits_value_grows(bytes: Seq<u8>, k: int)
    requires
        all_digits(bytes),
        0 <= k <= bytes.len(),
    ensures
        0 <= digits_value(bytes.take(k)) <= digits_value(bytes),
    decreases bytes.len(),
{
    if k == bytes.len() {
        assert(bytes.take(k) =~= bytes);
        if bytes.len() > 0 {
            lemma_digits_value_grows(bytes.drop_last(), bytes.len() - 1);
            assert(bytes.drop_last().take(bytes.len() - 1) =~= bytes.drop_last());
        }
    } else {
        lemma_digits_value_grows(bytes.drop_last(), k);
        assert(bytes.drop_last().take(k) =~= bytes.take(k));
        lemma_digits_value_grows(bytes.drop_last(), bytes.len() - 1);
        assert(bytes.drop_last().take(bytes.len() - 1) =~= bytes.drop_last());
    }
}

fn parse_digits(bytes: &[u8], start: usize, max: u64) -> (value: Option<u64>)
    requires
        start <= bytes.len(),
        max <= 0x8000_0000_0000_0000 || max == u64::MAX,
    ensures
        match value {
            Some(n) => digits_up_to(bytes@.skip(start as int), max as int) == Some(n as int),
            None => digits_up_to(bytes@.skip(start as int), max as int) is None,
        },
{
    let ghost run = bytes@.skip(start as int);
    if start == bytes.len() {
        return None;
    }
    let mut value: u64 = 0;
    let mut i: usize = start;
    while i < bytes.len()
        invariant
            start <= i <= bytes.len(),
            run == bytes@.skip(start as int),
            value <= max,
            value == digits_value(run.take(i - start)),
            all_digits(run.take(i - start)),
        decreases bytes.len() - i,
    {
        let b: u8 = bytes[i];
        assert(run[i - start] == b);
        if b < 48 || b > 57 {
            return None;
        }
        let next: u128 = value as u128 * 10 + (b - 48) as u128;
        proof {
            let grown = run.take(i - start + 1);
            assert(grown.drop_last() =~= run.take(i - start));
            assert(grown.last() == b);
            assert(next == digits_value(grown));
            assert forall|k: int| 0 <= k < grown.len() implies 48 <= #[trigger] grown[k] <= 57 by {
                if k < i - start {
                    assert(grown[k] == run.take(i - start)[k]);
                }
            }
            if next > max && all_digits(run) {
                lemma_digits_value_grows(run, i - start + 1);
            }
        }
        if next > max as u128 {
            return None;
        }
        value = next as u64;
        i += 1;
    }
    assert(run.take(i - start) =~= run);
    Some(value)
}

/// Reads an unsigned integer of at most `max`.
pub fn parse_unsigned(bytes: &[u8], max: u64) -> (value: Option<u64>)
    requires
        max <= 0x8000_0000_0000_0000 || max == u64::MAX,
    ensures
        match value {
            Some(n) => unsigned_value(bytes@, max as int) == Some(n as int),
            None => unsigned_value(bytes@, max as int) is None,
        },
{
    if bytes.len() > 0 && bytes[0] == 43 {
        parse_digits(bytes, 1, max)
    } else {
        assert(bytes@.skip(0) =~= bytes@);
        parse_digits(bytes, 0, max)
    }
}

/// Reads a 32-bit unsigned integer.
pub fn parse_u32(bytes: &[u8]) -> (value: Option<u32>)
    ensures
        match value {
            Some(n) => unsigned_value(bytes@, u32::MAX as int) == Some(n as int),
            None => unsigned_value(bytes@, u32::MAX as int) is None,
        },
{
    match parse_unsigned(bytes, u32::MAX as u64) {
        Some(n) => Some(n as u32),
        None => None,
    }
}

/// Reads an unsigned integer of the width of an index.
pub fn parse_usize(bytes: &[u8]) -> (value: Option<usize>)
    ensures
        match value {
            Some(n) => unsigned_value(bytes@, usize::MAX as int) == Some(n as int),
            None => unsigned_value(bytes@, usize::MAX as int) is None,
        },
{
    match parse_unsigned(bytes, usize::MAX as u64) {
        Some(n) => Some(n as usize),
        None => None,
    }
}

/// Reads a 64-bit signed integer.
pub fn parse_i64(bytes: &[u8]) -> (value: Option<i64>)
    ensures
        match value {
            Some(n) => signed_value(bytes@) == Some(n as int),
            None => signed_value(bytes@) is None,
        },
{
    if bytes.len() > 0 && bytes[0] == 45 {
        match parse_digits(bytes, 1, 0x8000_0000_0000_0000) {
            Some(n) => Some((-(n as i128)) as i64),
            None => None,
        }
    } else {
        match parse_unsigned(bytes, 0x7fff_ffff_ffff_ffff) {
            Some(n) => Some(n as i64),
            None => None,
        }
    }
}

/// `std::str::from_utf8`: the text that bytes encode, `None` exactly where they
/// are not valid UTF-8.
#[verifier::external_body]
pub(crate) fn utf8_text(bytes: &[u8]) -> (text: Option<&str>)
    ensures
        match text {
            Some(t) => valid_utf8(bytes@) && t@ == decode_utf8(bytes@),
            None => !valid_utf8(bytes@),
        },
{
    std::str::from_utf8(bytes).ok()
}

/// What `String::from_utf8_lossy` makes of bytes.
pub uninterp spec fn lossy_text(bytes: Seq<u8>) -> Seq<char>;

/// `String::from_utf8_lossy`: the text that bytes encode, with a replacement
/// character for each invalid part. Bytes that are valid UTF-8 keep their text.
#[verifier::external_body]
pub(crate) fn decode_lossy(bytes: &[u8]) -> (text: String)
    ensures
        text@ == lossy_text(bytes@),
        valid_utf8(bytes@) ==> text@ == decode_utf8(bytes@),
{
    String::from_utf8_lossy(bytes).into_owned()
}

/// What `str::to_lowercase` makes of a text.
pub uninterp spec fn lowercase_of(text: Seq<char>) -> Seq<char>;

/// An ASCII capital letter in lower case; any other character as it is.
pub open spec fn ascii_lower(c: char) -> char {
    if 'A' <= c <= 'Z' {
        (c as u32 + 32) as char
    } else {
        c
    }
}

/// A text with its ASCII capital letters in lower case.
pub open spec fn ascii_lowered(text: Seq<char>) -> Seq<char> {
    text.map_values(|c: char| ascii_lower(c))
}

/// The characters by which a date format is told.
pub open spec fn tells_date(c: char) -> bool {
    c == 'y' || c == 'm' || c == 'd' || c == 'h' || c == 's' || c == '0' || c == '#'
}

/// `str::to_lowercase`: the text in lower case, as the Unicode Character Database
/// has it. In ASCII text each capital letter is replaced by its small one and nothing
/// else changes. In any text the small letters y, m, d, h and s come from themselves and
/// from their ASCII capitals alone, and the signs 0 and # from themselves alone: beyond
/// ASCII only the Kelvin sign and the dotted capital I give ASCII letters, k and i.
#[verifier::external_body]
pub(crate) fn lowercase(text: &str) -> (lower: String)
    ensures
        lower@ == lowercase_of(text@),
        is_ascii_chars(text@) ==> lower@ == ascii_lowered(text@),
        forall|c: char|
            tells_date(c) ==> (#[trigger] lower@.contains(c) <==> ascii_lowered(text@).contains(c)),
{
    text.to_lowercase()
}

/// Whether a text holds a character.
pub fn contains_char(text: &str, wanted: char) -> (held: bool)
    ensures
        held == text@.contains(wanted),
{
    for c in iter: text.chars()
        invariant
            iter.seq() == text@,
            forall|j: int| 0 <= j < iter.index() ==> text@[j] != wanted,
    {
        if c == wanted {
            return true;
        }
    }
    false
}

/// The decimal notation of a number is made of ASCII digits, and reads back as the
/// number.
pub proof fn law_digits_read_back(n: nat)
    ensures
        is_ascii_chars(decimal_digits(n)),
        decimal_digits(n).len() > 0,
        encode_utf8(decimal_digits(n)).len() == decimal_digits(n).len(),
        all_digits(encode_utf8(decimal_digits(n))),
        digits_value(encode_utf8(decimal_digits(n))) == n,
        n > 0 ==> encode_utf8(decimal_digits(n))[0] != 48,
    decreases n,
{
    let text = decimal_digits(n);
    if n < 10 {
        is_ascii_chars_encode_utf8(text);
        let digits = encode_utf8(text);
        assert(digits.drop_last().len() == 0);
        assert(digits_value(digits.drop_last()) == 0);
    } else {
        let before = decimal_digits(n / 10);
        law_digits_read_back(n / 10);
        assert forall|i: int| 0 <= i < text.len() implies (#[trigger] text[i]) as u32 <= 127 by {
            if i < before.len() {
                assert(text[i] == before[i]);
            }
        }
        is_ascii_chars_encode_utf8(before);
        is_ascii_chars_encode_utf8(text);
        let digits = encode_utf8(text);
        assert(digits.drop_last() =~= encode_utf8(before));
        assert forall|i: int| 0 <= i < digits.len() implies 48 <= #[trigger] digits[i] <= 57 by {
            if i < digits.len() - 1 {
                assert(digits[i] == encode_utf8(before)[i]);
            }
        }
        assert(digits[0] == encode_utf8(before)[0]);
    }
}

/// Different numbers have different notations.
pub proof fn law_digits_differ(a: nat, b: nat)
    ensures
        decimal_digits(a) == decimal_digits(b) ==> a == b,
{
    law_digits_read_back(a);
    law_digits_read_back(b);
}

/// `n` zeros.
pub open spec fn zeros(n: nat) -> Seq<u8> {
    Seq::new(n, |i: int| 48u8)
}

/// Whether bytes are an integer in decimal notation: a sign or none, zeros or none,
/// and the digits of its magnitude.
pub open spec fn writes_integer(bytes: Seq<u8>, n: int) -> bool {
    exists|sign: Seq<u8>, k: nat| #[trigger] writes_with(bytes, n, sign, k)
}

/// Whether bytes are an integer in decimal notation, with the given sign and `k` zeros
/// before its digits. A minus sign makes it negative, a plus sign does not.
pub open spec fn writes_with(bytes: Seq<u8>, n: int, sign: Seq<u8>, k: nat) -> bool {
    let magnitude = if n < 0 {
        (-n) as nat
    } else {
        n as nat
    };
    &&& sign == seq![45u8] && n <= 0 || (sign == seq![43u8] || sign.len() == 0) && n >= 0
    &&& bytes == sign + zeros(k) + encode_utf8(decimal_digits(magnitude))
}

proof fn lemma_zeros_before(k: nat, digits: Seq<u8>)
    requires
        all_digits(digits),
    ensures
        all_digits(zeros(k) + digits),
        digits_value(zeros(k) + digits) == digits_value(digits),
    decreases digits.len() + k,
{
    let all = zeros(k) + digits;
    assert forall|i: int| 0 <= i < all.len() implies 48 <= #[trigger] all[i] <= 57 by {
        if i >= k {
            assert(all[i] == digits[i - k]);
        }
    }
    if digits.len() > 0 {
        let front = digits.drop_last();
        assert forall|i: int| 0 <= i < front.len() implies 48 <= #[trigger] front[i] <= 57 by {
            assert(front[i] == digits[i]);
        }
        lemma_zeros_before(k, front);
        assert(all.drop_last() =~= zeros(k) + front);
        assert(all.last() == digits.last());
    } else if k > 0 {
        lemma_zeros_before((k - 1) as nat, digits);
        assert(all.drop_last() =~= zeros((k - 1) as nat) + digits);
    } else {
        assert(all =~= digits);
    }
}

/// Digits are zeros and the notation of the number they denote.
proof fn lemma_digits_written(digits: Seq<u8>) -> (k: nat)
    requires
        all_digits(digits),
        digits.len() > 0,
    ensures
        digits_value(digits) >= 0,
        digits == zeros(k) + encode_utf8(decimal_digits(digits_value(digits) as nat)),
    decreases digits.len(),
{
    let front = digits.drop_last();
    let last = (digits.last() - 48) as nat;
    assert forall|i: int| 0 <= i < front.len() implies 48 <= #[trigger] front[i] <= 57 by {
        assert(front[i] == digits[i]);
    }
    assert(48 <= digits[digits.len() - 1] <= 57);
    if front.len() == 0 {
        assert(digits_value(front) == 0);
        law_digits_read_back(last);
        let text = decimal_digits(last);
        is_ascii_chars_encode_utf8(text);
        assert(digits =~= zeros(0) + encode_utf8(text));
        0
    } else {
        let k = lemma_digits_written(front);
        let n = digits_value(front) as nat;
        let all = 10 * n + last;
        assert(digits_value(digits) == all);
        law_digits_read_back(n);
        law_digits_read_back(all);
        is_ascii_chars_encode_utf8(decimal_digits(n));
        is_ascii_chars_encode_utf8(decimal_digits(all));
        if n > 0 {
            assert(all / 10 == n && all % 10 == last);
            assert(encode_utf8(decimal_digits(all)) =~= encode_utf8(decimal_digits(n)).push(
                digits.last(),
            ));
            assert(digits =~= front.push(digits.last()));
            assert(digits =~= zeros(k) + encode_utf8(decimal_digits(all)));
            k
        } else {
            assert(encode_utf8(decimal_digits(n)) =~= zeros(1));
            assert(encode_utf8(decimal_digits(all)) =~= seq![digits.last()]);
            assert(digits =~= front.push(digits.last()));
            assert(digits =~= zeros(k + 1) + encode_utf8(decimal_digits(all)));
            k + 1
        }
    }
}

/// A text denotes an integer of 64 bits exactly where it is that integer in decimal
/// notation, with a sign and with zeros before it or without.
pub proof fn law_integer_texts(bytes: Seq<u8>, n: int)
    ensures
        signed_value(bytes) == Some(n) <==> writes_integer(bytes, n) && i64::MIN <= n <= i64::MAX,
{
    if signed_value(bytes) == Some(n) {
        let signed = bytes.len() > 0 && (bytes[0] == 45 || bytes[0] == 43);
        let digits = if signed {
            bytes.skip(1)
        } else {
            bytes
        };
        let sign = if signed {
            bytes.take(1)
        } else {
            Seq::empty()
        };
        let k = lemma_digits_written(digits);
        if signed {
            assert(sign =~= seq![bytes[0]]);
        }
        let magnitude = digits_value(digits);
        assert(bytes =~= sign + digits);
        assert(bytes =~= sign + zeros(k) + encode_utf8(decimal_digits(magnitude as nat)));
        assert(writes_with(bytes, n, sign, k));
    }
    if writes_integer(bytes, n) && i64::MIN <= n <= i64::MAX {
        let (sign, k) = choose|sign: Seq<u8>, k: nat| #[trigger] writes_with(bytes, n, sign, k);
        lemma_integer_is_read(bytes, n, sign, k);
        if sign.len() == 0 || sign[0] == 43 {
            assert(bytes[0] != 45);
        }
    }
}

proof fn lemma_integer_is_read(bytes: Seq<u8>, n: int, sign: Seq<u8>, k: nat)
    requires
        writes_with(bytes, n, sign, k),
    ensures
        ({
            let digits = bytes.skip(sign.len() as int);
            &&& digits.len() > 0
            &&& all_digits(digits)
            &&& digits_value(digits) == (if n < 0 {
                -n
            } else {
                n
            })
            &&& bytes[0] == (if sign.len() > 0 {
                sign[0]
            } else {
                digits[0]
            })
            &&& sign.len() == 0 ==> digits == bytes && 48 <= bytes[0] <= 57
        }),
{
    let magnitude = if n < 0 {
        (-n) as nat
    } else {
        n as nat
    };
    let own = encode_utf8(decimal_digits(magnitude));
    law_digits_read_back(magnitude);
    lemma_zeros_before(k, own);
    let digits = bytes.skip(sign.len() as int);
    assert(digits =~= zeros(k) + own);
    assert(48 <= digits[0] <= 57);
    if sign.len() == 0 {
        assert(digits =~= bytes);
    }
}

/// A text denotes an unsigned integer of at most `max` exactly where it is that integer
/// in decimal notation, not negative, and without a minus sign.
pub proof fn law_unsigned_texts(bytes: Seq<u8>, n: int, max: int)
    requires
        0 <= max,
    ensures
        unsigned_value(bytes, max) == Some(n) <==> writes_integer(bytes, n) && 0 <= n <= max
            && bytes[0] != 45,
{
    if unsigned_value(bytes, max) == Some(n) {
        let signed = bytes.len() > 0 && bytes[0] == 43;
        let digits = if signed {
            bytes.skip(1)
        } else {
            bytes
        };
        let sign = if signed {
            bytes.take(1)
        } else {
            Seq::empty()
        };
        let k = lemma_digits_written(digits);
        if signed {
            assert(sign =~= seq![43u8]);
        } else {
            assert(48 <= bytes[0] <= 57);
        }
        assert(bytes =~= sign + digits);
        assert(bytes =~= sign + zeros(k) + encode_utf8(decimal_digits(n as nat)));
        assert(writes_with(bytes, n, sign, k));
    }
    if writes_integer(bytes, n) && 0 <= n <= max && bytes[0] != 45 {
        let (sign, k) = choose|sign: Seq<u8>, k: nat| #[trigger] writes_with(bytes, n, sign, k);
        lemma_integer_is_read(bytes, n, sign, k);
        if sign.len() > 0 {
            assert(sign[0] == 43);
        }
    }
}

/// The decimal notation of an integer reads back as the integer, and that of a natural
/// number as an unsigned one where it is small enough.
pub proof fn law_decimal_reads_back(n: int)
    ensures
        i64::MIN <= n <= i64::MAX ==> signed_value(encode_utf8(decimal(n))) == Some(n),
        forall|max: int|
            0 <= n <= max ==> #[trigger] unsigned_value(encode_utf8(decimal(n)), max) == Some(n),
        is_ascii_chars(decimal(n)),
        n >= 0 ==> decimal(n) == decimal_digits(n as nat),
{
    let magnitude = if n < 0 {
        (-n) as nat
    } else {
        n as nat
    };
    let digits = decimal_digits(magnitude);
    let text = decimal(n);
    law_digits_read_back(magnitude);
    assert forall|i: int| 0 <= i < text.len() implies (#[trigger] text[i]) as u32 <= 127 by {
        if n < 0 && i > 0 {
            assert(text[i] == digits[i - 1]);
        }
    }
    is_ascii_chars_encode_utf8(text);
    is_ascii_chars_encode_utf8(digits);
    let bytes = encode_utf8(text);
    let sign = if n < 0 {
        seq![45u8]
    } else {
        Seq::empty()
    };
    assert(bytes =~= sign + zeros(0) + encode_utf8(digits));
    assert(writes_with(bytes, n, sign, 0));
    law_integer_texts(bytes, n);
    assert forall|max: int| 0 <= n <= max implies #[trigger] unsigned_value(bytes, max) == Some(
        n,
    ) by {
        lemma_integer_is_read(bytes, n, sign, 0);
        law_unsigned_texts(bytes, n, max);
    }
}

/// The bytes of two texts together are those of the one and of the other.
pub proof fn lemma_encoding_concat(a: Seq<char>, b: Seq<char>)
    ensures
        encode_utf8(a + b) == encode_utf8(a) + encode_utf8(b),
    decreases a.len(),
{
    if a.len() == 0 {
        assert(a + b =~= b);
        assert(encode_utf8(a) + encode_utf8(b) =~= encode_utf8(b));
    } else {
        assert((a + b).drop_first() =~= a.drop_first() + b);
        assert((a + b)[0] == a[0]);
        lemma_encoding_concat(a.drop_first(), b);
        assert(encode_utf8(a + b) =~= encode_utf8(a) + encode_utf8(b));
    }
}

} // verus!
