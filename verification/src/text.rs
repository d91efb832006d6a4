//! Contracts for the few string operations of the standard library that the
//! verifier's own library leaves unspecified. None of them is proved here.

use std::sync::Arc;
use vstd::prelude::*;
use vstd::utf8::decode_utf8;
use vstd::utf8::encode_scalar;
use vstd::utf8::encode_utf8;
use vstd::utf8::encode_utf8_decode_utf8;
use vstd::utf8::encode_utf8_valid_utf8;
use vstd::utf8::is_ascii_chars;
use vstd::utf8::is_ascii_chars_encode_utf8;
use vstd::utf8::valid_utf8;

verus! {

/// `std::str::from_utf8`: succeeds exactly on well-formed UTF-8, and the
/// string then holds the characters that the bytes encode.
#[verifier::external_body]
pub(crate) fn utf8_str(bytes: &[u8]) -> (res: Option<&str>)
    ensures
        res is Some <==> valid_utf8(bytes@),
        res matches Some(s) ==> s@ == decode_utf8(bytes@),
{
    std::str::from_utf8(bytes).ok()
}

/// `str::eq`: two strings are equal exactly when they hold the same
/// characters.
#[verifier::external_body]
pub(crate) fn same_text(a: &str, b: &str) -> (res: bool)
    ensures
        res == (a@ == b@),
{
    a == b
}

/// `String::push`: appends one character.
#[verifier::external_body]
pub(crate) fn push_char(s: &mut String, c: char)
    ensures
        final(s)@ == old(s)@.push(c),
{
    s.push(c)
}

/// `Arc::<str>::from(&str)`: a shared string with the same characters.
#[verifier::external_body]
pub(crate) fn shared_from(s: &str) -> (res: Arc<str>)
    ensures
        (*res)@ == s@,
{
    Arc::from(s)
}

/// `Arc::clone`: another handle to the same string.
#[verifier::external_body]
pub(crate) fn shared_clone(s: &Arc<str>) -> (res: Arc<str>)
    ensures
        (*res)@ == (**s)@,
{
    Arc::clone(s)
}

/// The text that ASCII bytes write: each byte as the character of its code.
pub open spec fn ascii_text(bytes: Seq<u8>) -> Seq<char> {
    Seq::new(bytes.len(), |i: int| bytes[i] as char)
}

/// ASCII bytes are well-formed UTF-8, and encode the characters of their
/// codes.
pub proof fn lemma_ascii_is_utf8(bytes: Seq<u8>)
    requires
        forall|i: int| 0 <= i < bytes.len() ==> #[trigger] bytes[i] < 0x80,
    ensures
        valid_utf8(bytes),
        decode_utf8(bytes) == ascii_text(bytes),
{
    let chars = ascii_text(bytes);
    assert(is_ascii_chars(chars)) by {
        assert forall|i: int| 0 <= i < chars.len() implies '\0' <= #[trigger] chars[i]
            <= '\u{7f}' by {
            assert(bytes[i] < 0x80);
        }
    }
    is_ascii_chars_encode_utf8(chars);
    assert(encode_utf8(chars) =~= bytes) by {
        assert forall|i: int| 0 <= i < bytes.len() implies encode_utf8(chars)[i] == bytes[i] by {
            assert(chars[i] as u8 == encode_utf8(chars)[i]);
            assert(bytes[i] < 0x80);
        }
    }
    encode_utf8_valid_utf8(chars);
    encode_utf8_decode_utf8(chars);
}

/// Whether a character has the Unicode property `Alphabetic`, as
/// `char::is_alphabetic` reports it.
pub uninterp spec fn alphabetic(c: char) -> bool;

/// Whether a character has the Unicode property `White_Space`, as
/// `char::is_whitespace` reports it.
pub uninterp spec fn whitespace(c: char) -> bool;

/// `char::is_alphabetic`.
#[verifier::external_body]
pub(crate) fn is_alphabetic(c: char) -> (res: bool)
    ensures
        res == alphabetic(c),
{
    c.is_alphabetic()
}

/// `char::is_whitespace`.
#[verifier::external_body]
pub(crate) fn is_whitespace(c: char) -> (res: bool)
    ensures
        res == whitespace(c),
{
    c.is_whitespace()
}

/// The number of bytes that the UTF-8 encoding of `text` takes.
pub open spec fn utf8_len(text: Seq<char>) -> nat {
    encode_utf8(text).len()
}

/// The encoding of a text is the encodings of its parts, one behind the
/// other.
pub proof fn lemma_encode_concat(a: Seq<char>, b: Seq<char>)
    ensures
        encode_utf8(a + b) == encode_utf8(a) + encode_utf8(b),
    decreases a.len(),
{
    if a.len() == 0 {
        assert(a + b =~= b);
        assert(encode_utf8(a) + encode_utf8(b) =~= encode_utf8(b));
    } else {
        assert((a + b).drop_first() =~= a.drop_first() + b);
        lemma_encode_concat(a.drop_first(), b);
        assert(encode_utf8(a + b) =~= encode_utf8(a) + encode_utf8(b));
    }
}

/// A prefix of a text encodes to no more bytes than the text.
pub proof fn lemma_encode_prefix(text: Seq<char>, n: int)
    requires
        0 <= n <= text.len(),
    ensures
        utf8_len(text.take(n)) <= utf8_len(text),
        n < text.len() ==> utf8_len(text.take(n + 1)) == utf8_len(text.take(n)) + encode_scalar(
            text[n] as u32,
        ).len(),
{
    assert(text =~= text.take(n) + text.skip(n));
    lemma_encode_concat(text.take(n), text.skip(n));
    if n < text.len() {
        assert(text.take(n + 1) =~= text.take(n) + seq![text[n]]);
        lemma_encode_concat(text.take(n), seq![text[n]]);
        assert(seq![text[n]].drop_first() =~= Seq::<char>::empty());
        assert(encode_utf8(seq![text[n]]) =~= encode_scalar(text[n] as u32)) by {
            reveal_with_fuel(encode_utf8, 2);
        }
    }
}

/// The number of bytes that the UTF-8 encoding of one character takes.
pub fn char_width(c: char) -> (width: usize)
    ensures
        width == encode_scalar(c as u32).len(),
        1 <= width <= 4,
{
    let v: u32 = c as u32;
    if v < 0x80 {
        1
    } else if v < 0x800 {
        2
    } else if v < 0x10000 {
        3
    } else {
        4
    }
}

/// How a character is written by its `Debug` format: between single
/// quotes, escaped where it cannot stand for itself.
pub uninterp spec fn quoted(c: char) -> Seq<char>;

/// `format!("{:?}", c)` for a character.
#[verifier::external_body]
pub(crate) fn quote_char(c: char) -> (res: String)
    ensures
        res@ == quoted(c),
{
    format!("{:?}", c)
}

/// The decimal digits that write a number, without leading zeros.
pub open spec fn digits_of(n: nat) -> Seq<char>
    decreases n,
{
    if n < 10 {
        seq![(0x30 + n) as char]
    } else {
        digits_of(n / 10).push((0x30 + n % 10) as char)
    }
}

/// Writes a number in decimal digits.
pub fn decimal_text(n: usize) -> (res: String)
    ensures
        res@ == digits_of(n as nat),
    decreases n,
{
    if n < 10 {
        let mut out = String::new();
        push_char(&mut out, ((0x30 + n) as u8) as char);
        assert(out@ =~= digits_of(n as nat));
        out
    } else {
        let mut out = decimal_text(n / 10);
        push_char(&mut out, ((0x30 + n % 10) as u8) as char);
        out
    }
}

} // verus!
