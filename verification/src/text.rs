//! Text and its bytes.

use crate::bytes::range_is;
use vstd::prelude::*;
use vstd::utf8::decode_utf8;
use vstd::utf8::encode_utf8;
use vstd::utf8::valid_utf8;

verus! {

/// What bytes that are not valid UTF-8 are read as: each invalid part is
/// replaced by U+FFFD.
pub uninterp spec fn utf8_lossy(bytes: Seq<u8>) -> Seq<char>;

/// The text that a byte sequence is read as: the text that it encodes where
/// it is valid UTF-8, and its lossy reading otherwise.
pub open spec fn text_of(bytes: Seq<u8>) -> Seq<char> {
    if valid_utf8(bytes) {
        decode_utf8(bytes)
    } else {
        utf8_lossy(bytes)
    }
}

/// Calls `String::from_utf8_lossy`. Believed without proof: for valid UTF-8
/// the result is the text that the bytes encode, and otherwise it is a
/// function of the bytes alone.
#[verifier::external_body]
fn from_utf8_lossy(bytes: &[u8]) -> (text: String)
    ensures
        valid_utf8(bytes@) ==> text@ == decode_utf8(bytes@),
        !valid_utf8(bytes@) ==> text@ == utf8_lossy(bytes@),
{
    String::from_utf8_lossy(bytes).into_owned()
}

/// Reads bytes as text. Valid UTF-8 gives the text that it encodes.
pub fn read_text(bytes: &[u8]) -> (text: String)
    ensures
        text@ == text_of(bytes@),
{
    from_utf8_lossy(bytes)
}

/// Reading the bytes of a text gives the text back.
pub proof fn lemma_text_of_bytes(text: Seq<char>)
    ensures
        text_of(encode_utf8(text)) == text,
{
    vstd::utf8::encode_utf8_valid_utf8(text);
    vstd::utf8::encode_utf8_decode_utf8(text);
}

/// Whether a text holds no character NUL.
pub open spec fn has_no_nul(text: Seq<char>) -> bool {
    forall|i: int| 0 <= i < text.len() ==> text[i] != '\0'
}

/// The bytes of a text without the character NUL hold no zero.
pub proof fn lemma_no_nul_byte(text: Seq<char>)
    requires
        has_no_nul(text),
    ensures
        forall|j: int| 0 <= j < encode_utf8(text).len() ==> encode_utf8(text)[j] != 0,
    decreases text.len(),
{
    if text.len() != 0 {
        let c = text[0] as u32;
        let rest = text.drop_first();
        assert forall|i: int| 0 <= i < rest.len() implies rest[i] != '\0' by {
            assert(rest[i] == text[i + 1]);
        }
        lemma_no_nul_byte(rest);
        vstd::utf8::char_is_scalar(text[0]);
        vstd::utf8::char_u32_cast(text[0], c);
        assert(c != 0) by {
            if c == 0 {
                assert((0u32 as char) == '\0');
            }
        }
        lemma_scalar_no_zero(c);
        let head = vstd::utf8::encode_scalar(c);
        let tail = encode_utf8(rest);
        assert forall|j: int| 0 <= j < encode_utf8(text).len() implies encode_utf8(text)[j]
            != 0 by {
            if j < head.len() {
                assert((head + tail)[j] == head[j]);
            } else {
                assert((head + tail)[j] == tail[j - head.len()]);
            }
        }
    }
}

/// No byte of the encoding of a scalar other than zero is zero.
proof fn lemma_scalar_no_zero(c: u32)
    requires
        c != 0,
        vstd::utf8::is_scalar(c),
    ensures
        forall|j: int|
            0 <= j < vstd::utf8::encode_scalar(c).len() ==> vstd::utf8::encode_scalar(c)[j] != 0,
{
    assert(c != 0 && c <= 0x7F ==> (c & 0x7F) as u8 != 0) by (bit_vector);
    assert((0xC0 | ((c >> 6) & 0x1F) as u8) != 0) by (bit_vector);
    assert((0xE0 | ((c >> 12) & 0x0F) as u8) != 0) by (bit_vector);
    assert((0xF0 | ((c >> 18) & 0x7) as u8) != 0) by (bit_vector);
    assert((0x80 | (c & 0x3F) as u8) != 0) by (bit_vector);
    assert((0x80 | ((c >> 6) & 0x3F) as u8) != 0) by (bit_vector);
    assert((0x80 | ((c >> 12) & 0x3F) as u8) != 0) by (bit_vector);
}

/// Where the bytes of a text begin with an ASCII byte, the text begins with
/// the character of that number, and the bytes of the rest of the text
/// follow the byte.
pub proof fn lemma_first_ascii(text: Seq<char>)
    requires
        text.len() > 0,
        encode_utf8(text)[0] < 128,
    ensures
        text[0] as int == encode_utf8(text)[0] as int,
        encode_utf8(text).drop_first() == encode_utf8(text.drop_first()),
{
    let c = text[0] as u32;
    vstd::utf8::char_is_scalar(text[0]);
    let head = vstd::utf8::encode_scalar(c);
    let tail = encode_utf8(text.drop_first());
    assert(encode_utf8(text) == head + tail);
    assert((head + tail)[0] == head[0]);
    assert((0xC0 | ((c >> 6) & 0x1F) as u8) >= 128) by (bit_vector);
    assert((0xE0 | ((c >> 12) & 0x0F) as u8) >= 128) by (bit_vector);
    assert((0xF0 | ((c >> 18) & 0x7) as u8) >= 128) by (bit_vector);
    assert(c <= 0x7F ==> ((c & 0x7F) as u8) as u32 == c) by (bit_vector);
    assert(c <= 0x7F);
    assert(head.len() == 1);
    assert(head[0] as int == c as int);
    vstd::utf8::char_u32_cast(text[0], c);
    assert((c as char) as int == c as int);
    assert((head + tail).drop_first() =~= tail);
}

/// Two texts with the same bytes are the same text.
pub proof fn lemma_bytes_decide_text(a: Seq<char>, b: Seq<char>)
    requires
        encode_utf8(a) == encode_utf8(b),
    ensures
        a == b,
{
    vstd::utf8::encode_utf8_decode_utf8(a);
    vstd::utf8::encode_utf8_decode_utf8(b);
}

/// Whether two texts are the same.
pub fn same_text(a: &str, b: &str) -> (same: bool)
    ensures
        same == (a@ == b@),
{
    let x = a.as_bytes();
    let y = b.as_bytes();
    let same = range_is(x, 0, x.len(), y);
    proof {
        assert(x@.subrange(0, x@.len() as int) =~= x@);
        if same {
            lemma_bytes_decide_text(a@, b@);
        }
    }
    same
}

} // verus!
