//! The digest that names an object, in its raw and its hexadecimal form.

use sha1::Digest;
use sha1::Sha1;
use vstd::prelude::*;

verus! {

/// The number of bytes of a digest.
pub const HASH_BYTES_LENGTH: usize = 20;

/// The number of characters of a digest written in hexadecimal.
pub const HASH_HEX_LENGTH: usize = 40;

/// The SHA-1 digest of a byte sequence.
pub uninterp spec fn sha1_digest(bytes: Seq<u8>) -> Seq<u8>;

/// Calls `Sha1::new`, `update` and `finalize` of the crate `sha1`. Believed
/// without proof: the bytes returned are the SHA-1 digest of `bytes`, and
/// there are twenty of them.
#[verifier::external_body]
fn sha1_of(bytes: &[u8]) -> (digest: Vec<u8>)
    ensures
        digest@ == sha1_digest(bytes@),
        digest@.len() == HASH_BYTES_LENGTH,
{
    let mut hasher = Sha1::new();
    hasher.update(bytes);
    hasher.finalize().to_vec()
}

/// The lowercase hexadecimal digit of a number below sixteen.
pub open spec fn hex_digit(n: int) -> char {
    if n < 10 {
        (48 + n) as char
    } else {
        (87 + n) as char
    }
}

/// A byte sequence in lowercase hexadecimal: two digits for each byte, the
/// high half first.
pub open spec fn hex_chars(bytes: Seq<u8>) -> Seq<char> {
    Seq::new(
        2 * bytes.len(),
        |i: int|
            if i % 2 == 0 {
                hex_digit(bytes[i / 2] as int / 16)
            } else {
                hex_digit(bytes[i / 2] as int % 16)
            },
    )
}

/// Whether `c` is one of `0` to `9` or `a` to `f`.
pub open spec fn is_hex_char(c: char) -> bool {
    ('0' <= c <= '9') || ('a' <= c <= 'f')
}

/// The number that a lowercase hexadecimal digit stands for.
pub open spec fn hex_value(c: char) -> int {
    if '0' <= c <= '9' {
        c as int - 48
    } else {
        c as int - 87
    }
}

/// The bytes that a hexadecimal text stands for, two digits for each.
pub open spec fn hex_bytes(text: Seq<char>) -> Seq<u8> {
    Seq::new(
        text.len() / 2,
        |i: int| (hex_value(text[2 * i]) * 16 + hex_value(text[2 * i + 1])) as u8,
    )
}

/// Calls `hex::encode`. Believed without proof: the text returned is `bytes`
/// in lowercase hexadecimal, two digits for each byte.
#[verifier::external_body]
fn hex_encode(bytes: &[u8]) -> (text: String)
    ensures
        text@ == hex_chars(bytes@),
{
    hex::encode(bytes)
}

/// The hexadecimal form has two characters for each byte, each of them a
/// lowercase hexadecimal digit, and all of them ASCII.
pub proof fn lemma_hex_chars_shape(bytes: Seq<u8>)
    ensures
        hex_chars(bytes).len() == 2 * bytes.len(),
        forall|i: int| 0 <= i < hex_chars(bytes).len() ==> is_hex_char(#[trigger] hex_chars(bytes)[i]),
        vstd::utf8::is_ascii_chars(hex_chars(bytes)),
{
    assert forall|i: int| 0 <= i < hex_chars(bytes).len() implies is_hex_char(
        #[trigger] hex_chars(bytes)[i],
    ) by {
        let b = bytes[i / 2] as int;
        assert(0 <= b / 16 < 16);
        assert(0 <= b % 16 < 16);
    }
}

/// The raw and the hexadecimal form of a digest are two writings of the same
/// bytes: reading the hexadecimal form gives the raw bytes back.
pub proof fn lemma_hex_round_trip(bytes: Seq<u8>)
    ensures
        hex_bytes(hex_chars(bytes)) == bytes,
{
    let text = hex_chars(bytes);
    assert forall|i: int| 0 <= i < bytes.len() implies hex_bytes(text)[i] == bytes[i] by {
        let b = bytes[i] as int;
        assert((2 * i) % 2 == 0);
        assert((2 * i) / 2 == i);
        assert((2 * i + 1) % 2 == 1);
        assert((2 * i + 1) / 2 == i);
        assert(text[2 * i] == hex_digit(b / 16));
        assert(text[2 * i + 1] == hex_digit(b % 16));
        assert(0 <= b / 16 < 16);
        assert(0 <= b % 16 < 16);
        assert(hex_value(hex_digit(b / 16)) == b / 16);
        assert(hex_value(hex_digit(b % 16)) == b % 16);
        assert((b / 16) * 16 + b % 16 == b);
    }
    assert(hex_bytes(text) =~= bytes);
}

/// Two byte sequences with the same hexadecimal form are the same.
pub proof fn lemma_hex_injective(a: Seq<u8>, b: Seq<u8>)
    requires
        hex_chars(a) == hex_chars(b),
    ensures
        a == b,
{
    lemma_hex_round_trip(a);
    lemma_hex_round_trip(b);
}

/// The digest of `bytes`: twenty raw bytes.
pub fn create_hash(bytes: &[u8]) -> (digest: Vec<u8>)
    ensures
        digest@ == sha1_digest(bytes@),
        digest@.len() == HASH_BYTES_LENGTH,
{
    sha1_of(bytes)
}

/// `bytes` in lowercase hexadecimal.
pub fn to_hex(bytes: &[u8]) -> (text: String)
    ensures
        text@ == hex_chars(bytes@),
{
    hex_encode(bytes)
}

/// The digest of `bytes` as forty lowercase hexadecimal characters.
pub fn create_hex_hash(bytes: &[u8]) -> (text: String)
    ensures
        text@ == hex_chars(sha1_digest(bytes@)),
        text@.len() == HASH_HEX_LENGTH,
{
    let digest = sha1_of(bytes);
    proof {
        lemma_hex_chars_shape(digest@);
    }
    hex_encode(digest.as_slice())
}

} // verus!
