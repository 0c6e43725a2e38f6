use hex::FromHex;
use sha1::{Digest, Sha1};
use vstd::prelude::*;
use vstd::utf8::{encode_utf8, is_ascii_chars};
use crate::bytes::hex_digit;
use crate::text::{ascii, lemma_ascii};

verus! {

/// The SHA-1 digest of a byte sequence.
pub uninterp spec fn sha1_digest(data: Seq<u8>) -> Seq<u8>;

/// Hashes `data` with `sha1::Sha1` (`new`, `update`, `finalize`). Trusted:
/// the 20 bytes returned are the SHA-1 digest of `data`, which depends on
/// nothing but `data`.
#[verifier::external_body]
pub(crate) fn sha1(data: &[u8]) -> (res: [u8; 20])
    ensures
        res@ == sha1_digest(data@),
{
    let mut hasher = Sha1::new();
    hasher.update(data);
    hasher.finalize().into()
}

/// The lower-case hexadecimal text of `data`, two ASCII digits for each byte,
/// the high half first.
pub open spec fn hex_bytes(data: Seq<u8>) -> Seq<u8> {
    Seq::new(
        2 * data.len(),
        |i: int|
            if i % 2 == 0 {
                hex_digit(data[i / 2] as int / 16)
            } else {
                hex_digit(data[i / 2] as int % 16)
            },
    )
}

/// The value of a hexadecimal digit, in either case.
pub open spec fn hex_value(b: u8) -> Option<int> {
    if 48 <= b <= 57 {
        Some(b - 48)
    } else if 97 <= b <= 102 {
        Some(b - 87)
    } else if 65 <= b <= 70 {
        Some(b - 55)
    } else {
        None
    }
}

/// Whether `text` is made of hexadecimal digits only.
pub open spec fn all_hex(text: Seq<u8>) -> bool {
    forall|i: int| 0 <= i < text.len() ==> hex_value(#[trigger] text[i]) is Some
}

/// The bytes that a hexadecimal text spells, two digits for each byte.
pub open spec fn unhex(text: Seq<u8>) -> Seq<u8> {
    Seq::new(
        text.len() / 2,
        |i: int| (hex_value(text[2 * i]).unwrap() * 16 + hex_value(text[2 * i + 1]).unwrap()) as u8,
    )
}

/// Whether `text` is the hexadecimal text of an object id: 40 digits.
pub open spec fn is_hex_id(text: Seq<u8>) -> bool {
    text.len() == 40 && all_hex(text)
}

/// The lower-case hexadecimal text of `data`, as characters.
pub open spec fn hex_chars(data: Seq<u8>) -> Seq<char> {
    Seq::new(hex_bytes(data).len(), |i: int| hex_bytes(data)[i] as char)
}

/// Encodes `data` with `hex::encode`. Trusted: the text has two lower-case
/// hexadecimal digits for each byte, the high half first.
#[verifier::external_body]
pub(crate) fn hex_string(data: &[u8]) -> (res: String)
    ensures
        res@ == hex_chars(data@),
{
    hex::encode(data)
}

/// The hexadecimal text of bytes is ASCII: its bytes are its digits.
pub proof fn lemma_hex_chars(data: Seq<u8>)
    ensures
        is_ascii_chars(hex_chars(data)),
        encode_utf8(hex_chars(data)) == hex_bytes(data),
{
    lemma_hex_bytes_plain(data);
    let text = hex_chars(data);
    assert forall|i: int| 0 <= i < text.len() implies '\0' <= #[trigger] text[i] <= '\u{7f}' by {
        assert(48 <= hex_bytes(data)[i] <= 102);
    }
    lemma_ascii(text);
    assert forall|i: int| 0 <= i < text.len() implies ascii(text)[i] == hex_bytes(data)[i] by {
        assert(48 <= hex_bytes(data)[i] <= 102);
    }
    assert(ascii(text) =~= hex_bytes(data));
}

/// The lower-case hexadecimal text of `data`, as bytes.
pub fn hex_encode(data: &[u8]) -> (res: Vec<u8>)
    ensures
        res@ == hex_bytes(data@),
{
    let text = hex_string(data);
    proof {
        lemma_hex_chars(data@);
    }
    let mut out: Vec<u8> = Vec::new();
    out.extend_from_slice(text.as_str().as_bytes());
    out
}

/// Decodes 40 hexadecimal digits with `<[u8; 20] as hex::FromHex>::from_hex`.
/// Trusted: it succeeds exactly on 40 bytes that are hexadecimal digits of
/// either case, and each byte of the result is spelled by two digits, the
/// high half first.
#[verifier::external_body]
pub(crate) fn hex_decode_id(text: &[u8]) -> (res: Option<[u8; 20]>)
    ensures
        res is Some <==> is_hex_id(text@),
        res matches Some(id) ==> id@ == unhex(text@),
{
    <[u8; 20]>::from_hex(text).ok()
}

/// The hexadecimal text of bytes is made of hexadecimal digits and spells
/// those bytes.
pub proof fn lemma_hex_round_trip(data: Seq<u8>)
    ensures
        hex_bytes(data).len() == 2 * data.len(),
        all_hex(hex_bytes(data)),
        unhex(hex_bytes(data)) == data,
{
    let text = hex_bytes(data);
    assert forall|i: int| 0 <= i < text.len() implies hex_value(#[trigger] text[i]) is Some by {
        let b = data[i / 2];
        assert(0 <= b as int / 16 < 16);
        assert(0 <= b as int % 16 < 16);
    }
    assert forall|i: int| 0 <= i < data.len() implies unhex(text)[i] == data[i] by {
        let b = data[i];
        assert((2 * i) / 2 == i);
        assert((2 * i + 1) / 2 == i);
        assert((2 * i) % 2 == 0);
        assert((2 * i + 1) % 2 == 1);
        assert(text[2 * i] == hex_digit(b as int / 16));
        assert(text[2 * i + 1] == hex_digit(b as int % 16));
        assert(0 <= b as int / 16 < 16);
        assert(0 <= b as int % 16 < 16);
        assert(hex_value(text[2 * i]).unwrap() == b as int / 16);
        assert(hex_value(text[2 * i + 1]).unwrap() == b as int % 16);
    }
    assert(unhex(text) =~= data);
}

/// The hexadecimal text of an id is ASCII: no byte of it is above `f`, and
/// none is a space, a line feed or zero.
pub proof fn lemma_hex_bytes_plain(data: Seq<u8>)
    ensures
        forall|i: int| 0 <= i < hex_bytes(data).len() ==> 48 <= #[trigger] hex_bytes(data)[i] <= 102,
{
    assert forall|i: int| 0 <= i < hex_bytes(data).len() implies 48 <= #[trigger] hex_bytes(
        data,
    )[i] <= 102 by {
        let b = data[i / 2];
        assert(0 <= b as int / 16 < 16);
        assert(0 <= b as int % 16 < 16);
    }
}

} // verus!
