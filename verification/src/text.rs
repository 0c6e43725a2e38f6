use vstd::prelude::*;
use vstd::utf8::*;
use vstd::string::StringSliceAdditionalSpecFns;
use vstd::string::StrSliceExecFns;

verus! {

/// Whether two byte slices hold the same bytes.
pub fn bytes_eq(a: &[u8], b: &[u8]) -> (res: bool)
    ensures
        res == (a@ == b@),
{
    if a.len() != b.len() {
        return false;
    }
    let mut i: usize = 0;
    while i < a.len()
        invariant
            a@.len() == b@.len(),
            i <= a@.len(),
            forall|j: int| 0 <= j < i ==> a@[j] == b@[j],
        decreases a@.len() - i,
    {
        if a[i] != b[i] {
            return false;
        }
        i += 1;
    }
    assert(a@ =~= b@);
    true
}

/// Whether two strings hold the same characters.
pub fn str_eq(a: &str, b: &str) -> (res: bool)
    ensures
        res == (a@ == b@),
{
    proof {
        encode_utf8_decode_utf8(a@);
        encode_utf8_decode_utf8(b@);
    }
    bytes_eq(a.as_bytes(), b.as_bytes())
}

/// Decodes UTF-8 text with `String::from_utf8`. Trusted: it succeeds exactly
/// on valid UTF-8, and the text then holds the characters that the bytes
/// encode.
#[verifier::external_body]
pub(crate) fn utf8_to_string(bytes: Vec<u8>) -> (res: Option<String>)
    ensures
        res is Some <==> valid_utf8(bytes@),
        res matches Some(s) ==> s@ == decode_utf8(bytes@),
{
    String::from_utf8(bytes).ok()
}

/// The characters of `text`.
pub fn to_chars(text: &str) -> (res: Vec<char>)
    ensures
        res@ == text@,
{
    let count = text.unicode_len();
    let mut out: Vec<char> = Vec::new();
    let mut i: usize = 0;
    while i < count
        invariant
            i <= count,
            count == text@.len(),
            out@ == text@.take(i as int),
        decreases count - i,
    {
        out.push(text.get_char(i));
        assert(out@ =~= text@.take(i + 1));
        i += 1;
    }
    assert(text@.take(count as int) =~= text@);
    out
}

/// Whether `c` is white space: a blank, a tab, a line break and the like.
pub open spec fn is_space(c: char) -> bool {
    let n = c as u32;
    (0x09 <= n <= 0x0d) || n == 0x20 || n == 0x85 || n == 0xa0 || n == 0x1680 || (0x2000 <= n
        <= 0x200a) || n == 0x2028 || n == 0x2029 || n == 0x202f || n == 0x205f || n == 0x3000
}

/// Whether `c` is white space.
pub fn is_whitespace(c: char) -> (res: bool)
    ensures
        res == is_space(c),
{
    let n = c as u32;
    (0x09 <= n && n <= 0x0d) || n == 0x20 || n == 0x85 || n == 0xa0 || n == 0x1680 || (0x2000 <= n
        && n <= 0x200a) || n == 0x2028 || n == 0x2029 || n == 0x202f || n == 0x205f || n == 0x3000
}

/// Whether `prefix` stands at place `at` of `text`.
pub open spec fn stands_at(text: Seq<char>, at: int, prefix: Seq<char>) -> bool {
    0 <= at && at + prefix.len() <= text.len() && text.subrange(at, at + prefix.len()) == prefix
}

/// Whether `prefix` stands at place `at` of `text`.
pub fn chars_at(text: &Vec<char>, at: usize, prefix: &Vec<char>) -> (res: bool)
    ensures
        res == stands_at(text@, at as int, prefix@),
{
    if at > text.len() || text.len() - at < prefix.len() {
        return false;
    }
    let total = text.len();
    let mut i: usize = 0;
    while i < prefix.len()
        invariant
            i <= prefix@.len(),
            total == text@.len(),
            at + prefix@.len() <= text@.len(),
            forall|j: int| 0 <= j < i ==> text@[at + j] == prefix@[j],
        decreases prefix@.len() - i,
    {
        if text[at + i] != prefix[i] {
            assert(text@.subrange(at as int, at + prefix@.len())[i as int] != prefix@[i as int]);
            return false;
        }
        i += 1;
    }
    assert(text@.subrange(at as int, at + prefix@.len()) =~= prefix@);
    true
}

/// `s` without the white space at its end.
pub open spec fn trim_end_chars(s: Seq<char>) -> Seq<char>
    decreases s.len(),
{
    if s.len() > 0 && is_space(s.last()) {
        trim_end_chars(s.drop_last())
    } else {
        s
    }
}

/// `s` without every `prefix` that stands at its start, one behind the
/// other.
pub open spec fn strip_prefixes(s: Seq<char>, prefix: Seq<char>) -> Seq<char>
    decreases s.len(),
{
    if prefix.len() > 0 && stands_at(s, 0, prefix) {
        strip_prefixes(s.skip(prefix.len() as int), prefix)
    } else {
        s
    }
}

/// Whether `b` is a blank, a tab or a line break.
pub open spec fn is_blank(b: u8) -> bool {
    b == 0x20 || (0x09 <= b <= 0x0d)
}

/// `s` without the blanks at its start.
pub open spec fn trim_start(s: Seq<u8>) -> Seq<u8>
    decreases s.len(),
{
    if s.len() > 0 && is_blank(s[0]) {
        trim_start(s.drop_first())
    } else {
        s
    }
}

/// `s` without the blanks at its end.
pub open spec fn trim_end(s: Seq<u8>) -> Seq<u8>
    decreases s.len(),
{
    if s.len() > 0 && is_blank(s.last()) {
        trim_end(s.drop_last())
    } else {
        s
    }
}

/// `s` without the blanks at its start and at its end.
pub open spec fn trim(s: Seq<u8>) -> Seq<u8> {
    trim_end(trim_start(s))
}

/// Finds the part of `data` between the blanks at its start and at its end.
pub fn trim_bytes(data: &[u8]) -> (res: (usize, usize))
    ensures
        res.0 <= res.1 <= data@.len(),
        data@.subrange(res.0 as int, res.1 as int) == trim(data@),
{
    let mut from: usize = 0;
    assert(data@.skip(0) =~= data@);
    while from < data.len() && (data[from] == 0x20 || (0x09 <= data[from] && data[from] <= 0x0d))
        invariant
            from <= data@.len(),
            trim_start(data@) == trim_start(data@.skip(from as int)),
        decreases data@.len() - from,
    {
        assert(data@.skip(from as int).drop_first() =~= data@.skip(from + 1));
        from += 1;
    }
    assert(trim_start(data@) == data@.skip(from as int));
    let mut to: usize = data.len();
    assert(data@.subrange(from as int, to as int) =~= data@.skip(from as int));
    while to > from && (data[to - 1] == 0x20 || (0x09 <= data[to - 1] && data[to - 1] <= 0x0d))
        invariant
            from <= to <= data@.len(),
            trim(data@) == trim_end(data@.subrange(from as int, to as int)),
        decreases to,
    {
        assert(data@.subrange(from as int, to as int).drop_last() =~= data@.subrange(
            from as int,
            to - 1,
        ));
        to -= 1;
    }
    (from, to)
}

/// Appends the UTF-8 bytes of `text`.
pub fn push_str(out: &mut Vec<u8>, text: &str)
    ensures
        final(out)@ == old(out)@ + encode_utf8(text@),
{
    out.extend_from_slice(text.as_bytes());
}

/// The bytes of ASCII text: one byte for each character.
pub open spec fn ascii(text: Seq<char>) -> Seq<u8> {
    Seq::new(text.len(), |i: int| text[i] as u8)
}

/// ASCII text is encoded one byte for each character.
pub proof fn lemma_ascii(text: Seq<char>)
    requires
        is_ascii_chars(text),
    ensures
        encode_utf8(text) == ascii(text),
{
    is_ascii_chars_encode_utf8(text);
    assert(encode_utf8(text) =~= ascii(text));
}

} // verus!
