use vstd::prelude::*;
use vstd::slice::slice_subrange;
use vstd::utf8::*;
use crate::bytes::{
    copy_range, decimal, find_byte, index_of, lemma_decimal_round_trip, lemma_index_of,
    lemma_index_of_is, parse_decimal, push_decimal, push_repeat, read_decimal, repeat,
};
use crate::digest::{hex_bytes, hex_encode, lemma_hex_bytes_plain, sha1, sha1_digest};
use crate::error::RuntimeError;
use crate::kind::{kind_of_mode, Kind};
use crate::text::{ascii, bytes_eq, lemma_ascii, push_str, utf8_to_string};
use crate::tree::{lemma_sort_entries, sort_by_name, sort_entries};
use crate::zlib::{deflate, inflate, zlib_deflate, zlib_inflate};

verus! {

/// A stored object read back: its kind, the size that its header announces,
/// and its payload.
#[derive(Debug)]
pub struct Object {
    pub kind: Kind,
    pub size: usize,
    pub data: Vec<u8>,
}

/// An object made ready for the store: its id and the compressed bytes of
/// its file.
#[derive(Debug)]
pub struct LooseObject {
    pub hash: [u8; 20],
    pub data: Vec<u8>,
}

/// An object made ready for the store, as plain values.
pub struct Encoded {
    pub hash: Seq<u8>,
    pub data: Seq<u8>,
}

impl LooseObject {
    /// The object as plain values.
    pub open spec fn view(&self) -> Encoded {
        Encoded { hash: self.hash@, data: self.data@ }
    }
}

/// An entry of a tree: the mode text and the kind it stands for, the name,
/// and the id of the child.
#[derive(Debug)]
pub struct TreeObject {
    pub mode: String,
    pub kind: Kind,
    pub name: String,
    pub hash: [u8; 20],
}

/// An entry of a tree as plain values: mode and name as the bytes that the
/// tree holds, the kind, and the 20 bytes of the id.
pub struct TreeEntry {
    pub mode: Seq<u8>,
    pub kind: Kind,
    pub name: Seq<u8>,
    pub hash: Seq<u8>,
}

impl TreeObject {
    /// The entry as plain values.
    pub open spec fn view(&self) -> TreeEntry {
        TreeEntry {
            mode: encode_utf8(self.mode@),
            kind: self.kind,
            name: encode_utf8(self.name@),
            hash: self.hash@,
        }
    }
}

/// The plain values of a sequence of entries.
pub open spec fn entry_views(entries: Seq<TreeObject>) -> Seq<TreeEntry> {
    entries.map_values(|e: TreeObject| e@)
}

/// The bytes of the kind text of `kind`.
pub open spec fn kind_text(kind: Kind) -> Seq<u8> {
    encode_utf8(kind.text())
}

/// The kind that a kind text names. The flag of a blob is not stored: a blob
/// is read back with the flag set.
pub open spec fn kind_of_text(text: Seq<u8>) -> Option<Kind> {
    if text == encode_utf8("blob"@) {
        Some(Kind::Blob(true))
    } else if text == encode_utf8("commit"@) {
        Some(Kind::Commit)
    } else if text == encode_utf8("tree"@) {
        Some(Kind::Tree)
    } else if text == encode_utf8("symlink"@) {
        Some(Kind::Symlink)
    } else {
        None
    }
}

/// The kind as which an object of kind `kind` is read back.
pub open spec fn stored_kind(kind: Kind) -> Kind {
    match kind {
        Kind::Blob(_) => Kind::Blob(true),
        other => other,
    }
}

/// The header of a stored object: kind text, a space, the decimal length of
/// the payload, and a zero byte.
pub open spec fn header(kind: Kind, size: nat) -> Seq<u8> {
    kind_text(kind) + seq![0x20u8] + decimal(size) + seq![0u8]
}

/// The framed form of an object: its header, then its payload.
pub open spec fn frame(kind: Kind, payload: Seq<u8>) -> Seq<u8> {
    header(kind, payload.len()) + payload
}

/// The id of an object: the SHA-1 digest of its framed form.
pub open spec fn object_id_of(kind: Kind, payload: Seq<u8>) -> Seq<u8> {
    sha1_digest(frame(kind, payload))
}

/// What encoding an object for the store gives: its id, which is the SHA-1
/// digest of its frame, and the frame compressed into one zlib stream.
/// Fails with `IoError` where the compressor fails.
pub open spec fn encoded(kind: Kind, payload: Seq<u8>) -> Result<Encoded, RuntimeError> {
    match zlib_deflate(frame(kind, payload)) {
        Some(stream) => Ok(Encoded { hash: object_id_of(kind, payload), data: stream }),
        None => Err(RuntimeError::IoError),
    }
}

/// What a framed object holds: its kind, the announced size and the payload.
///
/// Fails with `CorruptHeader` where no zero byte ends the header, no space
/// parts kind from size, or the size is no decimal number; with `UnknownKind`
/// where the kind text is not known; with `SizeMismatch` where the payload is
/// not as long as announced.
pub open spec fn parse_frame(data: Seq<u8>) -> Result<(Kind, nat, Seq<u8>), RuntimeError> {
    let nul = index_of(data, 0, 0);
    let head = data.subrange(0, nul);
    let space = index_of(head, 0x20, 0);
    if nul >= data.len() || space >= nul {
        Err(RuntimeError::CorruptHeader)
    } else {
        match kind_of_text(head.subrange(0, space)) {
            None => Err(RuntimeError::UnknownKind),
            Some(kind) => match parse_decimal(head.subrange(space + 1, nul)) {
                None => Err(RuntimeError::CorruptHeader),
                Some(size) => if size > usize::MAX {
                    Err(RuntimeError::CorruptHeader)
                } else if data.len() - nul - 1 != size {
                    Err(RuntimeError::SizeMismatch)
                } else {
                    Ok((kind, size, data.subrange(nul + 1, data.len() as int)))
                },
            },
        }
    }
}

/// What the file of a stored object holds: the frame inside its zlib stream.
/// A file that is no zlib stream fails with `CorruptHeader`.
pub open spec fn decode_object(stored: Seq<u8>) -> Result<(Kind, nat, Seq<u8>), RuntimeError> {
    match zlib_inflate(stored) {
        None => Err(RuntimeError::CorruptHeader),
        Some((raw, _)) => parse_frame(raw),
    }
}

impl Object {
    /// The object as a plain value: kind, announced size, payload.
    pub open spec fn view(&self) -> (Kind, nat, Seq<u8>) {
        (self.kind, self.size as nat, self.data@)
    }
}

/// Builds the framed form of an object.
pub fn frame_object(kind: Kind, content: &[u8]) -> (res: Vec<u8>)
    ensures
        res@ == frame(kind, content@),
{
    let mut out: Vec<u8> = Vec::new();
    push_str(&mut out, kind.string());
    out.push(0x20);
    push_decimal(&mut out, content.len());
    out.push(0);
    out.extend_from_slice(content);
    assert(out@ =~= frame(kind, content@));
    out
}

/// Computes the id of an object without storing it.
pub fn object_id(kind: Kind, content: &[u8]) -> (res: [u8; 20])
    ensures
        res@ == object_id_of(kind, content@),
{
    let framed = frame_object(kind, content);
    sha1(framed.as_slice())
}

/// Reads a kind text.
pub fn kind_from_text(text: &[u8]) -> (res: Option<Kind>)
    ensures
        res == kind_of_text(text@),
{
    if bytes_eq(text, "blob".as_bytes()) {
        Some(Kind::Blob(true))
    } else if bytes_eq(text, "commit".as_bytes()) {
        Some(Kind::Commit)
    } else if bytes_eq(text, "tree".as_bytes()) {
        Some(Kind::Tree)
    } else if bytes_eq(text, "symlink".as_bytes()) {
        Some(Kind::Symlink)
    } else {
        None
    }
}

/// Takes a framed object apart.
pub fn parse_object(raw: &[u8]) -> (res: Result<Object, RuntimeError>)
    ensures
        match parse_frame(raw@) {
            Ok(parts) => res matches Ok(object) && object@ == parts,
            Err(e) => res matches Err(f) && f == e,
        },
{
    let nul = find_byte(raw, 0, 0);
    if nul >= raw.len() {
        proof {
            lemma_index_of(raw@.subrange(0, nul as int), 0x20, 0);
        }
        return Err(RuntimeError::CorruptHeader);
    }
    let head = slice_subrange(raw, 0, nul);
    let space = find_byte(head, 0x20, 0);
    if space >= nul {
        return Err(RuntimeError::CorruptHeader);
    }
    let kind = match kind_from_text(slice_subrange(head, 0, space)) {
        Some(kind) => kind,
        None => {
            return Err(RuntimeError::UnknownKind);
        },
    };
    let size = match read_decimal(slice_subrange(head, space + 1, nul)) {
        Some(size) => size,
        None => {
            return Err(RuntimeError::CorruptHeader);
        },
    };
    if raw.len() - nul - 1 != size {
        return Err(RuntimeError::SizeMismatch);
    }
    let data = copy_range(raw, nul + 1, raw.len());
    Ok(Object { kind, size, data })
}

/// Decodes the file of a stored object: inflates it and takes the frame
/// apart.
pub fn decode_stored(stored: &[u8]) -> (res: Result<Object, RuntimeError>)
    ensures
        match decode_object(stored@) {
            Ok(parts) => res matches Ok(object) && object@ == parts,
            Err(e) => res matches Err(f) && f == e,
        },
{
    match inflate(stored) {
        None => Err(RuntimeError::CorruptHeader),
        Some((raw, _)) => parse_object(raw.as_slice()),
    }
}

/// Puts an id and a compressed frame together. `compressed` is what the
/// compressor made of the frame, or `None` where it failed, which gives
/// `IoError`.
pub fn loose_object(hash: [u8; 20], compressed: Option<Vec<u8>>) -> (res: Result<
    LooseObject,
    RuntimeError,
>)
    ensures
        match compressed {
            Some(data) => res matches Ok(object) && object.hash == hash && object.data == data,
            None => res matches Err(e) && e == RuntimeError::IoError,
        },
{
    match compressed {
        Some(data) => Ok(LooseObject { hash, data }),
        None => Err(RuntimeError::IoError),
    }
}

/// Encodes an object for the store: its id is the SHA-1 digest of its frame,
/// and its file holds the frame as one zlib stream, which is decoded to the
/// object again. Fails with `IoError` exactly where the compressor fails on
/// the frame.
pub fn encode_object(kind: Kind, content: &[u8]) -> (res: Result<LooseObject, RuntimeError>)
    ensures
        match encoded(kind, content@) {
            Ok(made) => {
                &&& res matches Ok(object) && object@ == made
                &&& zlib_inflate(made.data) matches Some(r) && r.0 == frame(kind, content@)
                &&& decode_object(made.data) == Ok::<(Kind, nat, Seq<u8>), RuntimeError>(
                    (stored_kind(kind), content@.len(), content@),
                )
            },
            Err(e) => res matches Err(f) && f == e,
        },
{
    let size = content.len();
    let framed = frame_object(kind, content);
    let hash = sha1(framed.as_slice());
    let compressed = deflate(framed.as_slice());
    proof {
        if compressed is Some {
            lemma_object_round_trip(kind, content@, compressed->Some_0@);
        }
    }
    loose_object(hash, compressed)
}

/// The first entry of a tree payload, and the number of bytes it takes:
/// mode, a space, the name, a zero byte, and the 20 bytes of the id.
///
/// Fails with `CorruptEntry` where the zero byte or the space is missing or
/// fewer than 20 bytes follow; with `UnexpectedChar` where mode or name is
/// not UTF-8; with `InvalidMode` where the mode is not a known one.
pub open spec fn parse_tree_entry(data: Seq<u8>) -> Result<(TreeEntry, int), RuntimeError> {
    let nul = index_of(data, 0, 0);
    let space = index_of(data.subrange(0, nul), 0x20, 0);
    if nul >= data.len() || space >= nul || data.len() < nul + 21 {
        Err(RuntimeError::CorruptEntry)
    } else {
        let mode = data.subrange(0, space);
        let name = data.subrange(space + 1, nul);
        if !valid_utf8(mode) || !valid_utf8(name) {
            Err(RuntimeError::UnexpectedChar)
        } else {
            match kind_of_mode(decode_utf8(mode)) {
                None => Err(RuntimeError::InvalidMode),
                Some(kind) => Ok(
                    (TreeEntry { mode, kind, name, hash: data.subrange(nul + 1, nul + 21) }, nul + 21),
                ),
            }
        }
    }
}

/// `done`, followed by the entries of `rest` where there are any.
pub open spec fn entries_then(
    done: Seq<TreeEntry>,
    rest: Result<Seq<TreeEntry>, RuntimeError>,
) -> Result<Seq<TreeEntry>, RuntimeError> {
    match rest {
        Ok(more) => Ok(done + more),
        Err(e) => Err(e),
    }
}

/// The entries of a tree payload, in the order in which it holds them. The
/// first entry that cannot be read decides the error.
pub open spec fn parse_tree(data: Seq<u8>) -> Result<Seq<TreeEntry>, RuntimeError>
    decreases data.len(),
{
    if data.len() == 0 {
        Ok(Seq::empty())
    } else {
        match parse_tree_entry(data) {
            Err(e) => Err(e),
            Ok((entry, used)) => if 0 < used <= data.len() {
                entries_then(seq![entry], parse_tree(data.skip(used)))
            } else {
                Err(RuntimeError::CorruptEntry)
            },
        }
    }
}

/// Copies the 20 bytes of an id out of `data`.
pub fn id_from_slice(data: &[u8], pos: usize) -> (res: [u8; 20])
    requires
        pos + 20 <= data@.len(),
    ensures
        res@ == data@.subrange(pos as int, pos + 20),
{
    let mut id = [0u8;20];
    let len = data.len();
    let mut i: usize = 0;
    while i < 20
        invariant
            i <= 20,
            len == data@.len(),
            pos + 20 <= len,
            forall|j: int| 0 <= j < i ==> id@[j] == data@[pos + j],
        decreases 20 - i,
    {
        id[i] = data[pos + i];
        i += 1;
    }
    assert(id@ =~= data@.subrange(pos as int, pos + 20));
    id
}

/// Reads the first entry of a tree payload.
pub fn read_tree_entry(data: &[u8]) -> (res: Result<(TreeObject, usize), RuntimeError>)
    ensures
        match parse_tree_entry(data@) {
            Ok((entry, used)) => res matches Ok((object, n)) && object@ == entry && n == used
                && 0 < n <= data@.len(),
            Err(e) => res matches Err(f) && f == e,
        },
{
    let nul = find_byte(data, 0, 0);
    if nul >= data.len() {
        return Err(RuntimeError::CorruptEntry);
    }
    let space = find_byte(slice_subrange(data, 0, nul), 0x20, 0);
    if space >= nul || data.len() - nul < 21 {
        return Err(RuntimeError::CorruptEntry);
    }
    let mode = match utf8_to_string(copy_range(data, 0, space)) {
        Some(mode) => mode,
        None => {
            return Err(RuntimeError::UnexpectedChar);
        },
    };
    let name = match utf8_to_string(copy_range(data, space + 1, nul)) {
        Some(name) => name,
        None => {
            return Err(RuntimeError::UnexpectedChar);
        },
    };
    let kind = match Kind::from_mode(mode.as_str()) {
        Ok(kind) => kind,
        Err(_) => {
            return Err(RuntimeError::InvalidMode);
        },
    };
    let hash = id_from_slice(data, nul + 1);
    proof {
        decode_utf8_encode_utf8(data@.subrange(0, space as int));
        decode_utf8_encode_utf8(data@.subrange(space + 1, nul as int));
    }
    Ok((TreeObject { mode, kind, name, hash }, nul + 21))
}

/// Reads the entries of a tree payload.
pub fn read_tree(data: &[u8]) -> (res: Result<Vec<TreeObject>, RuntimeError>)
    ensures
        match parse_tree(data@) {
            Ok(entries) => res matches Ok(objects) && entry_views(objects@) == entries,
            Err(e) => res matches Err(f) && f == e,
        },
{
    let mut entries: Vec<TreeObject> = Vec::new();
    let mut pos: usize = 0;
    assert(data@.skip(0) =~= data@);
    assert(entry_views(entries@) + Seq::<TreeEntry>::empty() =~= entry_views(entries@));
    while pos < data.len()
        invariant
            pos <= data@.len(),
            parse_tree(data@) == entries_then(
                entry_views(entries@),
                parse_tree(data@.skip(pos as int)),
            ),
        decreases data@.len() - pos,
    {
        let rest = slice_subrange(data, pos, data.len());
        assert(rest@ =~= data@.skip(pos as int));
        match read_tree_entry(rest) {
            Err(e) => {
                return Err(e);
            },
            Ok((entry, used)) => {
                proof {
                    let done = entry_views(entries@);
                    assert(data@.skip(pos as int).skip(used as int) =~= data@.skip(pos + used));
                    assert(entry_views(entries@.push(entry)) =~= done.push(entry@));
                    match parse_tree(data@.skip(pos + used)) {
                        Ok(more) => {
                            assert(done + (seq![entry@] + more) =~= done.push(entry@) + more);
                        },
                        Err(_) => {},
                    }
                }
                entries.push(entry);
                pos = pos + used;
            },
        }
    }
    assert(entry_views(entries@) + Seq::<TreeEntry>::empty() =~= entry_views(entries@));
    Ok(entries)
}

/// The length of the longest name among `entries`.
pub open spec fn max_name_len(entries: Seq<TreeEntry>) -> nat
    decreases entries.len(),
{
    if entries.len() == 0 {
        0
    } else {
        let rest = max_name_len(entries.drop_last());
        if entries.last().name.len() > rest {
            entries.last().name.len()
        } else {
            rest
        }
    }
}

/// The line that lists one entry of a tree: the mode with zeros in front up
/// to six digits, the kind text, the id in hexadecimal, four spaces, and the
/// name with spaces in front up to `width` bytes.
pub open spec fn listing_line(e: TreeEntry, width: nat) -> Seq<u8> {
    repeat(48, 6 - e.mode.len()) + e.mode + seq![0x20u8] + kind_text(e.kind) + seq![0x20u8]
        + hex_bytes(e.hash) + seq![0x20u8, 0x20u8, 0x20u8, 0x20u8] + repeat(
        0x20,
        width - e.name.len(),
    ) + e.name
}

/// The lines of `entries`, in their order, with a line feed between one line
/// and the next.
pub open spec fn listing(entries: Seq<TreeEntry>, width: nat) -> Seq<u8>
    decreases entries.len(),
{
    if entries.len() == 0 {
        Seq::empty()
    } else if entries.len() == 1 {
        listing_line(entries[0], width)
    } else {
        listing(entries.drop_last(), width) + seq![0x0au8] + listing_line(entries.last(), width)
    }
}

/// The listing of a tree: its entries sorted by name, one line each, the
/// names lined up on the right at the length of the longest.
pub open spec fn tree_listing(entries: Seq<TreeEntry>) -> Seq<u8> {
    listing(sort_entries(entries), max_name_len(entries))
}

/// The bytes of the text that shows an object: the payload itself for a
/// blob, a commit or a link; the listing of its entries for a tree, which
/// fails as reading the entries fails.
pub open spec fn render(kind: Kind, data: Seq<u8>) -> Result<Seq<u8>, RuntimeError> {
    match kind {
        Kind::Tree => match parse_tree(data) {
            Ok(entries) => Ok(tree_listing(entries)),
            Err(e) => Err(e),
        },
        _ => Ok(data),
    }
}

/// The length of the longest name among `entries`.
pub fn longest_name(entries: &Vec<TreeObject>) -> (res: usize)
    ensures
        res == max_name_len(entry_views(entries@)),
{
    let ghost views = entry_views(entries@);
    let mut width: usize = 0;
    let mut i: usize = 0;
    while i < entries.len()
        invariant
            i <= entries@.len(),
            views == entry_views(entries@),
            width == max_name_len(views.take(i as int)),
        decreases entries@.len() - i,
    {
        proof {
            assert(views.take(i + 1).drop_last() =~= views.take(i as int));
            assert(views.take(i + 1).last() == entries@[i as int]@);
        }
        let len = entries[i].name.as_str().as_bytes().len();
        if len > width {
            width = len;
        }
        i += 1;
    }
    assert(views.take(entries@.len() as int) =~= views);
    width
}

/// Appends the line that lists `entry`.
pub fn push_listing_line(out: &mut Vec<u8>, entry: &TreeObject, width: usize)
    ensures
        final(out)@ == old(out)@ + listing_line(entry@, width as nat),
{
    let mode = entry.mode.as_str().as_bytes();
    let name = entry.name.as_str().as_bytes();
    let zeros: usize = if mode.len() < 6 { 6 - mode.len() } else { 0 };
    let spaces: usize = if name.len() < width { width - name.len() } else { 0 };
    let hex = hex_encode(entry.hash.as_slice());
    push_repeat(out, 48, zeros);
    out.extend_from_slice(mode);
    out.push(0x20);
    push_str(out, entry.kind.string());
    out.push(0x20);
    out.extend_from_slice(hex.as_slice());
    out.push(0x20);
    out.push(0x20);
    out.push(0x20);
    out.push(0x20);
    push_repeat(out, 0x20, spaces);
    out.extend_from_slice(name);
    assert(out@ =~= old(out)@ + listing_line(entry@, width as nat));
}

/// Writes the lines of `entries`, in their order.
pub fn list_entries(entries: &Vec<TreeObject>, width: usize) -> (res: Vec<u8>)
    ensures
        res@ == listing(entry_views(entries@), width as nat),
{
    let ghost views = entry_views(entries@);
    let mut out: Vec<u8> = Vec::new();
    let mut i: usize = 0;
    while i < entries.len()
        invariant
            i <= entries@.len(),
            views == entry_views(entries@),
            out@ == listing(views.take(i as int), width as nat),
        decreases entries@.len() - i,
    {
        proof {
            assert(views.take(i + 1).drop_last() =~= views.take(i as int));
            assert(views.take(i + 1).last() == entries@[i as int]@);
            assert(views.take(i + 1)[0] == views[0]);
        }
        if i > 0 {
            out.push(0x0a);
        }
        push_listing_line(&mut out, &entries[i], width);
        i += 1;
    }
    assert(views.take(entries@.len() as int) =~= views);
    out
}

/// The bytes of the text that shows an object of kind `kind` with payload
/// `data`.
pub fn render_bytes(kind: Kind, data: &[u8]) -> (res: Result<Vec<u8>, RuntimeError>)
    ensures
        match render(kind, data@) {
            Ok(bytes) => res matches Ok(out) && out@ == bytes,
            Err(e) => res matches Err(f) && f == e,
        },
{
    match kind {
        Kind::Tree => {
            let mut entries = read_tree(data)?;
            let width = longest_name(&entries);
            sort_by_name(&mut entries);
            Ok(list_entries(&entries, width))
        },
        _ => Ok(copy_range(data, 0, data.len())),
    }
}

/// Bytes below 128 are UTF-8.
pub proof fn lemma_plain_is_text(bytes: Seq<u8>)
    requires
        forall|i: int| 0 <= i < bytes.len() ==> bytes[i] < 128,
    ensures
        valid_utf8(bytes),
{
    let text = Seq::new(bytes.len(), |i: int| bytes[i] as char);
    assert forall|i: int| 0 <= i < text.len() implies '\0' <= #[trigger] text[i] <= '\u{7f}' by {
        assert(bytes[i] < 128);
    }
    lemma_ascii(text);
    assert forall|i: int| 0 <= i < text.len() implies ascii(text)[i] == bytes[i] by {
        assert(bytes[i] < 128);
    }
    assert(ascii(text) =~= bytes);
    encode_utf8_valid_utf8(text);
}

/// Whether mode and name of an entry are UTF-8.
pub open spec fn is_text_entry(e: TreeEntry) -> bool {
    valid_utf8(e.mode) && valid_utf8(e.name)
}

/// Whether mode and name of every entry are UTF-8.
pub open spec fn are_text_entries(entries: Seq<TreeEntry>) -> bool {
    forall|i: int| 0 <= i < entries.len() ==> is_text_entry(#[trigger] entries[i])
}

/// The line that lists an entry whose mode and name are UTF-8 is UTF-8.
pub proof fn lemma_listing_line_is_text(e: TreeEntry, width: nat)
    requires
        is_text_entry(e),
    ensures
        valid_utf8(listing_line(e, width)),
{
    let zeros = repeat(48, 6 - e.mode.len());
    let blank = seq![0x20u8];
    let gap = seq![0x20u8, 0x20u8, 0x20u8, 0x20u8];
    let pad = repeat(0x20, width - e.name.len());
    let hex = hex_bytes(e.hash);
    lemma_plain_is_text(zeros);
    lemma_plain_is_text(blank);
    lemma_plain_is_text(gap);
    lemma_plain_is_text(pad);
    lemma_hex_bytes_plain(e.hash);
    lemma_plain_is_text(hex);
    encode_utf8_valid_utf8(e.kind.text());
    let a = zeros + e.mode;
    valid_utf8_concat(zeros, e.mode);
    let b = a + blank;
    valid_utf8_concat(a, blank);
    let c = b + kind_text(e.kind);
    valid_utf8_concat(b, kind_text(e.kind));
    let d = c + blank;
    valid_utf8_concat(c, blank);
    let f = d + hex;
    valid_utf8_concat(d, hex);
    let g = f + gap;
    valid_utf8_concat(f, gap);
    let h = g + pad;
    valid_utf8_concat(g, pad);
    valid_utf8_concat(h, e.name);
    assert(listing_line(e, width) == h + e.name);
}

/// The lines of entries whose modes and names are UTF-8 are UTF-8.
pub proof fn lemma_listing_is_text(entries: Seq<TreeEntry>, width: nat)
    requires
        are_text_entries(entries),
    ensures
        valid_utf8(listing(entries, width)),
    decreases entries.len(),
{
    if entries.len() == 0 {
        assert(valid_utf8(Seq::<u8>::empty()));
    } else if entries.len() == 1 {
        lemma_listing_line_is_text(entries[0], width);
    } else {
        let front = entries.drop_last();
        assert forall|i: int| 0 <= i < front.len() implies is_text_entry(#[trigger] front[i]) by {
            assert(front[i] == entries[i]);
        }
        lemma_listing_is_text(front, width);
        lemma_listing_line_is_text(entries.last(), width);
        let feed = seq![0x0au8];
        lemma_plain_is_text(feed);
        valid_utf8_concat(listing(front, width), feed);
        valid_utf8_concat(listing(front, width) + feed, listing_line(entries.last(), width));
    }
}

/// The entries that are read from a tree payload have modes and names that
/// are UTF-8.
pub proof fn lemma_parsed_entries_are_text(data: Seq<u8>)
    ensures
        parse_tree(data) matches Ok(entries) ==> are_text_entries(entries),
    decreases data.len(),
{
    if data.len() > 0 {
        match parse_tree_entry(data) {
            Err(_) => {},
            Ok((entry, used)) => {
                if 0 < used <= data.len() {
                    lemma_parsed_entries_are_text(data.skip(used));
                    match parse_tree(data.skip(used)) {
                        Ok(more) => {
                            let all = seq![entry] + more;
                            assert forall|i: int| 0 <= i < all.len() implies is_text_entry(
                                #[trigger] all[i],
                            ) by {
                                if i > 0 {
                                    assert(all[i] == more[i - 1]);
                                }
                            }
                        },
                        Err(_) => {},
                    }
                }
            },
        }
    }
}

/// Every tree that can be read can be shown: its listing is UTF-8.
pub proof fn lemma_tree_listing_is_text(data: Seq<u8>)
    ensures
        parse_tree(data) matches Ok(entries) ==> valid_utf8(tree_listing(entries)),
{
    lemma_parsed_entries_are_text(data);
    match parse_tree(data) {
        Ok(entries) => {
            let sorted = sort_entries(entries);
            lemma_sort_entries(entries);
            sorted.to_multiset_ensures();
            entries.to_multiset_ensures();
            assert forall|i: int| 0 <= i < sorted.len() implies is_text_entry(
                #[trigger] sorted[i],
            ) by {
                let e = sorted[i];
                assert(sorted.contains(e));
                assert(entries.to_multiset().count(e) > 0);
                assert(entries.contains(e));
                let k = choose|k: int| 0 <= k < entries.len() && entries[k] == e;
                assert(is_text_entry(entries[k]));
            }
            lemma_listing_is_text(sorted, max_name_len(entries));
        },
        Err(_) => {},
    }
}

impl Object {
    /// The text that shows the object: the payload of a blob, a commit or a
    /// link, decoded as UTF-8; for a tree, one line for each entry, sorted by
    /// name. Fails as `render` does, and with `UnexpectedChar` where the
    /// bytes to show are not UTF-8, which does not happen with a tree.
    pub fn string(&self) -> (res: Result<String, RuntimeError>)
        ensures
            match render(self.kind, self.data@) {
                Ok(bytes) => if valid_utf8(bytes) {
                    res matches Ok(text) && text@ == decode_utf8(bytes)
                } else {
                    res matches Err(e) && e == RuntimeError::UnexpectedChar
                },
                Err(e) => res matches Err(f) && f == e,
            },
            self.kind == Kind::Tree ==> match parse_tree(self.data@) {
                Ok(entries) => res matches Ok(text) && text@ == decode_utf8(tree_listing(entries)),
                Err(e) => res matches Err(f) && f == e,
            },
    {
        proof {
            lemma_tree_listing_is_text(self.data@);
        }
        let bytes = render_bytes(self.kind, self.data.as_slice())?;
        match utf8_to_string(bytes) {
            Some(text) => Ok(text),
            None => Err(RuntimeError::UnexpectedChar),
        }
    }
}

/// The kind texts are plain ASCII words, and no two of them are alike.
pub proof fn lemma_kind_text(kind: Kind)
    ensures
        kind_text(kind) == ascii(kind.text()),
        kind_text(kind).len() > 0,
        forall|i: int| 0 <= i < kind_text(kind).len() ==> 97 <= #[trigger] kind_text(kind)[i] <= 122,
        kind_of_text(kind_text(kind)) == Some(stored_kind(kind)),
{
    reveal_strlit("blob");
    reveal_strlit("commit");
    reveal_strlit("tree");
    reveal_strlit("symlink");
    lemma_ascii("blob"@);
    lemma_ascii("commit"@);
    lemma_ascii("tree"@);
    lemma_ascii("symlink"@);
    assert(ascii("blob"@)[0] != ascii("tree"@)[0]);
}

/// The flag of a blob is not written: a blob has the same frame, the same
/// id and the same file with the flag set and without it.
pub proof fn lemma_flag_unwritten(payload: Seq<u8>)
    ensures
        frame(Kind::Blob(true), payload) == frame(Kind::Blob(false), payload),
        object_id_of(Kind::Blob(true), payload) == object_id_of(Kind::Blob(false), payload),
        encoded(Kind::Blob(true), payload) == encoded(Kind::Blob(false), payload),
{
}

/// A frame taken apart gives back the kind (but for the flag of a blob), the
/// length of the payload and the payload.
pub proof fn lemma_frame_round_trip(kind: Kind, payload: Seq<u8>)
    requires
        payload.len() <= usize::MAX,
    ensures
        parse_frame(frame(kind, payload)) == Ok::<(Kind, nat, Seq<u8>), RuntimeError>(
            (stored_kind(kind), payload.len(), payload),
        ),
{
    let text = kind_text(kind);
    let digits = decimal(payload.len());
    let data = frame(kind, payload);
    let nul: int = (text.len() + 1 + digits.len()) as int;
    let tl: int = text.len() as int;
    lemma_kind_text(kind);
    lemma_decimal_round_trip(payload.len());
    assert forall|j: int| 0 <= j < nul implies data[j] != 0 by {
        if j < text.len() {
            assert(data[j] == text[j]);
        } else if j > text.len() {
            assert(data[j] == digits[j - text.len() - 1]);
        }
    }
    assert(data[nul] == 0);
    lemma_index_of_is(data, 0, 0, nul);
    let head = data.subrange(0, nul);
    assert(head =~= text + seq![0x20u8] + digits);
    assert forall|j: int| 0 <= j < text.len() implies head[j] != 0x20 by {
        assert(head[j] == text[j]);
    }
    assert(head[tl] == 0x20);
    lemma_index_of_is(head, 0x20, 0, tl);
    assert(head.subrange(0, tl) =~= text);
    assert(head.subrange(tl + 1, nul) =~= digits);
    assert(data.subrange(nul + 1, data.len() as int) =~= payload);
}

/// Object identity: what was encoded for the store is decoded to the same
/// payload, of the same length and kind (but for the flag of a blob).
///
/// `stored` stands for the bytes of the file: any zlib stream that inflates
/// to the frame of the object, as `encode_object` makes one.
pub proof fn lemma_object_round_trip(kind: Kind, payload: Seq<u8>, stored: Seq<u8>)
    requires
        payload.len() <= usize::MAX,
        zlib_inflate(stored) matches Some(r) && r.0 == frame(kind, payload),
    ensures
        decode_object(stored) == Ok::<(Kind, nat, Seq<u8>), RuntimeError>(
            (stored_kind(kind), payload.len(), payload),
        ),
{
    lemma_frame_round_trip(kind, payload);
}

} // verus!
