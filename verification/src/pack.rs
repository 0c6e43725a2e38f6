use vstd::prelude::*;
use vstd::slice::slice_subrange;
use vstd::utf8::encode_utf8;
use crate::bytes::{be_u32, decimal, hex_number, push_decimal, push_hex, read_be_u32};
use crate::delta::{apply_delta, lemma_apply_delta_sizes, patch, patched_size};
use crate::digest::{hex_bytes, hex_encode, sha1, sha1_digest};
use crate::error::RuntimeError;
use crate::text::{bytes_eq, push_str};
use crate::varint::{read_vli_be, read_vli_le, vli_be, vli_le};
use crate::zlib::{inflate, zlib_inflate};

verus! {

/// The head of a pack: its signature, its version, and the number of
/// objects that follow.
#[derive(Debug)]
pub struct PackHeader {
    pub signature: [u8; 4],
    pub version: u32,
    pub num_objects: u32,
}

/// The type of a record in a pack.
#[derive(Debug, Clone, Copy, PartialEq, Eq, Structural)]
pub enum PackObjectType {
    Commit,
    Tree,
    Blob,
    Tag,
    /// A delta whose base is named by its distance back in the pack.
    OfsDelta,
    /// A delta whose base is named by its id.
    RefDelta,
}

/// An object read from a pack: its type and size, its payload, and where
/// its record starts and ends in the pack. A delta comes out rebuilt: with
/// the type of its base, its full payload, and the size of that payload.
#[derive(Debug)]
pub struct PackObject {
    pub object_type: PackObjectType,
    pub object_size: u32,
    pub object_data: Vec<u8>,
    pub pos: u64,
    pub end_pos: u64,
}

/// An object read from a pack, as plain values.
pub struct PackEntry {
    pub kind: PackObjectType,
    pub size: nat,
    pub data: Seq<u8>,
    pub pos: int,
    pub end_pos: int,
}

impl PackObject {
    /// The object as plain values.
    pub open spec fn view(&self) -> PackEntry {
        PackEntry {
            kind: self.object_type,
            size: self.object_size as nat,
            data: self.object_data@,
            pos: self.pos as int,
            end_pos: self.end_pos as int,
        }
    }
}

/// The type that a type number stands for: 1 to 4 and 6, 7; 0 and 5 stand
/// for none.
pub open spec fn type_of_code(code: int) -> Option<PackObjectType> {
    if code == 1 {
        Some(PackObjectType::Commit)
    } else if code == 2 {
        Some(PackObjectType::Tree)
    } else if code == 3 {
        Some(PackObjectType::Blob)
    } else if code == 4 {
        Some(PackObjectType::Tag)
    } else if code == 6 {
        Some(PackObjectType::OfsDelta)
    } else if code == 7 {
        Some(PackObjectType::RefDelta)
    } else {
        None
    }
}

impl PackObjectType {
    /// The text of the type.
    pub open spec fn text(self) -> Seq<char> {
        match self {
            PackObjectType::Commit => "commit"@,
            PackObjectType::Tree => "tree"@,
            PackObjectType::Blob => "blob"@,
            PackObjectType::Tag => "tag"@,
            PackObjectType::OfsDelta => "ofs-delta"@,
            PackObjectType::RefDelta => "ref-delta"@,
        }
    }

    /// Whether the type is one of the four that carry a payload of their
    /// own, and no delta.
    pub open spec fn is_base(self) -> bool {
        self != PackObjectType::OfsDelta && self != PackObjectType::RefDelta
    }

    /// Reads a type number. Fails with `UnknownKind` on 0, 5 and all above 7.
    pub fn from_u8(value: u8) -> (res: Result<PackObjectType, RuntimeError>)
        ensures
            res == match type_of_code(value as int) {
                Some(kind) => Ok::<PackObjectType, RuntimeError>(kind),
                None => Err(RuntimeError::UnknownKind),
            },
    {
        match value {
            1 => Ok(PackObjectType::Commit),
            2 => Ok(PackObjectType::Tree),
            3 => Ok(PackObjectType::Blob),
            4 => Ok(PackObjectType::Tag),
            6 => Ok(PackObjectType::OfsDelta),
            7 => Ok(PackObjectType::RefDelta),
            _ => Err(RuntimeError::UnknownKind),
        }
    }

    /// The text of the type.
    pub fn string(&self) -> (res: &'static str)
        ensures
            res@ == self.text(),
    {
        match self {
            PackObjectType::Commit => "commit",
            PackObjectType::Tree => "tree",
            PackObjectType::Blob => "blob",
            PackObjectType::Tag => "tag",
            PackObjectType::OfsDelta => "ofs-delta",
            PackObjectType::RefDelta => "ref-delta",
        }
    }
}

/// The signature of a pack: `PACK`.
pub open spec fn pack_signature() -> Seq<u8> {
    seq![0x50u8, 0x41u8, 0x43u8, 0x4bu8]
}

/// The number of objects that the head of a pack announces.
///
/// Fails with `CorruptHeader` where the data are shorter than the 12 bytes
/// of the head, with `InvalidMagic` where they do not start with `PACK`, and
/// with `UnsupportedVersion` where the version is not 2.
pub open spec fn pack_header(data: Seq<u8>) -> Result<nat, RuntimeError> {
    if data.len() < 12 {
        Err(RuntimeError::CorruptHeader)
    } else if data.subrange(0, 4) != pack_signature() {
        Err(RuntimeError::InvalidMagic)
    } else if be_u32(data.subrange(4, 8)) != 2 {
        Err(RuntimeError::UnsupportedVersion)
    } else {
        Ok(be_u32(data.subrange(8, 12)) as nat)
    }
}

/// Reads the head of a pack.
pub fn parse_pack_header(data: &[u8]) -> (res: Result<PackHeader, RuntimeError>)
    ensures
        match pack_header(data@) {
            Ok(count) => res matches Ok(header) && header.num_objects == count && header.version
                == 2 && header.signature@ == pack_signature(),
            Err(e) => res matches Err(f) && f == e,
        },
{
    if data.len() < 12 {
        return Err(RuntimeError::CorruptHeader);
    }
    let signature: [u8; 4] = [0x50, 0x41, 0x43, 0x4b];
    assert(signature@ =~= pack_signature());
    if !bytes_eq(slice_subrange(data, 0, 4), signature.as_slice()) {
        return Err(RuntimeError::InvalidMagic);
    }
    let version = read_be_u32(data, 4);
    if version != 2 {
        return Err(RuntimeError::UnsupportedVersion);
    }
    let num_objects = read_be_u32(data, 8);
    Ok(PackHeader { signature, version, num_objects })
}

/// The head of the record at `pos`: its type number, the size it announces,
/// and the place where its body starts.
///
/// In the first byte, bits 4 to 6 are the type and bits 0 to 3 the lowest
/// four bits of the size; where the byte is 128 or more, the rest of the
/// size follows in groups of seven bits, lowest group first. `None` where
/// the data end inside the head.
pub open spec fn entry_header(data: Seq<u8>, pos: int) -> Option<(int, nat, int)> {
    if pos < 0 || pos >= data.len() {
        None
    } else {
        let first = data[pos];
        let code = (first as int / 16) % 8;
        let low = (first % 16) as nat;
        if first < 128 {
            Some((code, low, pos + 1))
        } else {
            match vli_le(data, pos + 1) {
                None => None,
                Some((rest, body)) => Some((code, low + 16 * rest, body)),
            }
        }
    }
}

/// Reads the head of the record at `pos`. Fails with `CorruptEntry` where
/// the data end inside the head or the size does not fit in 32 bits.
pub fn read_entry_header(data: &[u8], pos: usize) -> (res: Result<(u8, u32, usize), RuntimeError>)
    ensures
        match entry_header(data@, pos as int) {
            Some((code, size, body)) => if size <= u32::MAX {
                res == Ok::<(u8, u32, usize), RuntimeError>((code as u8, size as u32, body as usize))
                    && pos < body <= data@.len() <= usize::MAX && 0 <= code < 8
            } else {
                res == Err::<(u8, u32, usize), RuntimeError>(RuntimeError::CorruptEntry)
            },
            None => res == Err::<(u8, u32, usize), RuntimeError>(RuntimeError::CorruptEntry),
        },
{
    if pos >= data.len() {
        return Err(RuntimeError::CorruptEntry);
    }
    let first = data[pos];
    let code: u8 = (first / 16) % 8;
    let low: u64 = (first % 16) as u64;
    if first < 128 {
        return Ok((code, low as u32, pos + 1));
    }
    match read_vli_le(data, pos + 1) {
        Err(e) => Err(e),
        Ok((rest, body)) => {
            let size: u64 = low + 16 * (rest as u64);
            if size > 0xffff_ffff {
                Err(RuntimeError::CorruptEntry)
            } else {
                Ok((code, size as u32, body))
            }
        },
    }
}

/// What the zlib stream at `pos` holds, and the place behind it. Fails with
/// `CorruptEntry` where there is no complete zlib stream at `pos`, and with
/// `SizeMismatch` where it does not hold `size` bytes.
pub open spec fn inflate_at(data: Seq<u8>, pos: int, size: nat) -> Result<
    (Seq<u8>, int),
    RuntimeError,
> {
    match zlib_inflate(data.skip(pos)) {
        None => Err(RuntimeError::CorruptEntry),
        Some((out, used)) => if out.len() != size {
            Err(RuntimeError::SizeMismatch)
        } else {
            Ok((out, pos + used))
        },
    }
}

/// The object that a delta record at `pos` stands for, given its base: the
/// zlib stream at `delta_pos` holds the delta, of `size` bytes, and what
/// the delta builds from the payload of the base is the payload. The object
/// has the type of the base.
pub open spec fn delta_entry(
    data: Seq<u8>,
    base: PackEntry,
    size: nat,
    pos: int,
    delta_pos: int,
) -> Result<PackEntry, RuntimeError> {
    match inflate_at(data, delta_pos, size) {
        Err(e) => Err(e),
        Ok((delta, end)) => match apply_delta(base.data, delta) {
            Err(e) => Err(e),
            Ok(out) => Ok(
                PackEntry { kind: base.kind, size: out.len(), data: out, pos, end_pos: end },
            ),
        },
    }
}

/// The object of the record that starts at `pos` in the pack `data`.
///
/// A record of one of the four plain types holds its payload as a zlib
/// stream behind its head. A record of type `OfsDelta` holds the distance
/// back to the record of its base, then its delta as a zlib stream; the
/// base may be a delta in turn.
///
/// Fails with `CorruptEntry` where the head, the distance or a zlib stream
/// is cut short or malformed, the size or the distance is out of range, or
/// a delta is malformed; with `UnknownKind` on the type numbers 0 and 5;
/// with `UnsupportedFeature` on a delta whose base is named by id; with
/// `SizeMismatch` where a stream, a base or a result does not have the
/// announced length.
pub open spec fn parse_entry(data: Seq<u8>, pos: int) -> Result<PackEntry, RuntimeError>
    decreases pos,
{
    match entry_header(data, pos) {
        None => Err(RuntimeError::CorruptEntry),
        Some((code, size, body)) => if size > u32::MAX {
            Err(RuntimeError::CorruptEntry)
        } else {
            match type_of_code(code) {
                None => Err(RuntimeError::UnknownKind),
                Some(PackObjectType::RefDelta) => Err(RuntimeError::UnsupportedFeature),
                Some(PackObjectType::OfsDelta) => match vli_be(data, body, 0) {
                    None => Err(RuntimeError::CorruptEntry),
                    Some((offset, delta_pos)) => if offset == 0 || offset > pos {
                        Err(RuntimeError::CorruptEntry)
                    } else {
                        match parse_entry(data, pos - offset) {
                            Err(e) => Err(e),
                            Ok(base) => delta_entry(data, base, size, pos, delta_pos),
                        }
                    },
                },
                Some(kind) => match inflate_at(data, body, size) {
                    Err(e) => Err(e),
                    Ok((payload, end)) => Ok(
                        PackEntry { kind, size, data: payload, pos, end_pos: end },
                    ),
                },
            }
        }
    }
}

/// The type number of the record at the far end of the chain of bases that
/// starts at `pos`: of the record itself where it is no delta.
pub open spec fn ancestor_code(data: Seq<u8>, pos: int) -> int
    decreases pos,
{
    match entry_header(data, pos) {
        None => 0,
        Some((code, _, body)) => if code == 6 {
            match vli_be(data, body, 0) {
                None => code,
                Some((offset, _)) => if 0 < offset <= pos {
                    ancestor_code(data, pos - offset)
                } else {
                    code
                },
            }
        } else {
            code
        },
    }
}

/// The size that the record at `pos` declares for its object: the size in
/// its head for a plain record, and for a delta the length of the result
/// that the delta announces.
pub open spec fn declared_size(data: Seq<u8>, pos: int) -> Option<nat> {
    match entry_header(data, pos) {
        None => None,
        Some((code, size, body)) => if code == 6 {
            match vli_be(data, body, 0) {
                None => None,
                Some((_, delta_pos)) => match zlib_inflate(data.skip(delta_pos)) {
                    None => None,
                    Some((delta, _)) => patched_size(delta),
                },
            }
        } else {
            Some(size)
        },
    }
}

/// Pack invariants: of every object read from a pack, the payload is as
/// long as the size that its record declares, which for a delta is the
/// length that the delta announces for its result; its type is no delta,
/// and is the type of the record at the far end of its chain of bases; it
/// starts where it was looked for.
pub proof fn lemma_parse_entry(data: Seq<u8>, pos: int)
    ensures
        parse_entry(data, pos) matches Ok(entry) ==> {
            &&& entry.data.len() == entry.size
            &&& declared_size(data, pos) == Some(entry.size)
            &&& entry.kind.is_base()
            &&& type_of_code(ancestor_code(data, pos)) == Some(entry.kind)
            &&& entry.pos == pos
        },
    decreases pos,
{
    match entry_header(data, pos) {
        None => {},
        Some((code, size, body)) => {
            if code == 6 {
                match vli_be(data, body, 0) {
                    None => {},
                    Some((offset, delta_pos)) => {
                        if 0 < offset <= pos {
                            lemma_parse_entry(data, pos - offset);
                            match parse_entry(data, pos - offset) {
                                Ok(base) => match zlib_inflate(data.skip(delta_pos)) {
                                    Some((delta, _)) => {
                                        lemma_apply_delta_sizes(base.data, delta);
                                    },
                                    None => {},
                                },
                                Err(_) => {},
                            }
                        }
                    },
                }
            }
        },
    }
}

/// Inflates the zlib stream at `pos`, which must hold `size` bytes.
pub fn decompress_file(data: &[u8], pos: usize, size: u32) -> (res: Result<
    (Vec<u8>, usize),
    RuntimeError,
>)
    requires
        pos <= data@.len(),
    ensures
        match inflate_at(data@, pos as int, size as nat) {
            Ok((bytes, end)) => res matches Ok((out, at)) && out@ == bytes && at == end && pos <= at
                <= data@.len(),
            Err(e) => res matches Err(f) && f == e,
        },
{
    let rest = slice_subrange(data, pos, data.len());
    assert(rest@ =~= data@.skip(pos as int));
    match inflate(rest) {
        None => Err(RuntimeError::CorruptEntry),
        Some((out, used)) => {
            if out.len() > 0xffff_ffff || out.len() as u32 != size {
                Err(RuntimeError::SizeMismatch)
            } else {
                Ok((out, pos + used))
            }
        },
    }
}

/// Rebuilds the object of a delta record from its base.
pub fn make_delta_obj(
    data: &[u8],
    base_obj: &PackObject,
    object_size: u32,
    object_pos: usize,
    delta_pos: usize,
) -> (res: Result<PackObject, RuntimeError>)
    requires
        object_pos <= delta_pos <= data@.len(),
    ensures
        match delta_entry(data@, base_obj@, object_size as nat, object_pos as int, delta_pos as int) {
            Ok(entry) => res matches Ok(object) && object@ == entry,
            Err(e) => res matches Err(f) && f == e,
        },
        res matches Ok(object) ==> delta_pos <= object.end_pos <= data@.len(),
{
    let (delta, end) = match decompress_file(data, delta_pos, object_size) {
        Ok(found) => found,
        Err(e) => {
            return Err(e);
        },
    };
    let out = match patch(base_obj.object_data.as_slice(), delta.as_slice()) {
        Ok(out) => out,
        Err(e) => {
            return Err(e);
        },
    };
    Ok(
        PackObject {
            object_type: base_obj.object_type,
            object_size: out.len() as u32,
            object_data: out,
            pos: object_pos as u64,
            end_pos: end as u64,
        },
    )
}

/// Where the base of the delta record at `pos` starts, and where its delta
/// starts: the distance back to the base stands at `body`, and the delta
/// behind it. Fails with `CorruptEntry` where the distance is cut short, is
/// zero, or reaches back beyond the start of the pack.
pub open spec fn delta_base(data: Seq<u8>, pos: int, body: int) -> Result<(int, int), RuntimeError> {
    match vli_be(data, body, 0) {
        None => Err(RuntimeError::CorruptEntry),
        Some((offset, delta_pos)) => if offset == 0 || offset > pos {
            Err(RuntimeError::CorruptEntry)
        } else {
            Ok((pos - offset, delta_pos))
        },
    }
}

/// Reads the distance of a delta record back to its base: gives the place
/// of the base and the place of the delta.
pub fn parse_pack_ofs_delta_object(data: &[u8], fpos: usize, body: usize) -> (res: Result<
    (usize, usize),
    RuntimeError,
>)
    ensures
        match delta_base(data@, fpos as int, body as int) {
            Ok((base_pos, delta_pos)) => res == Ok::<(usize, usize), RuntimeError>(
                (base_pos as usize, delta_pos as usize),
            ) && 0 <= base_pos < fpos && body < delta_pos <= data@.len(),
            Err(e) => res == Err::<(usize, usize), RuntimeError>(e),
        },
{
    let (offset, delta_pos) = match read_vli_be(data, body, fpos) {
        Ok(found) => found,
        Err(e) => {
            return Err(e);
        },
    };
    if offset == 0 {
        return Err(RuntimeError::CorruptEntry);
    }
    Ok((fpos - offset, delta_pos))
}

/// A delta record on the way from an object to the base at the far end of
/// its chain: where the record starts, the size of its delta, and where its
/// delta starts.
#[derive(Debug, Clone, Copy)]
pub struct DeltaLink {
    pub pos: usize,
    pub size: u32,
    pub delta_pos: usize,
}

/// What the delta records `links` make of `base`: the last of them is
/// applied first, the first of them last.
pub open spec fn resolve(
    data: Seq<u8>,
    links: Seq<DeltaLink>,
    base: Result<PackEntry, RuntimeError>,
) -> Result<PackEntry, RuntimeError>
    decreases links.len(),
{
    if links.len() == 0 {
        base
    } else {
        let link = links.last();
        resolve(
            data,
            links.drop_last(),
            match base {
                Err(e) => Err(e),
                Ok(entry) => delta_entry(
                    data,
                    entry,
                    link.size as nat,
                    link.pos as int,
                    link.delta_pos as int,
                ),
            },
        )
    }
}

/// Deltas make nothing of a base that could not be read.
pub proof fn lemma_resolve_error(data: Seq<u8>, links: Seq<DeltaLink>, e: RuntimeError)
    ensures
        resolve(data, links, Err(e)) == Err::<PackEntry, RuntimeError>(e),
    decreases links.len(),
{
    if links.len() > 0 {
        lemma_resolve_error(data, links.drop_last(), e);
    }
}

/// Whether each of the links starts before its delta, which starts within
/// the data.
pub open spec fn links_fit(links: Seq<DeltaLink>, len: int) -> bool {
    forall|i: int| 0 <= i < links.len() ==> (#[trigger] links[i]).pos < links[i].delta_pos <= len
}

/// Follows the chain of bases from the record at `pos` to the record that is
/// no delta, and reads that one: gives the delta records on the way, the
/// nearest first, and the object at the far end.
pub fn find_base(data: &[u8], pos: usize) -> (res: Result<(Vec<DeltaLink>, PackObject), RuntimeError>)
    ensures
        match res {
            Ok((links, base)) => {
                &&& parse_entry(data@, pos as int) == resolve(
                    data@,
                    links@,
                    Ok::<PackEntry, RuntimeError>(base@),
                )
                &&& links_fit(links@, data@.len() as int)
                &&& links@.len() > 0 ==> links@[0].pos == pos
                &&& links@.len() == 0 ==> base.pos == pos && pos < base.end_pos <= data@.len()
                &&& base.end_pos <= data@.len()
            },
            Err(e) => parse_entry(data@, pos as int) == Err::<PackEntry, RuntimeError>(e),
        },
{
    let mut links: Vec<DeltaLink> = Vec::new();
    let mut at: usize = pos;
    loop
        invariant
            at <= pos,
            parse_entry(data@, pos as int) == resolve(data@, links@, parse_entry(data@, at as int)),
            links_fit(links@, data@.len() as int),
            links@.len() > 0 ==> links@[0].pos == pos,
            links@.len() == 0 ==> at == pos,
        decreases at,
    {
        let (code, object_size, body) = match read_entry_header(data, at) {
            Ok(found) => found,
            Err(e) => {
                proof {
                    lemma_resolve_error(data@, links@, e);
                }
                return Err(e);
            },
        };
        let object_type = match PackObjectType::from_u8(code) {
            Ok(object_type) => object_type,
            Err(e) => {
                proof {
                    lemma_resolve_error(data@, links@, e);
                }
                return Err(e);
            },
        };
        match object_type {
            PackObjectType::RefDelta => {
                proof {
                    lemma_resolve_error(data@, links@, RuntimeError::UnsupportedFeature);
                }
                return Err(RuntimeError::UnsupportedFeature);
            },
            PackObjectType::OfsDelta => {
                let (base_pos, delta_pos) = match parse_pack_ofs_delta_object(data, at, body) {
                    Ok(found) => found,
                    Err(e) => {
                        proof {
                            lemma_resolve_error(data@, links@, e);
                        }
                        return Err(e);
                    },
                };
                let link = DeltaLink { pos: at, size: object_size, delta_pos };
                proof {
                    let longer = links@.push(link);
                    assert(longer.drop_last() =~= links@);
                    assert(longer.last() == link);
                }
                links.push(link);
                at = base_pos;
            },
            _ => {
                let (object_data, end) = match decompress_file(data, body, object_size) {
                    Ok(found) => found,
                    Err(e) => {
                        proof {
                            lemma_resolve_error(data@, links@, e);
                        }
                        return Err(e);
                    },
                };
                let base = PackObject {
                    object_type,
                    object_size,
                    object_data,
                    pos: at as u64,
                    end_pos: end as u64,
                };
                return Ok((links, base));
            },
        }
    }
}

/// Reads the object of the record that starts at `pos`: follows the chain
/// of bases to its far end, reads the object there, and rebuilds the
/// objects of the delta records on the way back, one from the other.
pub fn parse_pack_entry(data: &[u8], pos: usize) -> (res: Result<PackObject, RuntimeError>)
    ensures
        match parse_entry(data@, pos as int) {
            Ok(entry) => res matches Ok(object) && object@ == entry,
            Err(e) => res matches Err(f) && f == e,
        },
        res matches Ok(object) ==> {
            &&& object.object_data@.len() == object.object_size
            &&& declared_size(data@, pos as int) == Some(object.object_size as nat)
            &&& object.object_type.is_base()
            &&& type_of_code(ancestor_code(data@, pos as int)) == Some(object.object_type)
            &&& object.pos == pos
            &&& pos < object.end_pos <= data@.len()
        },
{
    proof {
        lemma_parse_entry(data@, pos as int);
    }
    let total = data.len();
    let (mut links, mut current) = match find_base(data, pos) {
        Ok(found) => found,
        Err(e) => {
            return Err(e);
        },
    };
    while links.len() > 0
        invariant
            total == data@.len(),
            parse_entry(data@, pos as int) == resolve(
                data@,
                links@,
                Ok::<PackEntry, RuntimeError>(current@),
            ),
            links_fit(links@, total as int),
            links@.len() > 0 ==> links@[0].pos == pos,
            links@.len() == 0 ==> pos < current.end_pos <= total,
        decreases links@.len(),
    {
        let ghost before = links@;
        let link = links.pop().unwrap();
        proof {
            assert(link == before.last());
            assert(links@ =~= before.drop_last());
            assert(before[before.len() - 1].pos < before[before.len() - 1].delta_pos <= total);
            assert forall|i: int| 0 <= i < links@.len() implies (#[trigger] links@[i]).pos
                < links@[i].delta_pos <= total by {
                assert(links@[i] == before[i]);
            }
        }
        current = match make_delta_obj(data, &current, link.size, link.pos, link.delta_pos) {
            Ok(object) => object,
            Err(e) => {
                proof {
                    lemma_resolve_error(data@, links@, e);
                }
                return Err(e);
            },
        };
        proof {
            if links@.len() == 0 {
                assert(before[0] == link);
            } else {
                assert(links@[0] == before[0]);
            }
        }
    }
    Ok(current)
}

/// The id of an object read from a pack: the SHA-1 digest of its type text,
/// a space, its size in decimal, a zero byte, and its payload.
pub open spec fn pack_object_id(entry: PackEntry) -> Seq<u8> {
    sha1_digest(
        encode_utf8(entry.kind.text()) + seq![0x20u8] + decimal(entry.size) + seq![0u8] + entry.data,
    )
}

/// The line that lists an object of a pack: its id in hexadecimal, its
/// type, its size, the length of its record and the place where the record
/// starts, with a space between each two and a line feed at the end.
pub open spec fn dump_line(entry: PackEntry) -> Seq<u8> {
    hex_bytes(pack_object_id(entry)) + seq![0x20u8] + encode_utf8(entry.kind.text()) + seq![0x20u8]
        + decimal(entry.size) + seq![0x20u8] + decimal((entry.end_pos - entry.pos) as nat)
        + seq![0x20u8] + decimal(entry.pos as nat) + seq![0x0au8]
}

/// `done`, followed by the text of `rest` where there is any.
pub open spec fn text_then(done: Seq<u8>, rest: Result<(Seq<u8>, int), RuntimeError>) -> Result<
    (Seq<u8>, int),
    RuntimeError,
> {
    match rest {
        Ok((text, end)) => Ok((done + text, end)),
        Err(e) => Err(e),
    }
}

/// The lines of `count` records that follow one another from `pos` on, and
/// the place behind the last. The first record that cannot be read decides
/// the error.
pub open spec fn dump_entries(data: Seq<u8>, pos: int, count: nat) -> Result<
    (Seq<u8>, int),
    RuntimeError,
>
    decreases count,
{
    if count == 0 {
        Ok((Seq::empty(), pos))
    } else {
        match parse_entry(data, pos) {
            Err(e) => Err(e),
            Ok(entry) => text_then(
                dump_line(entry),
                dump_entries(data, entry.end_pos, (count - 1) as nat),
            ),
        }
    }
}

/// The listing of a pack: one line for each object that its head announces.
///
/// Fails as reading the head or a record fails, and with `CorruptEntry`
/// where the 20 bytes behind the last record are missing or are not the
/// SHA-1 digest of all bytes before them.
pub open spec fn dump_pack_text(data: Seq<u8>) -> Result<Seq<u8>, RuntimeError> {
    match pack_header(data) {
        Err(e) => Err(e),
        Ok(count) => match dump_entries(data, 12, count) {
            Err(e) => Err(e),
            Ok((text, end)) => if end + 20 > data.len() || data.subrange(end, end + 20)
                != sha1_digest(data.subrange(0, end)) {
                Err(RuntimeError::CorruptEntry)
            } else {
                Ok(text)
            },
        },
    }
}

/// One more record read: what was listed before, with the line of the
/// record at `pos`, is followed by the listing from the end of that record.
pub proof fn lemma_dump_step(
    data: Seq<u8>,
    whole: Result<(Seq<u8>, int), RuntimeError>,
    done: Seq<u8>,
    pos: int,
    remaining: nat,
    entry: PackEntry,
)
    requires
        remaining > 0,
        whole == text_then(done, dump_entries(data, pos, remaining)),
        parse_entry(data, pos) == Ok::<PackEntry, RuntimeError>(entry),
    ensures
        whole == text_then(
            done + dump_line(entry),
            dump_entries(data, entry.end_pos, (remaining - 1) as nat),
        ),
{
    match dump_entries(data, entry.end_pos, (remaining - 1) as nat) {
        Ok((text, end)) => {
            assert(done + (dump_line(entry) + text) =~= (done + dump_line(entry)) + text);
        },
        Err(_) => {},
    }
}

/// Appends the line that lists `object`.
pub fn push_dump_line(out: &mut Vec<u8>, object: &PackObject)
    requires
        object.pos <= object.end_pos,
        object.end_pos <= usize::MAX,
    ensures
        final(out)@ == old(out)@ + dump_line(object@),
{
    let mut framed: Vec<u8> = Vec::new();
    push_str(&mut framed, object.object_type.string());
    framed.push(0x20);
    push_decimal(&mut framed, object.object_size as usize);
    framed.push(0);
    framed.extend_from_slice(object.object_data.as_slice());
    let id = sha1(framed.as_slice());
    let hex = hex_encode(id.as_slice());
    out.extend_from_slice(hex.as_slice());
    out.push(0x20);
    push_str(out, object.object_type.string());
    out.push(0x20);
    push_decimal(out, object.object_size as usize);
    out.push(0x20);
    push_decimal(out, (object.end_pos - object.pos) as usize);
    out.push(0x20);
    push_decimal(out, object.pos as usize);
    out.push(0x0a);
    proof {
        assert(framed@ =~= encode_utf8(object@.kind.text()) + seq![0x20u8] + decimal(object@.size)
            + seq![0u8] + object@.data);
        assert(out@ =~= old(out)@ + dump_line(object@));
    }
}

/// Reads the record at `pos` and appends its line; gives the place behind
/// the record.
pub fn dump_record(out: &mut Vec<u8>, data: &[u8], pos: usize) -> (res: Result<usize, RuntimeError>)
    ensures
        match parse_entry(data@, pos as int) {
            Ok(entry) => res == Ok::<usize, RuntimeError>(entry.end_pos as usize) && final(out)@
                == old(out)@ + dump_line(entry) && pos < entry.end_pos <= data@.len()
                <= usize::MAX,
            Err(e) => res == Err::<usize, RuntimeError>(e),
        },
{
    let total = data.len();
    let object = match parse_pack_entry(data, pos) {
        Ok(object) => object,
        Err(e) => {
            return Err(e);
        },
    };
    push_dump_line(out, &object);
    Ok(object.end_pos as usize)
}

/// A record that cannot be read ends the listing with its error.
pub proof fn lemma_dump_stop(
    data: Seq<u8>,
    whole: Result<(Seq<u8>, int), RuntimeError>,
    done: Seq<u8>,
    pos: int,
    remaining: nat,
    e: RuntimeError,
)
    requires
        remaining > 0,
        whole == text_then(done, dump_entries(data, pos, remaining)),
        parse_entry(data, pos) == Err::<PackEntry, RuntimeError>(e),
    ensures
        whole == Err::<(Seq<u8>, int), RuntimeError>(e),
{
}

/// Lists the objects of a pack, one line each, after checking its head and
/// the digest at its end.
pub fn dump_pack(data: &[u8]) -> (res: Result<Vec<u8>, RuntimeError>)
    ensures
        match dump_pack_text(data@) {
            Ok(text) => res matches Ok(out) && out@ == text,
            Err(e) => res matches Err(f) && f == e,
        },
{
    let header = match parse_pack_header(data) {
        Ok(header) => header,
        Err(e) => {
            return Err(e);
        },
    };
    let count = header.num_objects;
    let mut out: Vec<u8> = Vec::new();
    let mut pos: usize = 12;
    let mut i: u32 = 0;
    proof {
        match dump_entries(data@, 12, count as nat) {
            Ok((text, end)) => {
                assert(out@ + text =~= text);
            },
            Err(_) => {},
        }
    }
    while i < count
        invariant
            i <= count,
            12 <= pos <= data@.len(),
            pack_header(data@) == Ok::<nat, RuntimeError>(count as nat),
            dump_entries(data@, 12, count as nat) == text_then(
                out@,
                dump_entries(data@, pos as int, (count - i) as nat),
            ),
        decreases count - i,
    {
        let ghost whole = dump_entries(data@, 12, count as nat);
        let ghost done = out@;
        match dump_record(&mut out, data, pos) {
            Err(e) => {
                proof {
                    lemma_dump_stop(data@, whole, done, pos as int, (count - i) as nat, e);
                }
                return Err(e);
            },
            Ok(end) => {
                proof {
                    lemma_dump_step(
                        data@,
                        whole,
                        done,
                        pos as int,
                        (count - i) as nat,
                        parse_entry(data@, pos as int)->Ok_0,
                    );
                }
                pos = end;
            },
        }
        i = i + 1;
    }
    proof {
        assert(out@ + Seq::<u8>::empty() =~= out@);
    }
    if data.len() - pos < 20 {
        return Err(RuntimeError::CorruptEntry);
    }
    let digest = sha1(slice_subrange(data, 0, pos));
    if !bytes_eq(slice_subrange(data, pos, pos + 20), digest.as_slice()) {
        return Err(RuntimeError::CorruptEntry);
    }
    Ok(out)
}

/// An entry of a pack index: the id of an object, the CRC-32 of its record,
/// and the place of its record in the pack.
#[derive(Debug)]
pub struct PackIndexEntry {
    pub name: [u8; 20],
    pub crc32: u32,
    pub offset: u32,
}

/// An entry of a pack index, as plain values.
pub struct IdxEntry {
    pub name: Seq<u8>,
    pub crc32: int,
    pub offset: int,
}

impl PackIndexEntry {
    /// The entry as plain values.
    pub open spec fn view(&self) -> IdxEntry {
        IdxEntry { name: self.name@, crc32: self.crc32 as int, offset: self.offset as int }
    }
}

/// The plain values of a sequence of index entries.
pub open spec fn idx_views(entries: Seq<PackIndexEntry>) -> Seq<IdxEntry> {
    entries.map_values(|e: PackIndexEntry| e@)
}

/// The signature of a pack index: the byte 255 and `tOc`.
pub open spec fn idx_signature() -> Seq<u8> {
    seq![0xffu8, 0x74u8, 0x4fu8, 0x63u8]
}

/// The number of objects of a pack index: the last of the 256 counts that
/// follow its head.
pub open spec fn idx_count(data: Seq<u8>) -> nat {
    be_u32(data.subrange(1028, 1032)) as nat
}

/// Entry `i` of a pack index of `count` objects: the names come first, 20
/// bytes each, then the CRC-32 of each, then the place of each.
pub open spec fn idx_entry(data: Seq<u8>, count: nat, i: int) -> IdxEntry {
    IdxEntry {
        name: data.subrange(1032 + 20 * i, 1052 + 20 * i),
        crc32: be_u32(data.subrange(1032 + 20 * count + 4 * i, 1036 + 20 * count + 4 * i)),
        offset: be_u32(data.subrange(1032 + 24 * count + 4 * i, 1036 + 24 * count + 4 * i)),
    }
}

/// The entries of a pack index of version 2.
///
/// The signature is looked at first, then the version, then the counts,
/// then the tables. Fails with `CorruptHeader` where the data end inside
/// the signature, the version or the counts, with `InvalidMagic` where the
/// first four bytes are not the signature, with `UnsupportedVersion` on
/// another version than 2, with `CorruptEntry` where the data are too short
/// for the tables and the two digests of 20 bytes at the end, and with
/// `UnsupportedFeature` where a place has its highest bit set, which stands
/// for a place of 64 bits.
pub open spec fn parse_idx(data: Seq<u8>) -> Result<Seq<IdxEntry>, RuntimeError> {
    if data.len() < 4 {
        Err(RuntimeError::CorruptHeader)
    } else if data.subrange(0, 4) != idx_signature() {
        Err(RuntimeError::InvalidMagic)
    } else if data.len() < 8 {
        Err(RuntimeError::CorruptHeader)
    } else if be_u32(data.subrange(4, 8)) != 2 {
        Err(RuntimeError::UnsupportedVersion)
    } else if data.len() < 1032 {
        Err(RuntimeError::CorruptHeader)
    } else {
        let count = idx_count(data);
        if data.len() < 1072 + 28 * count {
            Err(RuntimeError::CorruptEntry)
        } else if exists|i: int| 0 <= i < count && #[trigger] idx_entry(data, count, i).offset >= 0x8000_0000 {
            Err(RuntimeError::UnsupportedFeature)
        } else {
            Ok(Seq::new(count, |i: int| idx_entry(data, count, i)))
        }
    }
}

/// Reads the entries of a pack index.
pub fn parse_pack_index(data: &[u8]) -> (res: Result<Vec<PackIndexEntry>, RuntimeError>)
    ensures
        match parse_idx(data@) {
            Ok(entries) => res matches Ok(found) && idx_views(found@) == entries,
            Err(e) => res matches Err(f) && f == e,
        },
{
    if data.len() < 4 {
        return Err(RuntimeError::CorruptHeader);
    }
    let signature: [u8; 4] = [0xff, 0x74, 0x4f, 0x63];
    assert(signature@ =~= idx_signature());
    if !bytes_eq(slice_subrange(data, 0, 4), signature.as_slice()) {
        return Err(RuntimeError::InvalidMagic);
    }
    if data.len() < 8 {
        return Err(RuntimeError::CorruptHeader);
    }
    if read_be_u32(data, 4) != 2 {
        return Err(RuntimeError::UnsupportedVersion);
    }
    if data.len() < 1032 {
        return Err(RuntimeError::CorruptHeader);
    }
    let count32 = read_be_u32(data, 1028);
    if (data.len() as u64) < 1072 + 28 * (count32 as u64) {
        return Err(RuntimeError::CorruptEntry);
    }
    let count: usize = count32 as usize;
    let mut entries: Vec<PackIndexEntry> = Vec::new();
    let mut i: usize = 0;
    while i < count
        invariant
            i <= count,
            count == idx_count(data@),
            data@.subrange(0, 4) == idx_signature(),
            be_u32(data@.subrange(4, 8)) == 2,
            data@.len() >= 1072 + 28 * count,
            data@.len() <= usize::MAX,
            entries@.len() == i,
            forall|j: int| 0 <= j < i ==> (#[trigger] entries@[j])@ == idx_entry(data@, count as nat, j),
            forall|j: int| 0 <= j < i ==> (#[trigger] idx_entry(data@, count as nat, j)).offset < 0x8000_0000,
        decreases count - i,
    {
        let name = crate::object::id_from_slice(data, 1032 + 20 * i);
        let crc32 = read_be_u32(data, 1032 + 20 * count + 4 * i);
        let offset = read_be_u32(data, 1032 + 24 * count + 4 * i);
        if offset >= 0x8000_0000 {
            proof {
                let place = 1032 + 24 * count + 4 * i;
                assert(data@.subrange(place, place + 4) == data@.subrange(
                    1032 + 24 * count + 4 * i,
                    1036 + 24 * count + 4 * i,
                ));
                assert(idx_entry(data@, count as nat, i as int).offset >= 0x8000_0000);
            }
            return Err(RuntimeError::UnsupportedFeature);
        }
        entries.push(PackIndexEntry { name, crc32, offset });
        i = i + 1;
    }
    assert(idx_views(entries@) =~= Seq::new(count as nat, |i: int| idx_entry(data@, count as nat, i)));
    Ok(entries)
}

/// The line that lists an entry of a pack index: the id in hexadecimal,
/// ` offset: 0x` and the place in hexadecimal, ` crc32: ` and the CRC-32 in
/// decimal, and a line feed.
pub open spec fn idx_line(entry: IdxEntry) -> Seq<u8> {
    hex_bytes(entry.name) + encode_utf8(" offset: 0x"@) + hex_number(entry.offset as nat)
        + encode_utf8(" crc32: "@) + decimal(entry.crc32 as nat) + seq![0x0au8]
}

/// The lines of `entries`, in their order.
pub open spec fn idx_lines(entries: Seq<IdxEntry>) -> Seq<u8>
    decreases entries.len(),
{
    if entries.len() == 0 {
        Seq::empty()
    } else {
        idx_lines(entries.drop_last()) + idx_line(entries.last())
    }
}

/// The listing of a pack index: one line for each entry. Fails as reading
/// the index fails.
pub open spec fn dump_idx_text(data: Seq<u8>) -> Result<Seq<u8>, RuntimeError> {
    match parse_idx(data) {
        Ok(entries) => Ok(idx_lines(entries)),
        Err(e) => Err(e),
    }
}

/// Lists the entries of a pack index, one line each.
pub fn dump_pack_index(data: &[u8]) -> (res: Result<Vec<u8>, RuntimeError>)
    ensures
        match dump_idx_text(data@) {
            Ok(text) => res matches Ok(out) && out@ == text,
            Err(e) => res matches Err(f) && f == e,
        },
{
    let entries = match parse_pack_index(data) {
        Ok(entries) => entries,
        Err(e) => {
            return Err(e);
        },
    };
    let ghost views = idx_views(entries@);
    let mut out: Vec<u8> = Vec::new();
    let mut i: usize = 0;
    while i < entries.len()
        invariant
            i <= entries@.len(),
            views == idx_views(entries@),
            out@ == idx_lines(views.take(i as int)),
        decreases entries@.len() - i,
    {
        let entry = &entries[i];
        let ghost done = out@;
        let hex = hex_encode(entry.name.as_slice());
        out.extend_from_slice(hex.as_slice());
        push_str(&mut out, " offset: 0x");
        push_hex(&mut out, entry.offset as u128);
        push_str(&mut out, " crc32: ");
        push_decimal(&mut out, entry.crc32 as usize);
        out.push(0x0a);
        proof {
            assert(views.take(i + 1).drop_last() =~= views.take(i as int));
            assert(views.take(i + 1).last() == entry@);
            assert(out@ =~= done + idx_line(entry@));
        }
        i = i + 1;
    }
    assert(views.take(entries@.len() as int) =~= views);
    Ok(out)
}

} // verus!
