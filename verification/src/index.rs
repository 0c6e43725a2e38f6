use vstd::prelude::*;
use vstd::slice::slice_subrange;
use crate::bytes::{
    be_u16, be_u32, copy_range, lemma_be_u16_round_trip, lemma_be_u32_round_trip, push_be_u16,
    push_be_u32, push_repeat, read_be_u16, read_be_u32, repeat, u16_be, u32_be,
};
use crate::digest::{hex_bytes, hex_encode, sha1, sha1_digest};
use crate::error::RuntimeError;
use crate::kind::Kind;
use crate::object::{id_from_slice, object_id, object_id_of};
use crate::order::{bytes_lt, lemma_lex_total, lex_lt};
use crate::text::bytes_eq;
use crate::tree::lemma_not_after;

verus! {

/// The head of a staging index: signature, version, number of entries.
#[derive(Debug)]
pub struct IndexHeader {
    pub signature: [u8; 4],
    pub version: u32,
    pub entries_count: u32,
}

/// An entry of the staging index: what `stat` says of a file, the id of its
/// content as a blob, the flags, and its path.
#[derive(Debug)]
pub struct IndexEntry {
    pub ctime_s: u32,
    pub ctime_n: u32,
    pub mtime_s: u32,
    pub mtime_n: u32,
    pub dev: u32,
    pub ino: u32,
    pub mode: u32,
    pub uid: u32,
    pub gid: u32,
    pub size: u32,
    pub sha1: [u8; 20],
    pub flags: u16,
    pub file_path: Vec<u8>,
}

/// A staging index: its head and its entries in file order.
#[derive(Debug)]
pub struct Index {
    pub header: IndexHeader,
    pub entries: Vec<IndexEntry>,
}

/// An entry of the staging index, as plain values.
pub struct IndexRecord {
    pub ctime_s: int,
    pub ctime_n: int,
    pub mtime_s: int,
    pub mtime_n: int,
    pub dev: int,
    pub ino: int,
    pub mode: int,
    pub uid: int,
    pub gid: int,
    pub size: int,
    pub sha1: Seq<u8>,
    pub flags: int,
    pub path: Seq<u8>,
}

impl IndexEntry {
    /// The entry as plain values.
    pub open spec fn view(&self) -> IndexRecord {
        IndexRecord {
            ctime_s: self.ctime_s as int,
            ctime_n: self.ctime_n as int,
            mtime_s: self.mtime_s as int,
            mtime_n: self.mtime_n as int,
            dev: self.dev as int,
            ino: self.ino as int,
            mode: self.mode as int,
            uid: self.uid as int,
            gid: self.gid as int,
            size: self.size as int,
            sha1: self.sha1@,
            flags: self.flags as int,
            path: self.file_path@,
        }
    }
}

/// The plain values of a sequence of entries.
pub open spec fn record_views(entries: Seq<IndexEntry>) -> Seq<IndexRecord> {
    entries.map_values(|e: IndexEntry| e@)
}

/// The signature of a staging index: `DIRC`.
pub open spec fn index_signature() -> Seq<u8> {
    seq![0x44u8, 0x49u8, 0x52u8, 0x43u8]
}

/// The number of zero bytes behind an entry whose fixed part and path take
/// `length` bytes: between one and eight, so that the entry ends on a
/// multiple of eight.
pub open spec fn padding(length: int) -> int {
    8 - length % 8
}

/// The flags of an entry with a path of `length` bytes: the length, and
/// 4095 for all lengths above.
pub open spec fn path_flags(length: int) -> int {
    if length < 0xfff {
        length
    } else {
        0xfff
    }
}

/// The number of entries that the head of a staging index announces.
///
/// Fails with `CorruptHeader` where the data are shorter than the 12 bytes
/// of the head, with `InvalidMagic` where they do not start with `DIRC`, and
/// with `UnsupportedVersion` where the version is not 2.
pub open spec fn index_header(data: Seq<u8>) -> Result<nat, RuntimeError> {
    if data.len() < 12 {
        Err(RuntimeError::CorruptHeader)
    } else if data.subrange(0, 4) != index_signature() {
        Err(RuntimeError::InvalidMagic)
    } else if be_u32(data.subrange(4, 8)) != 2 {
        Err(RuntimeError::UnsupportedVersion)
    } else {
        Ok(be_u32(data.subrange(8, 12)) as nat)
    }
}

/// The entry at the start of `data`, and the number of bytes it takes: ten
/// numbers of 32 bits, the 20 bytes of the id, the flags in 16 bits, the
/// path, whose length the low 12 bits of the flags give, and the padding.
/// Fails with `CorruptEntry` where the data end inside the entry.
#[verifier::opaque]
pub open spec fn index_record(data: Seq<u8>) -> Result<(IndexRecord, int), RuntimeError> {
    if data.len() < 62 {
        Err(RuntimeError::CorruptEntry)
    } else {
        let flags = be_u16(data.subrange(60, 62));
        let length = flags % 0x1000;
        let total = 62 + length + padding(62 + length);
        if data.len() < total {
            Err(RuntimeError::CorruptEntry)
        } else {
            Ok(
                (
                    IndexRecord {
                        ctime_s: be_u32(data.subrange(0, 4)),
                        ctime_n: be_u32(data.subrange(4, 8)),
                        mtime_s: be_u32(data.subrange(8, 12)),
                        mtime_n: be_u32(data.subrange(12, 16)),
                        dev: be_u32(data.subrange(16, 20)),
                        ino: be_u32(data.subrange(20, 24)),
                        mode: be_u32(data.subrange(24, 28)),
                        uid: be_u32(data.subrange(28, 32)),
                        gid: be_u32(data.subrange(32, 36)),
                        size: be_u32(data.subrange(36, 40)),
                        sha1: data.subrange(40, 60),
                        flags,
                        path: data.subrange(62, 62 + length),
                    },
                    total,
                ),
            )
        }
    }
}

/// `done`, followed by the entries of `rest` where there are any.
pub open spec fn records_then(
    done: Seq<IndexRecord>,
    rest: Result<Seq<IndexRecord>, RuntimeError>,
) -> Result<Seq<IndexRecord>, RuntimeError> {
    match rest {
        Ok(more) => Ok(done + more),
        Err(e) => Err(e),
    }
}

/// `count` entries that follow one another from the start of `data`. The
/// first entry that cannot be read decides the error.
pub open spec fn index_records(data: Seq<u8>, count: nat) -> Result<Seq<IndexRecord>, RuntimeError>
    decreases count,
{
    if count == 0 {
        Ok(Seq::empty())
    } else {
        match index_record(data) {
            Err(e) => Err(e),
            Ok((record, used)) => records_then(
                seq![record],
                index_records(data.skip(used), (count - 1) as nat),
            ),
        }
    }
}

/// The entries of a staging index, in file order. What follows the last
/// entry is not looked at.
pub open spec fn parse_index_bytes(data: Seq<u8>) -> Result<Seq<IndexRecord>, RuntimeError> {
    match index_header(data) {
        Err(e) => Err(e),
        Ok(count) => index_records(data.skip(12), count),
    }
}

/// Reads the head of a staging index.
pub fn parse_header(data: &[u8]) -> (res: Result<IndexHeader, RuntimeError>)
    ensures
        match index_header(data@) {
            Ok(count) => res matches Ok(header) && header.entries_count == count && header.version
                == 2 && header.signature@ == index_signature(),
            Err(e) => res matches Err(f) && f == e,
        },
{
    if data.len() < 12 {
        return Err(RuntimeError::CorruptHeader);
    }
    let signature: [u8; 4] = [0x44, 0x49, 0x52, 0x43];
    assert(signature@ =~= index_signature());
    if !bytes_eq(slice_subrange(data, 0, 4), signature.as_slice()) {
        return Err(RuntimeError::InvalidMagic);
    }
    let version = read_be_u32(data, 4);
    if version != 2 {
        return Err(RuntimeError::UnsupportedVersion);
    }
    let entries_count = read_be_u32(data, 8);
    Ok(IndexHeader { signature, version, entries_count })
}

/// Reads the entry at the start of `data`.
pub fn parse_entry(data: &[u8]) -> (res: Result<(IndexEntry, usize), RuntimeError>)
    ensures
        match index_record(data@) {
            Ok((record, used)) => res matches Ok((entry, n)) && entry@ == record && n == used && 62
                < n <= data@.len(),
            Err(e) => res matches Err(f) && f == e,
        },
{
    proof {
        reveal(index_record);
    }
    if data.len() < 62 {
        return Err(RuntimeError::CorruptEntry);
    }
    let flags = read_be_u16(data, 60);
    let length: usize = (flags % 0x1000) as usize;
    let pad: usize = 8 - (62 + length) % 8;
    let total: usize = 62 + length + pad;
    if data.len() < total {
        return Err(RuntimeError::CorruptEntry);
    }
    let entry = IndexEntry {
        ctime_s: read_be_u32(data, 0),
        ctime_n: read_be_u32(data, 4),
        mtime_s: read_be_u32(data, 8),
        mtime_n: read_be_u32(data, 12),
        dev: read_be_u32(data, 16),
        ino: read_be_u32(data, 20),
        mode: read_be_u32(data, 24),
        uid: read_be_u32(data, 28),
        gid: read_be_u32(data, 32),
        size: read_be_u32(data, 36),
        sha1: id_from_slice(data, 40),
        flags,
        file_path: copy_range(data, 62, 62 + length),
    };
    Ok((entry, total))
}

/// Reads a staging index: its head, and as many entries as the head
/// announces.
pub fn parse_index(data: &[u8]) -> (res: Result<Index, RuntimeError>)
    ensures
        match parse_index_bytes(data@) {
            Ok(records) => res matches Ok(index) && record_views(index.entries@) == records
                && index.header.signature@ == index_signature() && index.header.version == 2
                && index.header.entries_count == records.len(),
            Err(e) => res matches Err(f) && f == e,
        },
{
    let header = match parse_header(data) {
        Ok(header) => header,
        Err(e) => {
            return Err(e);
        },
    };
    let count = header.entries_count;
    let mut entries: Vec<IndexEntry> = Vec::new();
    let mut pos: usize = 12;
    let mut i: u32 = 0;
    let ghost whole = index_records(data@.skip(12), count as nat);
    proof {
        match whole {
            Ok(more) => {
                assert(record_views(entries@) + more =~= more);
            },
            Err(_) => {},
        }
    }
    while i < count
        invariant
            i <= count,
            12 <= pos <= data@.len(),
            entries@.len() == i,
            index_header(data@) == Ok::<nat, RuntimeError>(count as nat),
            whole == index_records(data@.skip(12), count as nat),
            whole == records_then(
                record_views(entries@),
                index_records(data@.skip(pos as int), (count - i) as nat),
            ),
        decreases count - i,
    {
        let rest = slice_subrange(data, pos, data.len());
        assert(rest@ =~= data@.skip(pos as int));
        match parse_entry(rest) {
            Err(e) => {
                return Err(e);
            },
            Ok((entry, used)) => {
                proof {
                    let done = record_views(entries@);
                    assert(data@.skip(pos as int).skip(used as int) =~= data@.skip(pos + used));
                    assert(record_views(entries@.push(entry)) =~= done.push(entry@));
                    match index_records(data@.skip(pos + used), (count - i - 1) as nat) {
                        Ok(more) => {
                            assert(done + (seq![entry@] + more) =~= done.push(entry@) + more);
                        },
                        Err(_) => {},
                    }
                }
                entries.push(entry);
                pos = pos + used;
            },
        }
        i = i + 1;
    }
    proof {
        assert(record_views(entries@) + Seq::<IndexRecord>::empty() =~= record_views(entries@));
    }
    Ok(Index { header, entries })
}

/// `sorted` with `e` put in behind the last entry whose path does not come
/// after the path of `e`.
pub open spec fn insert_record(sorted: Seq<IndexRecord>, e: IndexRecord) -> Seq<IndexRecord>
    decreases sorted.len(),
{
    if sorted.len() == 0 || !lex_lt(e.path, sorted.last().path) {
        sorted.push(e)
    } else {
        insert_record(sorted.drop_last(), e).push(sorted.last())
    }
}

/// The entries in ascending order of their paths, as byte strings. Entries
/// of one path keep the order in which they came.
pub open spec fn sort_records(entries: Seq<IndexRecord>) -> Seq<IndexRecord>
    decreases entries.len(),
{
    if entries.len() == 0 {
        entries
    } else {
        insert_record(sort_records(entries.drop_last()), entries.last())
    }
}

/// Whether no entry comes before one with a smaller path.
pub open spec fn sorted_records(entries: Seq<IndexRecord>) -> bool {
    forall|i: int, j: int|
        0 <= i < j < entries.len() ==> !lex_lt(
            (#[trigger] entries[j]).path,
            (#[trigger] entries[i]).path,
        )
}

/// Putting `e` in lands at `j` where every entry from `j` on has a path
/// after that of `e` and the entry before `j` has not.
pub proof fn lemma_insert_record_at(sorted: Seq<IndexRecord>, e: IndexRecord, j: int)
    requires
        0 <= j <= sorted.len(),
        forall|k: int| j <= k < sorted.len() ==> lex_lt(e.path, (#[trigger] sorted[k]).path),
        j > 0 ==> !lex_lt(e.path, sorted[j - 1].path),
    ensures
        insert_record(sorted, e) == sorted.insert(j, e),
    decreases sorted.len() - j,
{
    if j == sorted.len() {
        assert(sorted.insert(j, e) =~= sorted.push(e));
    } else {
        let front = sorted.drop_last();
        assert forall|k: int| j <= k < front.len() implies lex_lt(
            e.path,
            (#[trigger] front[k]).path,
        ) by {
            assert(front[k] == sorted[k]);
        }
        lemma_insert_record_at(front, e, j);
        assert(front.insert(j, e).push(sorted.last()) =~= sorted.insert(j, e));
    }
}


/// Sorts the entries by path, in place.
pub fn sort_by_path(entries: &mut Vec<IndexEntry>)
    ensures
        record_views(final(entries)@) == sort_records(record_views(old(entries)@)),
        sorted_records(record_views(final(entries)@)),
        record_views(final(entries)@).to_multiset() == record_views(old(entries)@).to_multiset(),
{
    proof {
        lemma_sort_records(record_views(entries@));
    }
    let ghost orig = record_views(entries@);
    let n = entries.len();
    let mut i: usize = 0;
    assert(orig.take(0) =~= Seq::<IndexRecord>::empty());
    assert(record_views(entries@).take(0) =~= orig.take(0));
    assert(record_views(entries@).skip(0) =~= orig.skip(0));
    while i < n
        invariant
            i <= n,
            n == entries@.len(),
            n == orig.len(),
            record_views(entries@).take(i as int) == sort_records(orig.take(i as int)),
            record_views(entries@).skip(i as int) == orig.skip(i as int),
        decreases n - i,
    {
        let ghost before = record_views(entries@);
        assert(before[i as int] == orig[i as int]) by {
            assert(before.skip(i as int)[0] == orig.skip(i as int)[0]);
        }
        proof {
            assert(orig.take(i + 1).drop_last() =~= orig.take(i as int));
            assert(orig.take(i + 1).last() == orig[i as int]);
        }
        let in_place = i == 0 || !bytes_lt(
            entries[i].file_path.as_slice(),
            entries[i - 1].file_path.as_slice(),
        );
        if in_place {
            // the entry stays where it is
            proof {
                let prefix = before.take(i as int);
                if i > 0 {
                    assert(prefix.last() == before[i - 1]);
                }
                assert(before.take(i + 1) =~= prefix.push(before[i as int]));
                assert(before.skip(i + 1) =~= before.skip(i as int).skip(1));
                assert(orig.skip(i + 1) =~= orig.skip(i as int).skip(1));
            }
        } else {
            let e = entries.remove(i);
            let ghost without = record_views(entries@);
            assert(without =~= before.remove(i as int));
            let mut j: usize = i;
            while j > 0 && bytes_lt(
                e.file_path.as_slice(),
                entries[j - 1].file_path.as_slice(),
            )
                invariant
                    j <= i,
                    i <= entries@.len(),
                    without == record_views(entries@),
                    forall|k: int| j <= k < i ==> lex_lt(e@.path, (#[trigger] without[k]).path),
                decreases j,
            {
                j -= 1;
            }
            entries.insert(j, e);
            proof {
                let prefix = before.take(i as int);
                let after = record_views(entries@);
                assert(after =~= without.insert(j as int, e@));
                assert(after.take(i + 1) =~= prefix.insert(j as int, e@));
                assert forall|k: int| j <= k < prefix.len() implies lex_lt(
                    e@.path,
                    (#[trigger] prefix[k]).path,
                ) by {
                    assert(prefix[k] == without[k]);
                }
                if j > 0 {
                    assert(prefix[j - 1] == without[j - 1]);
                }
                lemma_insert_record_at(prefix, e@, j as int);
                assert(after.skip(i + 1) =~= before.skip(i as int).skip(1));
                assert(orig.skip(i + 1) =~= orig.skip(i as int).skip(1));
            }
        }
        i += 1;
    }
    assert(record_views(entries@).take(n as int) =~= record_views(entries@));
    assert(orig.take(n as int) =~= orig);
}


/// Putting an entry into sorted entries leaves them sorted, and adds that
/// entry and nothing else.
pub proof fn lemma_insert_record(sorted: Seq<IndexRecord>, e: IndexRecord)
    requires
        sorted_records(sorted),
    ensures
        sorted_records(insert_record(sorted, e)),
        insert_record(sorted, e).to_multiset() == sorted.to_multiset().insert(e),
    decreases sorted.len(),
{
    sorted.to_multiset_ensures();
    if sorted.len() == 0 || !lex_lt(e.path, sorted.last().path) {
        let r = sorted.push(e);
        assert forall|i: int, j: int| 0 <= i < j < r.len() implies !lex_lt(
            (#[trigger] r[j]).path,
            (#[trigger] r[i]).path,
        ) by {
            if j == sorted.len() {
                let last = sorted.last();
                if i < sorted.len() - 1 {
                    assert(!lex_lt(sorted[sorted.len() - 1].path, sorted[i].path));
                } else {
                    lemma_lex_total(last.path, last.path, 0);
                }
                lemma_not_after(sorted[i].path, last.path, e.path);
            } else {
                assert(r[j] == sorted[j] && r[i] == sorted[i]);
            }
        }
    } else {
        let front = sorted.drop_last();
        let last = sorted.last();
        assert forall|i: int, j: int| 0 <= i < j < front.len() implies !lex_lt(
            (#[trigger] front[j]).path,
            (#[trigger] front[i]).path,
        ) by {
            assert(front[j] == sorted[j] && front[i] == sorted[i]);
        }
        lemma_insert_record(front, e);
        let mid = insert_record(front, e);
        let r = mid.push(last);
        mid.to_multiset_ensures();
        front.to_multiset_ensures();
        assert(front.push(last) =~= sorted);
        assert(r.to_multiset() =~= sorted.to_multiset().insert(e));
        assert forall|i: int, j: int| 0 <= i < j < r.len() implies !lex_lt(
            (#[trigger] r[j]).path,
            (#[trigger] r[i]).path,
        ) by {
            if j == mid.len() {
                let x = mid[i];
                assert(mid.contains(x));
                assert(mid.to_multiset().count(x) > 0);
                if x == e {
                    lemma_lex_total(e.path, last.path, 0);
                } else {
                    assert(front.to_multiset().count(x) > 0);
                    assert(front.contains(x));
                    let k = choose|k: int| 0 <= k < front.len() && front[k] == x;
                    assert(sorted[k] == x);
                    assert(!lex_lt(sorted[sorted.len() - 1].path, sorted[k].path));
                }
            } else {
                assert(r[j] == mid[j] && r[i] == mid[i]);
            }
        }
    }
}

/// Sorted entries are in ascending order of their paths, and are the
/// entries that were given, each as often as it was given.
pub proof fn lemma_sort_records(entries: Seq<IndexRecord>)
    ensures
        sorted_records(sort_records(entries)),
        sort_records(entries).to_multiset() == entries.to_multiset(),
        sort_records(entries).len() == entries.len(),
    decreases entries.len(),
{
    entries.to_multiset_ensures();
    sort_records(entries).to_multiset_ensures();
    if entries.len() > 0 {
        let front = entries.drop_last();
        lemma_sort_records(front);
        lemma_insert_record(sort_records(front), entries.last());
        front.to_multiset_ensures();
        assert(front.push(entries.last()) =~= entries);
    }
}


/// Sorting entries that are sorted leaves them as they are.
pub proof fn lemma_sorted_fixed(records: Seq<IndexRecord>)
    requires
        sorted_records(records),
    ensures
        sort_records(records) == records,
    decreases records.len(),
{
    if records.len() > 0 {
        let front = records.drop_last();
        assert forall|i: int, j: int| 0 <= i < j < front.len() implies !lex_lt(
            (#[trigger] front[j]).path,
            (#[trigger] front[i]).path,
        ) by {
            assert(front[j] == records[j] && front[i] == records[i]);
        }
        lemma_sorted_fixed(front);
        if front.len() > 0 {
            assert(front.last() == records[records.len() - 2]);
            assert(!lex_lt(records[records.len() - 1].path, records[records.len() - 2].path));
        }
        assert(front.push(records.last()) =~= records);
    }
}

/// The bytes of the ten numbers of an entry, 32 bits each.
#[verifier::opaque]
pub open spec fn stat_bytes(r: IndexRecord) -> Seq<u8> {
    u32_be(r.ctime_s) + u32_be(r.ctime_n) + u32_be(r.mtime_s) + u32_be(r.mtime_n) + u32_be(r.dev)
        + u32_be(r.ino) + u32_be(r.mode) + u32_be(r.uid) + u32_be(r.gid) + u32_be(r.size)
}

/// The bytes of an entry behind its numbers: the id, the flags that belong
/// to the length of the path, the path, and the padding.
#[verifier::opaque]
pub open spec fn name_bytes(r: IndexRecord) -> Seq<u8> {
    r.sha1 + u16_be(path_flags(r.path.len() as int)) + r.path + repeat(
        0,
        padding(62 + r.path.len() as int),
    )
}

/// The bytes of an entry: the ten numbers, the id, the flags, the path, and
/// the padding.
pub open spec fn record_bytes(r: IndexRecord) -> Seq<u8> {
    stat_bytes(r) + name_bytes(r)
}

/// The bytes of `records`, one behind the other.
pub open spec fn records_bytes(records: Seq<IndexRecord>) -> Seq<u8>
    decreases records.len(),
{
    if records.len() == 0 {
        Seq::empty()
    } else {
        record_bytes(records[0]) + records_bytes(records.drop_first())
    }
}

/// The head and the entries of a staging index that holds `records` in this
/// order.
pub open spec fn index_body(records: Seq<IndexRecord>) -> Seq<u8> {
    index_signature() + u32_be(2) + u32_be(records.len() as int) + records_bytes(records)
}

/// The bytes of a staging index that holds `records`: the head, the entries
/// in ascending order of their paths, and the SHA-1 digest of all that.
pub open spec fn index_bytes(records: Seq<IndexRecord>) -> Seq<u8> {
    index_body(sort_records(records)) + sha1_digest(index_body(sort_records(records)))
}

/// Appending a piece behind what was appended before appends both.
pub proof fn lemma_append(start: Seq<u8>, acc: Seq<u8>, piece: Seq<u8>)
    ensures
        (start + acc) + piece == start + (acc + piece),
{
    assert((start + acc) + piece =~= start + (acc + piece));
}

/// Appends the ten numbers of `entry`.
pub fn push_stat(out: &mut Vec<u8>, entry: &IndexEntry)
    ensures
        final(out)@ == old(out)@ + stat_bytes(entry@),
{
    proof {
        reveal(stat_bytes);
    }
    let ghost start = out@;
    let ghost r = entry@;
    push_be_u32(out, entry.ctime_s);
    let ghost mut acc = u32_be(r.ctime_s);
    push_be_u32(out, entry.ctime_n);
    proof {
        lemma_append(start, acc, u32_be(r.ctime_n));
        acc = acc + u32_be(r.ctime_n);
    }
    push_be_u32(out, entry.mtime_s);
    proof {
        lemma_append(start, acc, u32_be(r.mtime_s));
        acc = acc + u32_be(r.mtime_s);
    }
    push_be_u32(out, entry.mtime_n);
    proof {
        lemma_append(start, acc, u32_be(r.mtime_n));
        acc = acc + u32_be(r.mtime_n);
    }
    push_be_u32(out, entry.dev);
    proof {
        lemma_append(start, acc, u32_be(r.dev));
        acc = acc + u32_be(r.dev);
    }
    push_be_u32(out, entry.ino);
    proof {
        lemma_append(start, acc, u32_be(r.ino));
        acc = acc + u32_be(r.ino);
    }
    push_be_u32(out, entry.mode);
    proof {
        lemma_append(start, acc, u32_be(r.mode));
        acc = acc + u32_be(r.mode);
    }
    push_be_u32(out, entry.uid);
    proof {
        lemma_append(start, acc, u32_be(r.uid));
        acc = acc + u32_be(r.uid);
    }
    push_be_u32(out, entry.gid);
    proof {
        lemma_append(start, acc, u32_be(r.gid));
        acc = acc + u32_be(r.gid);
    }
    push_be_u32(out, entry.size);
    proof {
        lemma_append(start, acc, u32_be(r.size));
        acc = acc + u32_be(r.size);
    }
}

/// Appends what follows the numbers of `entry`.
pub fn push_name(out: &mut Vec<u8>, entry: &IndexEntry)
    ensures
        final(out)@ == old(out)@ + name_bytes(entry@),
{
    proof {
        reveal(name_bytes);
    }
    let ghost start = out@;
    let ghost r = entry@;
    out.extend_from_slice(entry.sha1.as_slice());
    let ghost mut acc = r.sha1;
    let length = entry.file_path.len();
    let flags: u16 = if length < 0xfff { length as u16 } else { 0xfff };
    push_be_u16(out, flags);
    proof {
        lemma_append(start, acc, u16_be(path_flags(r.path.len() as int)));
        acc = acc + u16_be(path_flags(r.path.len() as int));
    }
    out.extend_from_slice(entry.file_path.as_slice());
    proof {
        lemma_append(start, acc, r.path);
        acc = acc + r.path;
    }
    let pad: usize = 8 - (6 + length % 8) % 8;
    assert(pad == padding(62 + length));
    push_repeat(out, 0, pad);
    proof {
        lemma_append(start, acc, repeat(0, padding(62 + r.path.len() as int)));
    }
}

/// Appends the bytes of `entry`.
pub fn push_entry(out: &mut Vec<u8>, entry: &IndexEntry)
    ensures
        final(out)@ == old(out)@ + record_bytes(entry@),
{
    push_stat(out, entry);
    push_name(out, entry);
    proof {
        lemma_append(old(out)@, stat_bytes(entry@), name_bytes(entry@));
    }
}

/// Writes a staging index that holds `entries`: sorts them by path, in
/// place, and writes them in that order. The flags written follow from the
/// length of each path; the `flags` of an entry are not looked at.
pub fn serialize_index(entries: &mut Vec<IndexEntry>) -> (res: Vec<u8>)
    requires
        old(entries)@.len() <= u32::MAX,
    ensures
        res@ == index_bytes(record_views(old(entries)@)),
        record_views(final(entries)@) == sort_records(record_views(old(entries)@)),
        sorted_records(record_views(final(entries)@)),
{
    sort_by_path(entries);
    proof {
        lemma_sort_records(record_views(old(entries)@));
    }
    let ghost records = record_views(entries@);
    let mut out: Vec<u8> = Vec::new();
    out.push(0x44);
    out.push(0x49);
    out.push(0x52);
    out.push(0x43);
    push_be_u32(&mut out, 2);
    push_be_u32(&mut out, entries.len() as u32);
    let ghost head = out@;
    assert(head =~= index_signature() + u32_be(2) + u32_be(records.len() as int));
    let mut i: usize = 0;
    assert(records.skip(0) =~= records);
    assert(out@ =~= head + Seq::<u8>::empty());
    let ghost mut done: Seq<u8> = Seq::empty();
    while i < entries.len()
        invariant
            i <= entries@.len(),
            records == record_views(entries@),
            out@ == head + done,
            records_bytes(records) == done + records_bytes(records.skip(i as int)),
        decreases entries@.len() - i,
    {
        let ghost before = out@;
        push_entry(&mut out, &entries[i]);
        proof {
            let tail = records.skip(i as int);
            assert(tail[0] == entries@[i as int]@);
            assert(tail.drop_first() =~= records.skip(i + 1));
            let line = record_bytes(entries@[i as int]@);
            assert(done + (line + records_bytes(records.skip(i + 1))) =~= (done + line)
                + records_bytes(records.skip(i + 1)));
            assert(out@ =~= head + (done + line));
            done = done + line;
        }
        i = i + 1;
    }
    proof {
        assert(done + Seq::<u8>::empty() =~= done);
        assert(out@ =~= index_body(records));
    }
    let digest = sha1(out.as_slice());
    out.extend_from_slice(digest.as_slice());
    out
}

/// What `stat` says of a file, as the operating system gives it.
#[derive(Debug, Clone, Copy)]
pub struct FileStat {
    pub ctime: i64,
    pub ctime_nsec: i64,
    pub mtime: i64,
    pub mtime_nsec: i64,
    pub dev: u64,
    pub ino: u64,
    pub mode: u32,
    pub uid: u32,
    pub gid: u32,
    pub size: u64,
}

/// The id that the content of a file has as a blob.
pub fn hash_file(content: &[u8]) -> (res: [u8; 20])
    ensures
        res@ == object_id_of(Kind::Blob(false), content@),
{
    object_id(Kind::Blob(false), content)
}

/// Makes the entry of a file from what `stat` says of it, its content and
/// its path. Each number is cut down to its low 32 bits; the id is the id
/// of the content as a blob; the flags follow from the length of the path.
pub fn make_entry(stat: &FileStat, content: &[u8], path: &[u8]) -> (res: IndexEntry)
    ensures
        res.ctime_s == stat.ctime as u32,
        res.ctime_n == stat.ctime_nsec as u32,
        res.mtime_s == stat.mtime as u32,
        res.mtime_n == stat.mtime_nsec as u32,
        res.dev == stat.dev as u32,
        res.ino == stat.ino as u32,
        res.mode == stat.mode,
        res.uid == stat.uid,
        res.gid == stat.gid,
        res.size == stat.size as u32,
        res.sha1@ == object_id_of(Kind::Blob(false), content@),
        res.flags == path_flags(path@.len() as int),
        res.file_path@ == path@,
{
    let length = path.len();
    IndexEntry {
        ctime_s: #[verifier::truncate] (stat.ctime as u32),
        ctime_n: #[verifier::truncate] (stat.ctime_nsec as u32),
        mtime_s: #[verifier::truncate] (stat.mtime as u32),
        mtime_n: #[verifier::truncate] (stat.mtime_nsec as u32),
        dev: #[verifier::truncate] (stat.dev as u32),
        ino: #[verifier::truncate] (stat.ino as u32),
        mode: stat.mode,
        uid: stat.uid,
        gid: stat.gid,
        size: #[verifier::truncate] (stat.size as u32),
        sha1: hash_file(content),
        flags: if length < 0xfff { length as u16 } else { 0xfff },
        file_path: copy_range(path, 0, length),
    }
}

/// The line that lists an entry: the id in hexadecimal, a space, the path,
/// and a line feed.
pub open spec fn record_line(r: IndexRecord) -> Seq<u8> {
    hex_bytes(r.sha1) + seq![0x20u8] + r.path + seq![0x0au8]
}

/// The lines of `records`, in their order.
pub open spec fn record_lines(records: Seq<IndexRecord>) -> Seq<u8>
    decreases records.len(),
{
    if records.len() == 0 {
        Seq::empty()
    } else {
        record_lines(records.drop_last()) + record_line(records.last())
    }
}

/// Lists the entries of a staging index, one line each.
pub fn list_index(index: &Index) -> (res: Vec<u8>)
    ensures
        res@ == record_lines(record_views(index.entries@)),
{
    let ghost records = record_views(index.entries@);
    let mut out: Vec<u8> = Vec::new();
    let mut i: usize = 0;
    while i < index.entries.len()
        invariant
            i <= index.entries@.len(),
            records == record_views(index.entries@),
            out@ == record_lines(records.take(i as int)),
        decreases index.entries@.len() - i,
    {
        let entry = &index.entries[i];
        let ghost done = out@;
        let hex = hex_encode(entry.sha1.as_slice());
        out.extend_from_slice(hex.as_slice());
        out.push(0x20);
        out.extend_from_slice(entry.file_path.as_slice());
        out.push(0x0a);
        proof {
            assert(records.take(i + 1).drop_last() =~= records.take(i as int));
            assert(records.take(i + 1).last() == entry@);
            assert(out@ =~= done + record_line(entry@));
        }
        i = i + 1;
    }
    assert(records.take(index.entries@.len() as int) =~= records);
    out
}

/// Whether an entry can be written and read back: each number fits in 32
/// bits, the id has 20 bytes, and the path has at most 4095 bytes, which is
/// the longest that the flags can tell.
pub open spec fn writable(r: IndexRecord) -> bool {
    &&& 0 <= r.ctime_s < 0x1_0000_0000
    &&& 0 <= r.ctime_n < 0x1_0000_0000
    &&& 0 <= r.mtime_s < 0x1_0000_0000
    &&& 0 <= r.mtime_n < 0x1_0000_0000
    &&& 0 <= r.dev < 0x1_0000_0000
    &&& 0 <= r.ino < 0x1_0000_0000
    &&& 0 <= r.mode < 0x1_0000_0000
    &&& 0 <= r.uid < 0x1_0000_0000
    &&& 0 <= r.gid < 0x1_0000_0000
    &&& 0 <= r.size < 0x1_0000_0000
    &&& r.sha1.len() == 20
    &&& r.path.len() <= 0xfff
}

/// The entry as it is read back: with the flags that belong to the length
/// of its path.
pub open spec fn as_written(r: IndexRecord) -> IndexRecord {
    IndexRecord { flags: path_flags(r.path.len() as int), ..r }
}

/// The entries as they are read back.
pub open spec fn all_as_written(records: Seq<IndexRecord>) -> Seq<IndexRecord> {
    records.map_values(|r: IndexRecord| as_written(r))
}

/// Four bytes that were written as a number are read back as that number,
/// whatever stands before and behind them.
pub proof fn lemma_field(front: Seq<u8>, x: int, back: Seq<u8>)
    requires
        0 <= x < 0x1_0000_0000,
    ensures
        be_u32((front + u32_be(x) + back).subrange(front.len() as int, front.len() as int + 4)) == x,
{
    lemma_be_u32_round_trip(x);
    assert((front + u32_be(x) + back).subrange(front.len() as int, front.len() as int + 4) =~= u32_be(x));
}

/// The ten numbers of an entry are read back from its bytes, whatever
/// stands behind them.
pub proof fn lemma_stat_round_trip(r: IndexRecord, back: Seq<u8>)
    requires
        writable(r),
    ensures
        stat_bytes(r).len() == 40,
        ({
            let data = stat_bytes(r) + back;
            &&& be_u32(data.subrange(0, 4)) == r.ctime_s
            &&& be_u32(data.subrange(4, 8)) == r.ctime_n
            &&& be_u32(data.subrange(8, 12)) == r.mtime_s
            &&& be_u32(data.subrange(12, 16)) == r.mtime_n
            &&& be_u32(data.subrange(16, 20)) == r.dev
            &&& be_u32(data.subrange(20, 24)) == r.ino
            &&& be_u32(data.subrange(24, 28)) == r.mode
            &&& be_u32(data.subrange(28, 32)) == r.uid
            &&& be_u32(data.subrange(32, 36)) == r.gid
            &&& be_u32(data.subrange(36, 40)) == r.size
        }),
{
    reveal(stat_bytes);
    let data = stat_bytes(r) + back;
    assert(be_u32(data.subrange(0, 4)) == r.ctime_s) by {
        let front = Seq::<u8>::empty();
        let rest = u32_be(r.ctime_n) + u32_be(r.mtime_s) + u32_be(r.mtime_n) + u32_be(r.dev) + u32_be(r.ino) + u32_be(r.mode) + u32_be(r.uid) + u32_be(r.gid) + u32_be(r.size) + back;
        assert(front.len() == 0);
        assert(data =~= front + u32_be(r.ctime_s) + rest);
        lemma_field(front, r.ctime_s, rest);
    }
    assert(be_u32(data.subrange(4, 8)) == r.ctime_n) by {
        let front = u32_be(r.ctime_s);
        let rest = u32_be(r.mtime_s) + u32_be(r.mtime_n) + u32_be(r.dev) + u32_be(r.ino) + u32_be(r.mode) + u32_be(r.uid) + u32_be(r.gid) + u32_be(r.size) + back;
        assert(front.len() == 4);
        assert(data =~= front + u32_be(r.ctime_n) + rest);
        lemma_field(front, r.ctime_n, rest);
    }
    assert(be_u32(data.subrange(8, 12)) == r.mtime_s) by {
        let front = u32_be(r.ctime_s) + u32_be(r.ctime_n);
        let rest = u32_be(r.mtime_n) + u32_be(r.dev) + u32_be(r.ino) + u32_be(r.mode) + u32_be(r.uid) + u32_be(r.gid) + u32_be(r.size) + back;
        assert(front.len() == 8);
        assert(data =~= front + u32_be(r.mtime_s) + rest);
        lemma_field(front, r.mtime_s, rest);
    }
    assert(be_u32(data.subrange(12, 16)) == r.mtime_n) by {
        let front = u32_be(r.ctime_s) + u32_be(r.ctime_n) + u32_be(r.mtime_s);
        let rest = u32_be(r.dev) + u32_be(r.ino) + u32_be(r.mode) + u32_be(r.uid) + u32_be(r.gid) + u32_be(r.size) + back;
        assert(front.len() == 12);
        assert(data =~= front + u32_be(r.mtime_n) + rest);
        lemma_field(front, r.mtime_n, rest);
    }
    assert(be_u32(data.subrange(16, 20)) == r.dev) by {
        let front = u32_be(r.ctime_s) + u32_be(r.ctime_n) + u32_be(r.mtime_s) + u32_be(r.mtime_n);
        let rest = u32_be(r.ino) + u32_be(r.mode) + u32_be(r.uid) + u32_be(r.gid) + u32_be(r.size) + back;
        assert(front.len() == 16);
        assert(data =~= front + u32_be(r.dev) + rest);
        lemma_field(front, r.dev, rest);
    }
    assert(be_u32(data.subrange(20, 24)) == r.ino) by {
        let front = u32_be(r.ctime_s) + u32_be(r.ctime_n) + u32_be(r.mtime_s) + u32_be(r.mtime_n) + u32_be(r.dev);
        let rest = u32_be(r.mode) + u32_be(r.uid) + u32_be(r.gid) + u32_be(r.size) + back;
        assert(front.len() == 20);
        assert(data =~= front + u32_be(r.ino) + rest);
        lemma_field(front, r.ino, rest);
    }
    assert(be_u32(data.subrange(24, 28)) == r.mode) by {
        let front = u32_be(r.ctime_s) + u32_be(r.ctime_n) + u32_be(r.mtime_s) + u32_be(r.mtime_n) + u32_be(r.dev) + u32_be(r.ino);
        let rest = u32_be(r.uid) + u32_be(r.gid) + u32_be(r.size) + back;
        assert(front.len() == 24);
        assert(data =~= front + u32_be(r.mode) + rest);
        lemma_field(front, r.mode, rest);
    }
    assert(be_u32(data.subrange(28, 32)) == r.uid) by {
        let front = u32_be(r.ctime_s) + u32_be(r.ctime_n) + u32_be(r.mtime_s) + u32_be(r.mtime_n) + u32_be(r.dev) + u32_be(r.ino) + u32_be(r.mode);
        let rest = u32_be(r.gid) + u32_be(r.size) + back;
        assert(front.len() == 28);
        assert(data =~= front + u32_be(r.uid) + rest);
        lemma_field(front, r.uid, rest);
    }
    assert(be_u32(data.subrange(32, 36)) == r.gid) by {
        let front = u32_be(r.ctime_s) + u32_be(r.ctime_n) + u32_be(r.mtime_s) + u32_be(r.mtime_n) + u32_be(r.dev) + u32_be(r.ino) + u32_be(r.mode) + u32_be(r.uid);
        let rest = u32_be(r.size) + back;
        assert(front.len() == 32);
        assert(data =~= front + u32_be(r.gid) + rest);
        lemma_field(front, r.gid, rest);
    }
    assert(be_u32(data.subrange(36, 40)) == r.size) by {
        let front = u32_be(r.ctime_s) + u32_be(r.ctime_n) + u32_be(r.mtime_s) + u32_be(r.mtime_n) + u32_be(r.dev) + u32_be(r.ino) + u32_be(r.mode) + u32_be(r.uid) + u32_be(r.gid);
        let rest = back;
        assert(front.len() == 36);
        assert(data =~= front + u32_be(r.size) + rest);
        lemma_field(front, r.size, rest);
    }
}

/// An entry is read back from its bytes, whatever stands behind them, with
/// the flags that belong to the length of its path.
pub proof fn lemma_record_round_trip(r: IndexRecord, back: Seq<u8>)
    requires
        writable(r),
    ensures
        record_bytes(r).len() > 62,
        index_record(record_bytes(r) + back) == Ok::<(IndexRecord, int), RuntimeError>(
            (as_written(r), record_bytes(r).len() as int),
        ),
        (record_bytes(r) + back).skip(record_bytes(r).len() as int) == back,
{
    reveal(name_bytes);
    reveal(index_record);
    let length = r.path.len() as int;
    let flags = path_flags(length);
    let pad = repeat(0, padding(62 + length));
    let name = name_bytes(r);
    let data = record_bytes(r) + back;
    assert(flags == length);
    lemma_be_u16_round_trip(flags);
    assert(u16_be(flags).len() == 2);
    assert(pad.len() == padding(62 + length));
    assert(name.len() == 22 + length + pad.len());
    lemma_stat_round_trip(r, name + back);
    assert(data =~= stat_bytes(r) + (name + back));
    assert(data.subrange(40, 60) =~= r.sha1);
    assert(data.subrange(60, 62) =~= u16_be(flags));
    assert(data.subrange(62, 62 + length) =~= r.path);
    assert(flags % 0x1000 == length);
    assert(data.skip(record_bytes(r).len() as int) =~= back);
}

/// Entries are read back from their bytes, whatever stands behind them.
pub proof fn lemma_records_round_trip(records: Seq<IndexRecord>, back: Seq<u8>)
    requires
        forall|i: int| 0 <= i < records.len() ==> writable(#[trigger] records[i]),
    ensures
        index_records(records_bytes(records) + back, records.len()) == Ok::<
            Seq<IndexRecord>,
            RuntimeError,
        >(all_as_written(records)),
    decreases records.len(),
{
    if records.len() == 0 {
        assert(all_as_written(records) =~= Seq::<IndexRecord>::empty());
    } else {
        let first = records[0];
        let others = records.drop_first();
        let tail = records_bytes(others) + back;
        assert(writable(first));
        assert forall|i: int| 0 <= i < others.len() implies writable(#[trigger] others[i]) by {
            assert(others[i] == records[i + 1]);
        }
        lemma_record_round_trip(first, tail);
        lemma_records_round_trip(others, back);
        let data = records_bytes(records) + back;
        let used = record_bytes(first).len() as int;
        assert(data == record_bytes(first) + tail) by {
            assert(records_bytes(records) == record_bytes(first) + records_bytes(others));
            lemma_append(record_bytes(first), records_bytes(others), back);
        }
        assert(index_record(data) == Ok::<(IndexRecord, int), RuntimeError>(
            (as_written(first), used),
        ));
        assert(data.skip(used) == tail);
        assert(index_records(tail, others.len()) == Ok::<Seq<IndexRecord>, RuntimeError>(
            all_as_written(others),
        ));
        assert(seq![as_written(first)] + all_as_written(others) =~= all_as_written(records));
        assert(index_records(data, records.len()) == records_then(
            seq![as_written(first)],
            index_records(data.skip(used), (records.len() - 1) as nat),
        ));
    }
}

/// The bytes of entries do not depend on their flags.
pub proof fn lemma_flags_unwritten(records: Seq<IndexRecord>)
    ensures
        records_bytes(all_as_written(records)) == records_bytes(records),
    decreases records.len(),
{
    reveal(name_bytes);
    reveal(stat_bytes);
    if records.len() > 0 {
        lemma_flags_unwritten(records.drop_first());
        assert(all_as_written(records).drop_first() =~= all_as_written(records.drop_first()));
        assert(record_bytes(as_written(records[0])) == record_bytes(records[0]));
    }
}

/// Index round trip: a staging index that was written is read back as its
/// entries in ascending order of their paths, and writing what was read
/// gives the same bytes again.
pub proof fn lemma_index_round_trip(records: Seq<IndexRecord>)
    requires
        records.len() <= u32::MAX,
        forall|i: int| 0 <= i < records.len() ==> writable(#[trigger] records[i]),
    ensures
        sorted_records(sort_records(records)),
        parse_index_bytes(index_bytes(records)) == Ok::<Seq<IndexRecord>, RuntimeError>(
            all_as_written(sort_records(records)),
        ),
        index_bytes(all_as_written(sort_records(records))) == index_bytes(records),
{
    let sorted = sort_records(records);
    lemma_sort_records(records);
    sorted.to_multiset_ensures();
    records.to_multiset_ensures();
    assert forall|i: int| 0 <= i < sorted.len() implies writable(#[trigger] sorted[i]) by {
        assert(sorted.contains(sorted[i]));
        assert(records.to_multiset().count(sorted[i]) > 0);
        assert(records.contains(sorted[i]));
        let k = choose|k: int| 0 <= k < records.len() && records[k] == sorted[i];
        assert(writable(records[k]));
    }
    lemma_body_round_trip(sorted);
    let read = all_as_written(sorted);
    assert forall|i: int, j: int| 0 <= i < j < read.len() implies !lex_lt(
        (#[trigger] read[j]).path,
        (#[trigger] read[i]).path,
    ) by {
        assert(read[j].path == sorted[j].path && read[i].path == sorted[i].path);
    }
    lemma_sorted_fixed(read);
}

/// A staging index that holds `records` in this order is read back in this
/// order, and its bytes do not depend on the flags of its entries.
pub proof fn lemma_body_round_trip(records: Seq<IndexRecord>)
    requires
        records.len() <= u32::MAX,
        forall|i: int| 0 <= i < records.len() ==> writable(#[trigger] records[i]),
    ensures
        parse_index_bytes(index_body(records) + sha1_digest(index_body(records))) == Ok::<
            Seq<IndexRecord>,
            RuntimeError,
        >(all_as_written(records)),
        index_body(all_as_written(records)) == index_body(records),
{
    let body = index_body(records);
    let digest = sha1_digest(body);
    let data = body + digest;
    let count = records.len() as int;
    lemma_be_u32_round_trip(2);
    lemma_be_u32_round_trip(count);
    let head = index_signature() + u32_be(2) + u32_be(count);
    let rest = records_bytes(records) + digest;
    assert(head.len() == 12);
    assert(data == head + rest) by {
        lemma_append(head, records_bytes(records), digest);
    }
    assert(index_header(data) == Ok::<nat, RuntimeError>(records.len())) by {
        assert(data.subrange(0, 4) =~= index_signature());
        assert(data.subrange(4, 8) =~= u32_be(2));
        assert(data.subrange(8, 12) =~= u32_be(count));
    }
    assert(data.skip(12) == rest) by {
        assert(data.skip(12) =~= rest);
    }
    lemma_records_round_trip(records, digest);
    lemma_flags_unwritten(records);
    assert(all_as_written(records).len() == records.len());
}

} // verus!
