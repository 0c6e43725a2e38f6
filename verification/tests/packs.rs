use flate2::write::ZlibEncoder;
use flate2::Compression;
use minigit::delta::{patch, read_copy_fields, run_instructions};
use minigit::error::RuntimeError;
use minigit::pack::{
    dump_pack, dump_pack_index, parse_pack_entry, parse_pack_header, parse_pack_index,
    read_entry_header, PackObjectType,
};
use minigit::repository::Repository;
use minigit::varint::{read_vli_be, read_vli_le};
use sha1::{Digest, Sha1};
use std::io::Write;

fn bytes_of(text: &str) -> Vec<u8> {
    let raw = text.as_bytes();
    let mut out = Vec::new();
    let mut i = 0;
    while i + 1 < raw.len() {
        out.push(u8::from_str_radix(std::str::from_utf8(&raw[i..i + 2]).unwrap(), 16).unwrap());
        i += 2;
    }
    out
}

fn squeeze(data: &[u8]) -> Vec<u8> {
    let mut encoder = ZlibEncoder::new(Vec::new(), Compression::default());
    encoder.write_all(data).unwrap();
    encoder.finish().unwrap()
}

fn record_head(kind: u8, size: usize) -> Vec<u8> {
    let mut out = Vec::new();
    let mut byte = (kind << 4) | (size & 15) as u8;
    let mut rest = size >> 4;
    while rest > 0 {
        out.push(byte | 0x80);
        byte = (rest & 0x7f) as u8;
        rest >>= 7;
    }
    out.push(byte);
    out
}

fn close(mut pack: Vec<u8>) -> Vec<u8> {
    let digest = Sha1::digest(&pack);
    pack.extend_from_slice(&digest);
    pack
}

fn pack_head(count: u32) -> Vec<u8> {
    let mut out = b"PACK".to_vec();
    out.extend_from_slice(&2u32.to_be_bytes());
    out.extend_from_slice(&count.to_be_bytes());
    out
}

const SAMPLE: &str = "5041434b00000002000000023c789c7374747474020267200000140803196912789ce3e19dc0c1183191830500082901a88681571d70536526213369698b10ec4932ff8a0e";

#[test]
fn a_delta_is_rebuilt_from_its_base() {
    let pack = bytes_of(SAMPLE);
    let base = parse_pack_entry(&pack, 12).unwrap();
    assert_eq!(base.object_type, PackObjectType::Blob);
    assert_eq!(base.object_size, 12);
    assert_eq!(base.object_data, b"AAAABBBBCCCC".to_vec());
    assert_eq!(base.pos, 12);
    assert_eq!(base.end_pos, 30);
    let patched = parse_pack_entry(&pack, 30).unwrap();
    assert_eq!(patched.object_type, PackObjectType::Blob);
    assert_eq!(patched.object_size, 13);
    assert_eq!(patched.object_data, b"AAAABBBBXCCCC".to_vec());
    assert_eq!(patched.pos, 30);
    assert_eq!(patched.end_pos, 49);
}

#[test]
fn a_pack_is_listed_line_by_line() {
    let pack = bytes_of(SAMPLE);
    let expected = "0dfdc935bf2e5650bc226d06c681193bd2dc270b blob 12 18 12\n\
                    62d81c0ac6f8bac0383af51e9ac26b45cc4c81fc blob 13 19 30\n";
    assert_eq!(dump_pack(&pack).unwrap(), expected.as_bytes().to_vec());
    let r = Repository::new(".".to_string(), None);
    assert_eq!(r.dump_pack(&pack).unwrap(), expected.as_bytes().to_vec());
}

#[test]
fn a_pack_built_here_is_read() {
    let commit = b"tree aaa96ced2d9a1c8e72c56b253a0e2fe78393feb7\n\ninit\n\n".to_vec();
    let big = vec![b'z'; 100_000];
    let mut pack = pack_head(3);
    let first_at = pack.len();
    pack.extend_from_slice(&record_head(1, commit.len()));
    pack.extend_from_slice(&squeeze(&commit));
    let second_at = pack.len();
    pack.extend_from_slice(&record_head(3, big.len()));
    pack.extend_from_slice(&squeeze(&big));
    let third_at = pack.len();
    // a delta of the big blob: its first 70000 bytes, then "tail"
    let mut delta = vec![0xa0, 0x8d, 0x06, 0xf4, 0xa2, 0x04];
    delta.extend_from_slice(&[0xb0, 0x70, 0x11]); // copy 0x1170 bytes from 0
    delta.extend_from_slice(&[0x80]); // copy 0x10000 bytes from 0
    delta.extend_from_slice(&[4, b't', b'a', b'i', b'l']);
    let body = squeeze(&delta);
    pack.extend_from_slice(&record_head(6, delta.len()));
    let distance = third_at - second_at;
    // the distance in groups of seven bits, highest first
    let mut groups = vec![(distance & 0x7f) as u8];
    let mut rest = distance >> 7;
    while rest > 0 {
        rest -= 1;
        groups.insert(0, 0x80 | (rest & 0x7f) as u8);
        rest >>= 7;
    }
    pack.extend_from_slice(&groups);
    pack.extend_from_slice(&body);
    let end = pack.len();
    let pack = close(pack);

    let first = parse_pack_entry(&pack, first_at).unwrap();
    assert_eq!(first.object_type, PackObjectType::Commit);
    assert_eq!(first.object_data, commit);
    assert_eq!(first.end_pos as usize, second_at);
    let second = parse_pack_entry(&pack, second_at).unwrap();
    assert_eq!(second.object_type, PackObjectType::Blob);
    assert_eq!(second.object_size, 100_000);
    assert_eq!(second.end_pos as usize, third_at);
    let third = parse_pack_entry(&pack, third_at).unwrap();
    assert_eq!(third.object_type, PackObjectType::Blob);
    assert_eq!(third.object_size as usize, 0x1170 + 0x10000 + 4);
    assert_eq!(third.object_data.len(), 0x1170 + 0x10000 + 4);
    assert_eq!(&third.object_data[third.object_data.len() - 4..], b"tail");
    assert_eq!(third.end_pos as usize, end);

    let text = String::from_utf8(dump_pack(&pack).unwrap()).unwrap();
    let lines: Vec<&str> = text.lines().collect();
    assert_eq!(lines.len(), 3);
    assert_eq!(
        lines[0],
        format!("ff4e1c69b47149bafbb1827c3140b859c5d9f82e commit {} {} {}", commit.len(), second_at - first_at, first_at)
    );
    assert!(lines[1].ends_with(&format!(" blob 100000 {} {}", third_at - second_at, second_at)));
    assert!(lines[2].ends_with(&format!(" blob {} {} {}", 0x1170 + 0x10000 + 4, end - third_at, third_at)));
}

#[test]
fn a_delta_of_a_delta_has_the_type_of_the_first_base() {
    let base = b"0123456789".to_vec();
    let mut pack = pack_head(3);
    let first_at = pack.len();
    pack.extend_from_slice(&record_head(2, base.len()));
    pack.extend_from_slice(&squeeze(&base));
    let second_at = pack.len();
    let delta1 = vec![10, 5, 0x91, 5, 5]; // the last five bytes
    pack.extend_from_slice(&record_head(6, delta1.len()));
    pack.push((second_at - first_at) as u8);
    pack.extend_from_slice(&squeeze(&delta1));
    let third_at = pack.len();
    let delta2 = vec![5, 7, 0x90, 5, 2, b'!', b'?']; // all five, then "!?"
    pack.extend_from_slice(&record_head(6, delta2.len()));
    pack.push((third_at - second_at) as u8);
    pack.extend_from_slice(&squeeze(&delta2));
    let pack = close(pack);
    let last = parse_pack_entry(&pack, third_at).unwrap();
    assert_eq!(last.object_type, PackObjectType::Tree);
    assert_eq!(last.object_data, b"56789!?".to_vec());
    assert_eq!(last.object_size, 7);
    assert_eq!(last.pos as usize, third_at);
    assert!(dump_pack(&pack).is_ok());
}

#[test]
fn a_long_chain_of_deltas_is_followed() {
    let mut pack = pack_head(0);
    let mut last = pack.len();
    pack.extend_from_slice(&record_head(3, 1));
    pack.extend_from_slice(&squeeze(b"a"));
    let links = 3000;
    for i in 0..links {
        // each delta copies its base and puts one byte behind it
        let size = i + 1;
        let grown = size + 1;
        let mut delta = Vec::new();
        for n in [size, grown] {
            let mut rest = n;
            while rest >= 128 {
                delta.push((rest & 0x7f) as u8 | 0x80);
                rest >>= 7;
            }
            delta.push(rest as u8);
        }
        delta.extend_from_slice(&[0xb0, (size & 0xff) as u8, (size >> 8) as u8, 1, b'b']);
        let at = pack.len();
        pack.extend_from_slice(&record_head(6, delta.len()));
        let distance = at - last;
        assert!(distance < 128);
        pack.push(distance as u8);
        pack.extend_from_slice(&squeeze(&delta));
        last = at;
    }
    let object = parse_pack_entry(&pack, last).unwrap();
    assert_eq!(object.object_type, PackObjectType::Blob);
    assert_eq!(object.object_size as usize, links + 1);
    assert_eq!(object.object_data[0], b'a');
    assert!(object.object_data[1..].iter().all(|b| *b == b'b'));
    assert_eq!(object.pos as usize, last);
    assert_eq!(object.end_pos as usize, pack.len());
}

#[test]
fn the_head_of_a_pack_is_checked() {
    let header = parse_pack_header(&bytes_of(SAMPLE)).unwrap();
    assert_eq!(header.signature, *b"PACK");
    assert_eq!(header.version, 2);
    assert_eq!(header.num_objects, 2);
    assert_eq!(parse_pack_header(b"PACK\0\0\0\x02\0\0\0").unwrap_err(), RuntimeError::CorruptHeader);
    assert_eq!(
        parse_pack_header(b"PICK\0\0\0\x02\0\0\0\0").unwrap_err(),
        RuntimeError::InvalidMagic
    );
    assert_eq!(
        parse_pack_header(b"PACK\0\0\0\x03\0\0\0\0").unwrap_err(),
        RuntimeError::UnsupportedVersion
    );
    assert_eq!(dump_pack(b"PICK\0\0\0\x02\0\0\0\0").unwrap_err(), RuntimeError::InvalidMagic);
}

#[test]
fn the_digest_at_the_end_of_a_pack_is_checked() {
    let mut pack = bytes_of(SAMPLE);
    let last = pack.len() - 1;
    pack[last] ^= 1;
    assert_eq!(dump_pack(&pack).unwrap_err(), RuntimeError::CorruptEntry);
    let pack = bytes_of(SAMPLE);
    assert_eq!(dump_pack(&pack[..pack.len() - 1]).unwrap_err(), RuntimeError::CorruptEntry);
    let empty = close(pack_head(0));
    assert_eq!(dump_pack(&empty).unwrap(), Vec::<u8>::new());
}

#[test]
fn a_pack_with_fewer_records_than_announced_is_corrupt() {
    let mut pack = pack_head(2);
    pack.extend_from_slice(&record_head(3, 1));
    pack.extend_from_slice(&squeeze(b"a"));
    assert_eq!(dump_pack(&pack).unwrap_err(), RuntimeError::CorruptEntry);
}

#[test]
fn the_types_of_records_are_told_apart() {
    assert_eq!(PackObjectType::from_u8(1).unwrap(), PackObjectType::Commit);
    assert_eq!(PackObjectType::from_u8(2).unwrap(), PackObjectType::Tree);
    assert_eq!(PackObjectType::from_u8(3).unwrap(), PackObjectType::Blob);
    assert_eq!(PackObjectType::from_u8(4).unwrap(), PackObjectType::Tag);
    assert_eq!(PackObjectType::from_u8(6).unwrap(), PackObjectType::OfsDelta);
    assert_eq!(PackObjectType::from_u8(7).unwrap(), PackObjectType::RefDelta);
    assert_eq!(PackObjectType::from_u8(0).unwrap_err(), RuntimeError::UnknownKind);
    assert_eq!(PackObjectType::from_u8(5).unwrap_err(), RuntimeError::UnknownKind);
    assert_eq!(PackObjectType::from_u8(8).unwrap_err(), RuntimeError::UnknownKind);
    assert_eq!(PackObjectType::Commit.string(), "commit");
    assert_eq!(PackObjectType::Tree.string(), "tree");
    assert_eq!(PackObjectType::Blob.string(), "blob");
    assert_eq!(PackObjectType::Tag.string(), "tag");
    assert_eq!(PackObjectType::OfsDelta.string(), "ofs-delta");
    assert_eq!(PackObjectType::RefDelta.string(), "ref-delta");
}

#[test]
fn records_that_cannot_be_read_are_refused() {
    let body = squeeze(b"abc");
    // the type 5 is not in use
    let mut data = record_head(5, 3);
    data.extend_from_slice(&body);
    assert_eq!(parse_pack_entry(&data, 0).unwrap_err(), RuntimeError::UnknownKind);
    // the type 0 neither
    let mut data = record_head(0, 3);
    data.extend_from_slice(&body);
    assert_eq!(parse_pack_entry(&data, 0).unwrap_err(), RuntimeError::UnknownKind);
    // a base named by its id
    let mut data = record_head(7, 3);
    data.extend_from_slice(&[0; 20]);
    data.extend_from_slice(&body);
    assert_eq!(parse_pack_entry(&data, 0).unwrap_err(), RuntimeError::UnsupportedFeature);
    // a payload of another length than announced
    let mut data = record_head(3, 4);
    data.extend_from_slice(&body);
    assert_eq!(parse_pack_entry(&data, 0).unwrap_err(), RuntimeError::SizeMismatch);
    // no zlib stream
    let mut data = record_head(3, 3);
    data.extend_from_slice(b"abc");
    assert_eq!(parse_pack_entry(&data, 0).unwrap_err(), RuntimeError::CorruptEntry);
    // nothing at all
    assert_eq!(parse_pack_entry(b"", 0).unwrap_err(), RuntimeError::CorruptEntry);
    // a head that goes on beyond the end
    assert_eq!(parse_pack_entry(&[0xb3, 0x80], 0).unwrap_err(), RuntimeError::CorruptEntry);
    // a delta that points at itself, and one that points before the start
    let delta = squeeze(&[3, 3, 0x90, 3]);
    let mut data = record_head(3, 3);
    data.extend_from_slice(&body);
    let at = data.len();
    data.extend_from_slice(&record_head(6, 4));
    data.push(0);
    data.extend_from_slice(&delta);
    assert_eq!(parse_pack_entry(&data, at).unwrap_err(), RuntimeError::CorruptEntry);
    data[at + 1] = (at + 1) as u8;
    assert_eq!(parse_pack_entry(&data, at).unwrap_err(), RuntimeError::CorruptEntry);
    data[at + 1] = at as u8;
    assert_eq!(parse_pack_entry(&data, at).unwrap().object_data, b"abc".to_vec());
}

#[test]
fn the_head_of_a_record_holds_type_and_size() {
    assert_eq!(read_entry_header(&[0x3c], 0).unwrap(), (3, 12, 1));
    assert_eq!(read_entry_header(&[0x00, 0x95, 0x0a], 1).unwrap(), (1, 5 + (10 << 4), 3));
    // 100000 = 0x186a0: low four bits 0, then 0x6a, 0x30
    assert_eq!(read_entry_header(&[0xb0, 0xea, 0x30], 0).unwrap(), (3, 100_000, 3));
    assert_eq!(
        read_entry_header(&[0xff, 0xff, 0xff, 0xff, 0x7f], 0).unwrap(),
        (7, 0xffff_ffff, 5)
    );
    assert_eq!(
        read_entry_header(&[0xff, 0xff, 0xff, 0xff, 0xff, 0x01], 0).unwrap_err(),
        RuntimeError::CorruptEntry
    );
    assert_eq!(read_entry_header(&[0x80], 0).unwrap_err(), RuntimeError::CorruptEntry);
    assert_eq!(read_entry_header(&[0x3c], 1).unwrap_err(), RuntimeError::CorruptEntry);
}

#[test]
fn numbers_in_groups_of_seven_bits_are_read_lowest_first() {
    assert_eq!(read_vli_le(&[0x00], 0).unwrap(), (0, 1));
    assert_eq!(read_vli_le(&[0x7f], 0).unwrap(), (127, 1));
    assert_eq!(read_vli_le(&[0x80, 0x01], 0).unwrap(), (128, 2));
    assert_eq!(read_vli_le(&[0xff, 0xac, 0x02, 0x99], 1).unwrap(), (300, 3));
    assert_eq!(read_vli_le(&[0xff, 0xff, 0xff, 0xff, 0x0f], 0).unwrap(), (0xffff_ffff, 5));
    assert_eq!(read_vli_le(&[0x81, 0x80, 0x80, 0x80, 0x80, 0x80, 0x00], 0).unwrap(), (1, 7));
    assert_eq!(
        read_vli_le(&[0xff, 0xff, 0xff, 0xff, 0x10], 0).unwrap_err(),
        RuntimeError::CorruptEntry
    );
    assert_eq!(
        read_vli_le(&[0x80, 0x80, 0x80, 0x80, 0x80, 0x01], 0).unwrap_err(),
        RuntimeError::CorruptEntry
    );
    assert_eq!(read_vli_le(&[0x80], 0).unwrap_err(), RuntimeError::CorruptEntry);
    assert_eq!(read_vli_le(&[], 0).unwrap_err(), RuntimeError::CorruptEntry);
}

#[test]
fn distances_are_read_highest_group_first_with_one_more_for_each_group() {
    assert_eq!(read_vli_be(&[0x00], 0, 1000).unwrap(), (0, 1));
    assert_eq!(read_vli_be(&[0x12], 0, 1000).unwrap(), (18, 1));
    assert_eq!(read_vli_be(&[0x80, 0x00], 0, 1000).unwrap(), (128, 2));
    assert_eq!(read_vli_be(&[0x81, 0x00], 0, 1000).unwrap(), (256, 2));
    assert_eq!(read_vli_be(&[0x80, 0x80, 0x00], 0, 100_000).unwrap(), (16512, 3));
    assert_eq!(read_vli_be(&[0xff, 0x85, 0x23], 1, 1000).unwrap(), (6 * 128 + 0x23, 3));
    assert_eq!(read_vli_be(&[0x81, 0x00], 0, 256).unwrap(), (256, 2));
    assert_eq!(read_vli_be(&[0x81, 0x00], 0, 255).unwrap_err(), RuntimeError::CorruptEntry);
    assert_eq!(read_vli_be(&[0x81], 0, 1000).unwrap_err(), RuntimeError::CorruptEntry);
    assert_eq!(read_vli_be(&[], 0, 1000).unwrap_err(), RuntimeError::CorruptEntry);
}

#[test]
fn a_delta_copies_and_inserts() {
    let base = b"AAAABBBBCCCC";
    assert_eq!(
        patch(base, &[12, 13, 0x90, 8, 0x01, b'X', 0x91, 8, 4]).unwrap(),
        b"AAAABBBBXCCCC".to_vec()
    );
    // a zero byte is passed over
    assert_eq!(patch(base, &[12, 4, 0x00, 0x91, 4, 4, 0x00]).unwrap(), b"BBBB".to_vec());
    assert_eq!(patch(base, &[12, 0]).unwrap(), Vec::<u8>::new());
    assert_eq!(patch(b"", &[0, 2, 2, b'h', b'i']).unwrap(), b"hi".to_vec());
    assert_eq!(
        run_instructions(base, &[0x91, 8, 4, 0x91, 0, 4], 0).unwrap(),
        b"CCCCAAAA".to_vec()
    );
}

#[test]
fn the_fields_of_a_copy_are_read_as_their_bits_say() {
    assert_eq!(read_copy_fields(&[1, 2, 3, 4, 5, 6], 0xbf, 0).unwrap(), (0x04030201, 0x0605, 6));
    assert_eq!(read_copy_fields(&[1, 2], 0x80 | 0x02 | 0x20, 0).unwrap(), (0x0100, 0x0200, 2));
    assert_eq!(read_copy_fields(&[9], 0x80, 0).unwrap(), (0, 0, 0));
    assert_eq!(read_copy_fields(&[9, 7], 0x88, 1).unwrap(), (0x0700_0000, 0, 2));
    // bit 6 stands for no field
    assert_eq!(read_copy_fields(&[9], 0xc0, 0).unwrap(), (0, 0, 0));
    assert_eq!(read_copy_fields(&[1], 0x83, 0), None);
}

#[test]
fn a_copy_of_length_zero_copies_65536_bytes() {
    let base = vec![7u8; 0x10000];
    let out = patch(&base, &[0x80, 0x80, 0x04, 0x80, 0x80, 0x04, 0x80]).unwrap();
    assert_eq!(out, base);
    let short = vec![7u8; 0xffff];
    assert_eq!(
        run_instructions(&short, &[0x80], 0).unwrap_err(),
        RuntimeError::CorruptEntry
    );
}

#[test]
fn deltas_that_do_not_fit_are_refused() {
    let base = b"AAAABBBBCCCC";
    // the base has another length than announced
    assert_eq!(patch(base, &[11, 4, 0x91, 4, 4]).unwrap_err(), RuntimeError::SizeMismatch);
    // the result has another length than announced
    assert_eq!(patch(base, &[12, 5, 0x91, 4, 4]).unwrap_err(), RuntimeError::SizeMismatch);
    // a copy beyond the end of the base
    assert_eq!(patch(base, &[12, 4, 0x91, 9, 4]).unwrap_err(), RuntimeError::CorruptEntry);
    // an insert beyond the end of the delta
    assert_eq!(patch(base, &[12, 4, 4, b'a', b'b']).unwrap_err(), RuntimeError::CorruptEntry);
    // a copy whose fields are cut short
    assert_eq!(patch(base, &[12, 4, 0x91, 4]).unwrap_err(), RuntimeError::CorruptEntry);
    // numbers that are cut short
    assert_eq!(patch(base, &[12]).unwrap_err(), RuntimeError::CorruptEntry);
    assert_eq!(patch(base, &[0x8c]).unwrap_err(), RuntimeError::CorruptEntry);
    assert_eq!(patch(base, &[]).unwrap_err(), RuntimeError::CorruptEntry);
}

fn sample_index(offsets: &[u32]) -> Vec<u8> {
    let count = offsets.len() as u32;
    let mut out = vec![0xff, b't', b'O', b'c', 0, 0, 0, 2];
    for slot in 0..256u32 {
        // every name starts with the byte 0x10 + its place
        let below = (0..count).filter(|i| 0x10 + i <= slot).count() as u32;
        out.extend_from_slice(&below.to_be_bytes());
    }
    for i in 0..count {
        out.extend_from_slice(&[0x10 + i as u8; 20]);
    }
    for i in 0..count {
        out.extend_from_slice(&(0x1234_5678 + i).to_be_bytes());
    }
    for offset in offsets {
        out.extend_from_slice(&offset.to_be_bytes());
    }
    out.extend_from_slice(&[0xaa; 20]);
    out.extend_from_slice(&[0xbb; 20]);
    out
}

#[test]
fn a_pack_index_is_read_and_listed() {
    let data = sample_index(&[12, 0x1f40, 0]);
    let entries = parse_pack_index(&data).unwrap();
    assert_eq!(entries.len(), 3);
    assert_eq!(entries[0].name, [0x10; 20]);
    assert_eq!(entries[0].crc32, 0x1234_5678);
    assert_eq!(entries[0].offset, 12);
    assert_eq!(entries[1].name, [0x11; 20]);
    assert_eq!(entries[1].crc32, 0x1234_5679);
    assert_eq!(entries[1].offset, 0x1f40);
    assert_eq!(entries[2].offset, 0);
    let expected = "1010101010101010101010101010101010101010 offset: 0xc crc32: 305419896\n\
                    1111111111111111111111111111111111111111 offset: 0x1f40 crc32: 305419897\n\
                    1212121212121212121212121212121212121212 offset: 0x0 crc32: 305419898\n";
    assert_eq!(dump_pack_index(&data).unwrap(), expected.as_bytes().to_vec());
    let r = Repository::new(".".to_string(), None);
    assert_eq!(r.dump_pack_index_file(&data).unwrap(), expected.as_bytes().to_vec());
    assert_eq!(dump_pack_index(&sample_index(&[])).unwrap(), Vec::<u8>::new());
}

#[test]
fn a_pack_index_that_cannot_be_read_is_refused() {
    let data = sample_index(&[12, 13]);
    assert_eq!(parse_pack_index(&data[..7]).unwrap_err(), RuntimeError::CorruptHeader);
    assert_eq!(parse_pack_index(&data[..4]).unwrap_err(), RuntimeError::CorruptHeader);
    assert_eq!(parse_pack_index(&data[..3]).unwrap_err(), RuntimeError::CorruptHeader);
    assert_eq!(parse_pack_index(b"").unwrap_err(), RuntimeError::CorruptHeader);
    // the signature is looked at as soon as its four bytes are there
    assert_eq!(parse_pack_index(b"PACK").unwrap_err(), RuntimeError::InvalidMagic);
    assert_eq!(parse_pack_index(b"\xfftOC\0\0\0").unwrap_err(), RuntimeError::InvalidMagic);
    assert_eq!(dump_pack_index(b"DIRC\0\0").unwrap_err(), RuntimeError::InvalidMagic);
    assert_eq!(parse_pack_index(&data[..1031]).unwrap_err(), RuntimeError::CorruptHeader);
    assert_eq!(
        parse_pack_index(&data[..data.len() - 1]).unwrap_err(),
        RuntimeError::CorruptEntry
    );
    let mut other = data.clone();
    other[1] = b'T';
    assert_eq!(parse_pack_index(&other).unwrap_err(), RuntimeError::InvalidMagic);
    let mut other = data.clone();
    other[0] = 0xfe;
    assert_eq!(parse_pack_index(&other).unwrap_err(), RuntimeError::InvalidMagic);
    let mut other = data.clone();
    other[7] = 3;
    assert_eq!(dump_pack_index(&other).unwrap_err(), RuntimeError::UnsupportedVersion);
    assert_eq!(
        parse_pack_index(&sample_index(&[12, 0x8000_0000])).unwrap_err(),
        RuntimeError::UnsupportedFeature
    );
    assert!(parse_pack_index(&sample_index(&[12, 0x7fff_ffff])).is_ok());
}
