use minigit::error::RuntimeError;
use minigit::kind::Kind;
use minigit::object::{
    decode_stored, encode_object, frame_object, object_id, parse_object, read_tree, render_bytes,
    Object,
};

fn hex(bytes: &[u8]) -> String {
    let mut out = String::new();
    for b in bytes {
        out.push_str(&format!("{:02x}", b));
    }
    out
}

fn unhex(text: &str) -> Vec<u8> {
    let bytes = text.as_bytes();
    let mut out = Vec::new();
    let mut i = 0;
    while i + 1 < bytes.len() {
        let pair = std::str::from_utf8(&bytes[i..i + 2]).unwrap();
        out.push(u8::from_str_radix(pair, 16).unwrap());
        i += 2;
    }
    out
}

fn tree_entry(mode: &str, name: &str, id: &[u8]) -> Vec<u8> {
    let mut out = Vec::new();
    out.extend_from_slice(mode.as_bytes());
    out.push(b' ');
    out.extend_from_slice(name.as_bytes());
    out.push(0);
    out.extend_from_slice(id);
    out
}

#[test]
fn empty_blob_has_the_known_id() {
    let id = object_id(Kind::Blob(false), b"");
    assert_eq!(hex(&id), "e69de29bb2d1d6434b8b29ae775ad8c2e48c5391");
    let stored = encode_object(Kind::Blob(false), b"").unwrap();
    assert_eq!(stored.hash, id);
    let object = decode_stored(&stored.data).unwrap();
    assert_eq!(object.size, 0);
    assert!(object.data.is_empty());
}

#[test]
fn hello_blob_has_the_known_id() {
    let id = object_id(Kind::Blob(false), b"hello\n");
    assert_eq!(hex(&id), "ce013625030ba8dba906f756967f9e9ca394464a");
}

#[test]
fn the_flag_of_a_blob_does_not_change_its_id() {
    assert_eq!(object_id(Kind::Blob(true), b"hello\n"), object_id(Kind::Blob(false), b"hello\n"));
}

#[test]
fn the_frame_is_kind_space_length_zero_payload() {
    assert_eq!(frame_object(Kind::Blob(false), b"hello\n"), b"blob 6\0hello\n".to_vec());
    assert_eq!(frame_object(Kind::Commit, b""), b"commit 0\0".to_vec());
    assert_eq!(frame_object(Kind::Tree, b"0123456789"), b"tree 10\x000123456789".to_vec());
    assert_eq!(frame_object(Kind::Symlink, b"a"), b"symlink 1\0a".to_vec());
}

#[test]
fn what_is_put_is_got_back_for_every_kind() {
    let payload = b"some payload\0with zero\nand more".to_vec();
    let kinds = vec![Kind::Blob(false), Kind::Blob(true), Kind::Commit, Kind::Tree, Kind::Symlink];
    for kind in kinds {
        let stored = encode_object(kind, &payload).unwrap();
        assert_ne!(stored.data, frame_object(kind, &payload));
        let object = decode_stored(&stored.data).unwrap();
        assert_eq!(object.data, payload);
        assert_eq!(object.size, payload.len());
        let expected = match kind {
            Kind::Blob(_) => Kind::Blob(true),
            other => other,
        };
        assert_eq!(object.kind, expected);
    }
}

#[test]
fn putting_twice_gives_the_same_id() {
    let a = encode_object(Kind::Commit, b"abc").unwrap();
    let b = encode_object(Kind::Commit, b"abc").unwrap();
    assert_eq!(a.hash, b.hash);
    assert_eq!(a.data, b.data);
    let plain = encode_object(Kind::Blob(false), b"abc").unwrap();
    let flagged = encode_object(Kind::Blob(true), b"abc").unwrap();
    assert_eq!(plain.hash, flagged.hash);
    assert_eq!(plain.data, flagged.data);
    assert_ne!(a.hash, encode_object(Kind::Commit, b"abd").unwrap().hash);
}

#[test]
fn a_stream_from_another_compressor_is_decoded() {
    let stored = unhex("789c4bcac94f523063c848cdc9c9e702001dc50414");
    let object = decode_stored(&stored).unwrap();
    assert_eq!(object.kind, Kind::Blob(true));
    assert_eq!(object.size, 6);
    assert_eq!(object.data, b"hello\n".to_vec());
}

#[test]
fn a_file_that_is_no_zlib_stream_is_a_corrupt_header() {
    assert_eq!(decode_stored(b"blob 1\0a").unwrap_err(), RuntimeError::CorruptHeader);
    assert_eq!(decode_stored(b"").unwrap_err(), RuntimeError::CorruptHeader);
}

#[test]
fn a_frame_without_zero_byte_is_a_corrupt_header() {
    assert_eq!(parse_object(b"blob 3abc").unwrap_err(), RuntimeError::CorruptHeader);
    assert_eq!(parse_object(b"").unwrap_err(), RuntimeError::CorruptHeader);
}

#[test]
fn a_frame_without_space_is_a_corrupt_header() {
    assert_eq!(parse_object(b"blob3\0abc").unwrap_err(), RuntimeError::CorruptHeader);
}

#[test]
fn a_frame_of_unknown_kind_is_refused() {
    assert_eq!(parse_object(b"tag 3\0abc").unwrap_err(), RuntimeError::UnknownKind);
    assert_eq!(parse_object(b" 3\0abc").unwrap_err(), RuntimeError::UnknownKind);
}

#[test]
fn a_frame_with_a_bad_size_is_a_corrupt_header() {
    assert_eq!(parse_object(b"blob x\0abc").unwrap_err(), RuntimeError::CorruptHeader);
    assert_eq!(parse_object(b"blob \0").unwrap_err(), RuntimeError::CorruptHeader);
    assert_eq!(parse_object(b"blob -1\0").unwrap_err(), RuntimeError::CorruptHeader);
    assert_eq!(
        parse_object(b"blob 99999999999999999999999999\0").unwrap_err(),
        RuntimeError::CorruptHeader
    );
}

#[test]
fn a_frame_with_the_wrong_size_is_a_size_mismatch() {
    assert_eq!(parse_object(b"blob 4\0abc").unwrap_err(), RuntimeError::SizeMismatch);
    assert_eq!(parse_object(b"blob 2\0abc").unwrap_err(), RuntimeError::SizeMismatch);
}

#[test]
fn a_size_with_zeros_in_front_is_read() {
    let object = parse_object(b"commit 003\0abc").unwrap();
    assert_eq!(object.kind, Kind::Commit);
    assert_eq!(object.size, 3);
    assert_eq!(object.data, b"abc".to_vec());
}

#[test]
fn a_blob_is_shown_as_its_text() {
    let object = Object { kind: Kind::Blob(false), size: 6, data: b"hello\n".to_vec() };
    assert_eq!(object.string().unwrap(), "hello\n");
    let commit = Object { kind: Kind::Commit, size: 3, data: "tr\u{e9}".as_bytes().to_vec() };
    assert_eq!(commit.string().unwrap(), "tr\u{e9}");
    let link = Object { kind: Kind::Symlink, size: 4, data: b"../a".to_vec() };
    assert_eq!(link.string().unwrap(), "../a");
}

#[test]
fn a_blob_that_is_not_utf8_cannot_be_shown() {
    let object = Object { kind: Kind::Blob(false), size: 2, data: vec![0xff, 0xfe] };
    assert_eq!(object.string().unwrap_err(), RuntimeError::UnexpectedChar);
}

#[test]
fn a_tree_is_read_entry_by_entry() {
    let id1 = unhex("ce013625030ba8dba906f756967f9e9ca394464a");
    let id2 = unhex("e69de29bb2d1d6434b8b29ae775ad8c2e48c5391");
    let mut data = tree_entry("100644", "hello.txt", &id1);
    data.extend_from_slice(&tree_entry("40000", "src", &id2));
    let entries = read_tree(&data).unwrap();
    assert_eq!(entries.len(), 2);
    assert_eq!(entries[0].mode, "100644");
    assert_eq!(entries[0].name, "hello.txt");
    assert_eq!(entries[0].kind, Kind::Blob(false));
    assert_eq!(entries[0].hash.to_vec(), id1);
    assert_eq!(entries[1].mode, "40000");
    assert_eq!(entries[1].name, "src");
    assert_eq!(entries[1].kind, Kind::Tree);
    assert_eq!(entries[1].hash.to_vec(), id2);
    assert!(read_tree(b"").unwrap().is_empty());
}

#[test]
fn a_tree_is_listed_sorted_and_lined_up() {
    let id1 = unhex("ce013625030ba8dba906f756967f9e9ca394464a");
    let id2 = unhex("e69de29bb2d1d6434b8b29ae775ad8c2e48c5391");
    let mut data = tree_entry("40000", "src", &id2);
    data.extend_from_slice(&tree_entry("100755", "run", &id2));
    data.extend_from_slice(&tree_entry("100644", "hello.txt", &id1));
    let object = Object { kind: Kind::Tree, size: data.len(), data };
    let expected = "100644 blob ce013625030ba8dba906f756967f9e9ca394464a    hello.txt\n\
                    100755 blob e69de29bb2d1d6434b8b29ae775ad8c2e48c5391          run\n\
                    040000 tree e69de29bb2d1d6434b8b29ae775ad8c2e48c5391          src";
    assert_eq!(object.string().unwrap(), expected);
}

#[test]
fn a_tree_of_one_entry_is_one_line() {
    let id1 = unhex("ce013625030ba8dba906f756967f9e9ca394464a");
    let data = tree_entry("100644", "hello.txt", &id1);
    assert_eq!(
        render_bytes(Kind::Tree, &data).unwrap(),
        b"100644 blob ce013625030ba8dba906f756967f9e9ca394464a    hello.txt".to_vec()
    );
    assert_eq!(render_bytes(Kind::Tree, b"").unwrap(), Vec::<u8>::new());
}

#[test]
fn a_tree_entry_that_is_cut_short_is_corrupt() {
    let id1 = unhex("ce013625030ba8dba906f756967f9e9ca394464a");
    let whole = tree_entry("100644", "hello.txt", &id1);
    assert_eq!(read_tree(&whole[..whole.len() - 1]).unwrap_err(), RuntimeError::CorruptEntry);
    assert_eq!(read_tree(b"100644 hello.txt").unwrap_err(), RuntimeError::CorruptEntry);
    let mut no_space = b"100644hello.txt\0".to_vec();
    no_space.extend_from_slice(&id1);
    assert_eq!(read_tree(&no_space).unwrap_err(), RuntimeError::CorruptEntry);
}

#[test]
fn a_tree_entry_of_unknown_mode_is_refused() {
    let id1 = unhex("ce013625030ba8dba906f756967f9e9ca394464a");
    let data = tree_entry("100666", "hello.txt", &id1);
    assert_eq!(read_tree(&data).unwrap_err(), RuntimeError::InvalidMode);
    let object = Object { kind: Kind::Tree, size: data.len(), data };
    assert_eq!(object.string().unwrap_err(), RuntimeError::InvalidMode);
}

#[test]
fn a_tree_entry_with_a_name_that_is_not_utf8_is_refused() {
    let id1 = unhex("ce013625030ba8dba906f756967f9e9ca394464a");
    let mut data = b"100644 ".to_vec();
    data.extend_from_slice(&[0xff, 0xfe]);
    data.push(0);
    data.extend_from_slice(&id1);
    assert_eq!(read_tree(&data).unwrap_err(), RuntimeError::UnexpectedChar);
}
