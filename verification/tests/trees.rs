use minigit::error::RuntimeError;
use minigit::kind::Kind;
use minigit::object::{decode_stored, TreeObject};
use minigit::order::bytes_lt;
use minigit::tree::{
    build_tree, entries_of_children, is_left_out, is_plain_name, is_valid_tree, serialize_tree,
    sort_by_name, TreeChild,
};

fn hex_of(bytes: &[u8]) -> String {
    let mut out = String::new();
    for b in bytes {
        out.push_str(&format!("{:02x}", b));
    }
    out
}

fn id_of(byte: u8) -> [u8; 20] {
    [byte; 20]
}

fn hello_id() -> [u8; 20] {
    [
        0xce, 0x01, 0x36, 0x25, 0x03, 0x0b, 0xa8, 0xdb, 0xa9, 0x06, 0xf7, 0x56, 0x96, 0x7f, 0x9e,
        0x9c, 0xa3, 0x94, 0x46, 0x4a,
    ]
}

fn file(name: &str, mode: u32, hash: [u8; 20]) -> TreeChild {
    TreeChild { name: name.to_string(), is_dir: false, mode, hash }
}

fn dir(name: &str, hash: [u8; 20]) -> TreeChild {
    TreeChild { name: name.to_string(), is_dir: true, mode: 0o40755, hash }
}

#[test]
fn a_tree_of_one_file_has_the_known_payload_and_id() {
    let children = vec![file("hello.txt", 0o100644, hello_id())];
    let tree = build_tree(&children).unwrap();
    assert_eq!(hex_of(&tree.hash), "aaa96ced2d9a1c8e72c56b253a0e2fe78393feb7");
    let object = decode_stored(&tree.data).unwrap();
    assert_eq!(object.kind, Kind::Tree);
    let mut expected = b"100644 hello.txt\0".to_vec();
    expected.extend_from_slice(&hello_id());
    assert_eq!(object.data, expected);
    assert_eq!(object.size, 37);
}

#[test]
fn the_order_of_the_children_does_not_matter() {
    let a = vec![
        file("b.txt", 0o100644, id_of(1)),
        dir("a", id_of(2)),
        file("run.sh", 0o100755, id_of(3)),
        file("a.txt", 0o100644, id_of(4)),
    ];
    let b = vec![
        file("a.txt", 0o100644, id_of(4)),
        file("run.sh", 0o100755, id_of(3)),
        file("b.txt", 0o100644, id_of(1)),
        dir("a", id_of(2)),
    ];
    let first = build_tree(&a).unwrap();
    let second = build_tree(&b).unwrap();
    assert_eq!(first.hash, second.hash);
    let payload = decode_stored(&first.data).unwrap().data;
    let mut expected = Vec::new();
    expected.extend_from_slice(b"40000 a\0");
    expected.extend_from_slice(&id_of(2));
    expected.extend_from_slice(b"100644 a.txt\0");
    expected.extend_from_slice(&id_of(4));
    expected.extend_from_slice(b"100644 b.txt\0");
    expected.extend_from_slice(&id_of(1));
    expected.extend_from_slice(b"100755 run.sh\0");
    expected.extend_from_slice(&id_of(3));
    assert_eq!(payload, expected);
    assert_eq!(decode_stored(&second.data).unwrap().data, expected);
}

#[test]
fn the_metadata_directory_is_left_out() {
    let with = vec![dir(".git", id_of(9)), file("a", 0o100644, id_of(1))];
    let without = vec![file("a", 0o100644, id_of(1))];
    assert_eq!(build_tree(&with).unwrap().hash, build_tree(&without).unwrap().hash);
    let entries = entries_of_children(&with);
    assert_eq!(entries.len(), 1);
    assert_eq!(entries[0].name, "a");
    assert!(is_left_out(".git"));
    assert!(!is_left_out(".gitignore"));
    assert!(!is_left_out("git"));
    assert!(!is_left_out(""));
}

#[test]
fn a_name_that_occurs_twice_makes_no_tree() {
    let twice = vec![file("a", 0o100644, id_of(1)), file("b", 0o100644, id_of(2)), dir("a", id_of(3))];
    assert_eq!(build_tree(&twice).unwrap_err(), RuntimeError::CorruptEntry);
    let same = vec![file("a", 0o100644, id_of(1)), file("a", 0o100644, id_of(1))];
    assert_eq!(build_tree(&same).unwrap_err(), RuntimeError::CorruptEntry);
    // two children named `.git` are both left out
    let hidden = vec![dir(".git", id_of(1)), dir(".git", id_of(2)), file("a", 0o100644, id_of(3))];
    assert!(build_tree(&hidden).is_ok());
}

#[test]
fn a_name_with_a_slash_or_a_zero_byte_makes_no_tree() {
    assert_eq!(
        build_tree(&vec![file("a/b", 0o100644, id_of(1))]).unwrap_err(),
        RuntimeError::CorruptEntry
    );
    assert_eq!(
        build_tree(&vec![file("a", 0o100644, id_of(1)), file("b\0", 0o100644, id_of(1))])
            .unwrap_err(),
        RuntimeError::CorruptEntry
    );
    assert!(build_tree(&vec![file("a b.\u{e9}", 0o100644, id_of(1))]).is_ok());
    assert!(is_plain_name(b"hello.txt"));
    assert!(is_plain_name(b""));
    assert!(!is_plain_name(b"/"));
    assert!(!is_plain_name(b"a\0"));
}

#[test]
fn entries_make_a_tree_where_their_names_ascend() {
    let entry = |name: &str| TreeObject {
        mode: "100644".to_string(),
        kind: Kind::Blob(false),
        name: name.to_string(),
        hash: id_of(0),
    };
    assert!(is_valid_tree(&vec![entry("a"), entry("b"), entry("c")]));
    assert!(is_valid_tree(&Vec::new()));
    assert!(!is_valid_tree(&vec![entry("a"), entry("c"), entry("b")]));
    assert!(!is_valid_tree(&vec![entry("a"), entry("b"), entry("b")]));
    assert!(!is_valid_tree(&vec![entry("a"), entry("b/c")]));
}

#[test]
fn a_tree_without_children_has_an_empty_payload() {
    let tree = build_tree(&Vec::new()).unwrap();
    assert_eq!(hex_of(&tree.hash), "4b825dc642cb6eb9a060e54bf8d69288fbee4904");
    assert!(decode_stored(&tree.data).unwrap().data.is_empty());
}

#[test]
fn the_execute_bits_decide_the_mode_of_a_file() {
    let children = vec![
        file("plain", 0o100644, id_of(1)),
        file("owner", 0o100744, id_of(1)),
        file("group", 0o100654, id_of(1)),
        file("other", 0o100645, id_of(1)),
        dir("sub", id_of(1)),
    ];
    let entries = entries_of_children(&children);
    assert_eq!(entries.len(), 5);
    assert_eq!(entries[0].mode, "100644");
    assert_eq!(entries[0].kind, Kind::Blob(false));
    assert_eq!(entries[1].mode, "100755");
    assert_eq!(entries[1].kind, Kind::Blob(true));
    assert_eq!(entries[2].mode, "100755");
    assert_eq!(entries[3].mode, "100755");
    assert_eq!(entries[4].mode, "40000");
    assert_eq!(entries[4].kind, Kind::Tree);
}

#[test]
fn entries_are_sorted_by_the_bytes_of_their_names() {
    let names = vec!["b", "a.txt", "a", "B", "a-b", "\u{e9}", "ab"];
    let mut entries: Vec<TreeObject> = Vec::new();
    for name in &names {
        entries.push(TreeObject {
            mode: "100644".to_string(),
            kind: Kind::Blob(false),
            name: name.to_string(),
            hash: id_of(0),
        });
    }
    sort_by_name(&mut entries);
    let sorted: Vec<String> = entries.iter().map(|e| e.name.clone()).collect();
    assert_eq!(sorted, vec!["B", "a", "a-b", "a.txt", "ab", "b", "\u{e9}"]);
}

#[test]
fn entries_of_one_name_keep_their_order() {
    let mut entries = vec![
        TreeObject {
            mode: "100644".to_string(),
            kind: Kind::Blob(false),
            name: "x".to_string(),
            hash: id_of(1),
        },
        TreeObject {
            mode: "100644".to_string(),
            kind: Kind::Blob(false),
            name: "a".to_string(),
            hash: id_of(2),
        },
        TreeObject {
            mode: "100644".to_string(),
            kind: Kind::Blob(false),
            name: "x".to_string(),
            hash: id_of(3),
        },
    ];
    sort_by_name(&mut entries);
    assert_eq!(entries[0].hash, id_of(2));
    assert_eq!(entries[1].hash, id_of(1));
    assert_eq!(entries[2].hash, id_of(3));
}

#[test]
fn a_tree_is_written_in_the_given_order() {
    let entries = vec![
        TreeObject {
            mode: "40000".to_string(),
            kind: Kind::Tree,
            name: "z".to_string(),
            hash: id_of(7),
        },
        TreeObject {
            mode: "120000".to_string(),
            kind: Kind::Symlink,
            name: "a".to_string(),
            hash: id_of(8),
        },
    ];
    let mut expected = b"40000 z\0".to_vec();
    expected.extend_from_slice(&id_of(7));
    expected.extend_from_slice(b"120000 a\0");
    expected.extend_from_slice(&id_of(8));
    assert_eq!(serialize_tree(&entries), expected);
    assert_eq!(serialize_tree(&Vec::new()), Vec::<u8>::new());
}

#[test]
fn byte_strings_are_ordered_like_words() {
    assert!(bytes_lt(b"a", b"b"));
    assert!(!bytes_lt(b"b", b"a"));
    assert!(bytes_lt(b"a", b"ab"));
    assert!(!bytes_lt(b"ab", b"a"));
    assert!(!bytes_lt(b"a", b"a"));
    assert!(bytes_lt(b"", b"a"));
    assert!(!bytes_lt(b"", b""));
    assert!(bytes_lt(b"a\x7f", b"a\x80"));
}
