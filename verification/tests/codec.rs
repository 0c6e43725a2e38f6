use minigit::bytes::{
    copy_range, find_byte, push_be_u16, push_be_u32, push_decimal, push_hex, push_hex_padded,
    push_range, push_repeat, read_be_u16, read_be_u32, read_decimal,
};
use minigit::digest::hex_encode;
use minigit::error::RuntimeError;
use minigit::kind::Kind;
use minigit::text::{bytes_eq, chars_at, is_whitespace, push_str, str_eq, to_chars, trim_bytes};

#[test]
fn a_mode_text_stands_for_a_kind() {
    assert_eq!(Kind::from_mode("100644").unwrap(), Kind::Blob(false));
    assert_eq!(Kind::from_mode("100755").unwrap(), Kind::Blob(true));
    assert_eq!(Kind::from_mode("160000").unwrap(), Kind::Commit);
    assert_eq!(Kind::from_mode("120000").unwrap(), Kind::Symlink);
    assert_eq!(Kind::from_mode("040000").unwrap(), Kind::Tree);
    assert_eq!(Kind::from_mode("40000").unwrap(), Kind::Tree);
}

#[test]
fn an_unknown_mode_text_is_refused() {
    assert_eq!(Kind::from_mode("").unwrap_err(), RuntimeError::InvalidMode);
    assert_eq!(Kind::from_mode("100666").unwrap_err(), RuntimeError::InvalidMode);
    assert_eq!(Kind::from_mode("0040000").unwrap_err(), RuntimeError::InvalidMode);
    assert_eq!(Kind::from_mode("10064").unwrap_err(), RuntimeError::InvalidMode);
    assert_eq!(Kind::from_mode("1006444").unwrap_err(), RuntimeError::InvalidMode);
    assert_eq!(Kind::from_mode(" 100644").unwrap_err(), RuntimeError::InvalidMode);
    assert_eq!(Kind::from_mode("blob").unwrap_err(), RuntimeError::InvalidMode);
}

#[test]
fn a_kind_has_its_mode_and_its_text() {
    assert_eq!(Kind::Blob(false).to_mode(), "100644");
    assert_eq!(Kind::Blob(true).to_mode(), "100755");
    assert_eq!(Kind::Commit.to_mode(), "160000");
    assert_eq!(Kind::Tree.to_mode(), "40000");
    assert_eq!(Kind::Symlink.to_mode(), "120000");
    assert_eq!(Kind::Blob(false).string(), "blob");
    assert_eq!(Kind::Blob(true).string(), "blob");
    assert_eq!(Kind::Commit.string(), "commit");
    assert_eq!(Kind::Tree.string(), "tree");
    assert_eq!(Kind::Symlink.string(), "symlink");
}

#[test]
fn the_mode_of_a_kind_is_read_back_as_that_kind() {
    let kinds = vec![Kind::Blob(false), Kind::Blob(true), Kind::Commit, Kind::Tree, Kind::Symlink];
    for kind in kinds {
        assert_eq!(Kind::from_mode(kind.to_mode()).unwrap(), kind);
    }
}

#[test]
fn every_error_has_its_text() {
    assert_eq!(RuntimeError::UnexpectedChar.message(), "Invalid character found");
    assert_eq!(RuntimeError::NotFound.message(), "Not found");
    assert_eq!(RuntimeError::CorruptHeader.message(), "Corrupt header");
    assert_eq!(RuntimeError::CorruptEntry.message(), "Corrupt entry");
    assert_eq!(RuntimeError::SizeMismatch.message(), "Size mismatch");
    assert_eq!(RuntimeError::UnknownKind.message(), "Unknown object kind");
    assert_eq!(RuntimeError::InvalidMode.message(), "Invalid mode");
    assert_eq!(RuntimeError::PathOutsideRepo.message(), "Path is outside the repository");
    assert_eq!(RuntimeError::InvalidMagic.message(), "Invalid signature");
    assert_eq!(RuntimeError::UnsupportedVersion.message(), "Unsupported version");
    assert_eq!(RuntimeError::UnsupportedFeature.message(), "Unsupported feature");
    assert_eq!(RuntimeError::IoError.message(), "Input/output failure");
}

#[test]
fn numbers_are_written_in_decimal() {
    let mut out = b">".to_vec();
    push_decimal(&mut out, 0);
    out.push(b' ');
    push_decimal(&mut out, 9);
    out.push(b' ');
    push_decimal(&mut out, 10);
    out.push(b' ');
    push_decimal(&mut out, 1234567890);
    out.push(b' ');
    push_decimal(&mut out, usize::MAX);
    assert_eq!(out, format!(">0 9 10 1234567890 {}", usize::MAX).into_bytes());
}

#[test]
fn numbers_are_read_in_decimal() {
    assert_eq!(read_decimal(b"0"), Some(0));
    assert_eq!(read_decimal(b"007"), Some(7));
    assert_eq!(read_decimal(b"1234567890"), Some(1234567890));
    assert_eq!(read_decimal(format!("{}", usize::MAX).as_bytes()), Some(usize::MAX));
    assert_eq!(read_decimal(format!("{}0", usize::MAX).as_bytes()), None);
    assert_eq!(read_decimal(b"340282366920938463463374607431768211456"), None);
    assert_eq!(read_decimal(b""), None);
    assert_eq!(read_decimal(b"12a"), None);
    assert_eq!(read_decimal(b"+1"), None);
    assert_eq!(read_decimal(b" 1"), None);
    assert_eq!(read_decimal(b"99999999999999999999999999999x"), None);
}

#[test]
fn numbers_are_written_in_hexadecimal() {
    let mut out = Vec::new();
    push_hex(&mut out, 0);
    out.push(b' ');
    push_hex(&mut out, 0xabcdef);
    out.push(b' ');
    push_hex(&mut out, 0x1f40);
    out.push(b' ');
    push_hex_padded(&mut out, 8, 4);
    out.push(b' ');
    push_hex_padded(&mut out, 0x12345, 4);
    out.push(b' ');
    push_hex_padded(&mut out, 0, 0);
    assert_eq!(out, b"0 abcdef 1f40 0008 12345 0".to_vec());
}

#[test]
fn bytes_are_written_in_hexadecimal() {
    assert_eq!(hex_encode(&[]), Vec::<u8>::new());
    assert_eq!(hex_encode(&[0x00, 0x0f, 0xa0, 0xff, 0x19]), b"000fa0ff19".to_vec());
}

#[test]
fn numbers_of_fixed_width_are_read_and_written_highest_byte_first() {
    let mut out = Vec::new();
    push_be_u32(&mut out, 0x0102_0304);
    push_be_u32(&mut out, 0xffff_fffe);
    push_be_u16(&mut out, 0xabcd);
    push_be_u32(&mut out, 0);
    assert_eq!(out, vec![1, 2, 3, 4, 0xff, 0xff, 0xff, 0xfe, 0xab, 0xcd, 0, 0, 0, 0]);
    assert_eq!(read_be_u32(&out, 0), 0x0102_0304);
    assert_eq!(read_be_u32(&out, 4), 0xffff_fffe);
    assert_eq!(read_be_u32(&out, 1), 0x0203_04ff);
    assert_eq!(read_be_u16(&out, 8), 0xabcd);
    assert_eq!(read_be_u16(&out, 12), 0);
}

#[test]
fn parts_of_bytes_are_found_and_copied() {
    assert_eq!(find_byte(b"abcabc", b'c', 0), 2);
    assert_eq!(find_byte(b"abcabc", b'c', 3), 5);
    assert_eq!(find_byte(b"abcabc", b'x', 0), 6);
    assert_eq!(find_byte(b"abcabc", b'a', 6), 6);
    assert_eq!(copy_range(b"abcdef", 2, 4), b"cd".to_vec());
    assert_eq!(copy_range(b"abcdef", 3, 3), Vec::<u8>::new());
    let mut out = b"x".to_vec();
    push_range(&mut out, b"abcdef", 1, 3);
    push_repeat(&mut out, b'-', 3);
    push_repeat(&mut out, b'+', 0);
    push_str(&mut out, "\u{e9}!");
    assert_eq!(out, vec![b'x', b'b', b'c', b'-', b'-', b'-', 0xc3, 0xa9, b'!']);
}

#[test]
fn texts_and_bytes_are_compared() {
    assert!(bytes_eq(b"", b""));
    assert!(bytes_eq(b"abc", b"abc"));
    assert!(!bytes_eq(b"abc", b"abd"));
    assert!(!bytes_eq(b"abc", b"ab"));
    assert!(str_eq("h\u{e9}", "h\u{e9}"));
    assert!(!str_eq("h\u{e9}", "he"));
    assert_eq!(to_chars("h\u{e9}\u{4e2d}"), vec!['h', '\u{e9}', '\u{4e2d}']);
    let text = to_chars("pack-1.pack");
    assert!(chars_at(&text, 0, &to_chars("pack-")));
    assert!(chars_at(&text, 6, &to_chars(".pack")));
    assert!(!chars_at(&text, 7, &to_chars(".pack")));
    assert!(!chars_at(&text, 1, &to_chars("pack-")));
    assert!(chars_at(&text, 11, &to_chars("")));
    assert!(!chars_at(&text, 12, &to_chars("")));
}

#[test]
fn white_space_is_known() {
    for code in 0..0x3100u32 {
        if let Some(c) = char::from_u32(code) {
            assert_eq!(is_whitespace(c), c.is_whitespace());
        }
    }
    assert_eq!(trim_bytes(b"  a b \n"), (2, 5));
    assert_eq!(trim_bytes(b"ab"), (0, 2));
    assert_eq!(trim_bytes(b" \t\r\n\x0b\x0c"), (6, 6));
    assert_eq!(trim_bytes(b""), (0, 0));
    assert_eq!(trim_bytes(b"\xa0a\xa0"), (0, 3));
}
