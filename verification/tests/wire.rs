use minigit::error::RuntimeError;
use minigit::http::{
    compose_fetch_request, decode_git_response, info_refs_url, packet_line, parse_ref_line,
    parse_refs, read_frame, upload_pack_url, Packet,
};

fn pkt(payload: &[u8]) -> Vec<u8> {
    let mut out = format!("{:04x}", payload.len() + 4).into_bytes();
    out.extend_from_slice(payload);
    out
}

const ID1: &str = "ce013625030ba8dba906f756967f9e9ca394464a";
const ID2: &str = "e69de29bb2d1d6434b8b29ae775ad8c2e48c5391";

#[test]
fn a_frame_starts_with_its_length_in_four_digits() {
    assert_eq!(packet_line("done"), b"0008done".to_vec());
    assert_eq!(packet_line(""), b"0004".to_vec());
    assert_eq!(packet_line("command=fetch"), b"0011command=fetch".to_vec());
    assert_eq!(packet_line("want x\n"), b"000bwant x\n".to_vec());
    assert_eq!(packet_line("\u{e9}"), vec![b'0', b'0', b'0', b'6', 0xc3, 0xa9]);
    let long = "x".repeat(0xabc - 4);
    assert_eq!(&packet_line(&long)[..4], b"0abc");
    let longer = "x".repeat(0x10000);
    assert_eq!(&packet_line(&longer)[..5], b"10004");
}

#[test]
fn frames_are_told_apart() {
    assert_eq!(read_frame(b"0000", 0).unwrap(), (Packet::Flush, 4));
    assert_eq!(read_frame(b"0001", 0).unwrap(), (Packet::Delim, 4));
    assert_eq!(read_frame(b"0004", 0).unwrap(), (Packet::Data(4, 4), 4));
    assert_eq!(read_frame(b"xx0008done0000", 2).unwrap(), (Packet::Data(6, 10), 10));
    assert_eq!(read_frame(b"000Ahello\n", 0).unwrap(), (Packet::Data(4, 10), 10));
    assert_eq!(read_frame(b"0002", 0).unwrap_err(), RuntimeError::CorruptEntry);
    assert_eq!(read_frame(b"0003", 0).unwrap_err(), RuntimeError::CorruptEntry);
    assert_eq!(read_frame(b"0008don", 0).unwrap_err(), RuntimeError::CorruptEntry);
    assert_eq!(read_frame(b"000", 0).unwrap_err(), RuntimeError::CorruptEntry);
    assert_eq!(read_frame(b"", 0).unwrap_err(), RuntimeError::CorruptEntry);
    assert_eq!(read_frame(b"00g8done", 0).unwrap_err(), RuntimeError::UnexpectedChar);
    assert_eq!(read_frame(b"+008done", 0).unwrap_err(), RuntimeError::UnexpectedChar);
}

#[test]
fn a_list_of_references_is_read() {
    let mut input = pkt(b"# service=git-upload-pack\n");
    assert_eq!(&input[..4], b"001e");
    input.extend_from_slice(b"0000");
    input.extend_from_slice(&pkt(format!("{} HEAD\0multi_ack thin-pack\n", ID1).as_bytes()));
    input.extend_from_slice(&pkt(format!("{} refs/heads/main\n", ID1).as_bytes()));
    input.extend_from_slice(b"0001");
    input.extend_from_slice(&pkt(b""));
    input.extend_from_slice(&pkt(format!("{} refs/tags/v1\n", ID2).as_bytes()));
    input.extend_from_slice(b"0000");
    let refs = parse_refs(&input).unwrap();
    assert_eq!(
        refs,
        vec![
            ("HEAD".to_string(), ID1.to_string()),
            ("refs/heads/main".to_string(), ID1.to_string()),
            ("refs/tags/v1".to_string(), ID2.to_string()),
        ]
    );
    assert_eq!(parse_refs(b"").unwrap(), Vec::<(String, String)>::new());
    assert_eq!(parse_refs(b"00000000").unwrap(), Vec::<(String, String)>::new());
}

#[test]
fn a_line_of_the_list_gives_name_and_id() {
    let line = format!("{} refs/heads/main\n", ID1);
    assert_eq!(
        parse_ref_line(line.as_bytes()).unwrap(),
        ("refs/heads/main".to_string(), ID1.to_string())
    );
    let line = format!("{} a", ID1);
    assert_eq!(parse_ref_line(line.as_bytes()).unwrap(), ("".to_string(), ID1.to_string()));
    let line = format!("{} ", ID1);
    assert_eq!(parse_ref_line(line.as_bytes()).unwrap_err(), RuntimeError::CorruptEntry);
    let mut line = format!("{} refs/heads/", ID1).into_bytes();
    line.extend_from_slice(&[0xff, b'\n']);
    assert_eq!(parse_ref_line(&line).unwrap_err(), RuntimeError::UnexpectedChar);
}

#[test]
fn a_list_that_cannot_be_read_is_refused() {
    assert_eq!(parse_refs(b"00").unwrap_err(), RuntimeError::CorruptEntry);
    assert_eq!(parse_refs(b"zzzz").unwrap_err(), RuntimeError::UnexpectedChar);
    assert_eq!(parse_refs(b"0009abc").unwrap_err(), RuntimeError::CorruptEntry);
    assert_eq!(parse_refs(&pkt(b"too short a line\n")).unwrap_err(), RuntimeError::CorruptEntry);
    let mut input = pkt(format!("{} refs/heads/main\n", ID1).as_bytes());
    input.extend_from_slice(b"0003");
    assert_eq!(parse_refs(&input).unwrap_err(), RuntimeError::CorruptEntry);
}

#[test]
fn the_channels_of_an_answer_are_taken_apart() {
    let mut content = pkt(b"packfile\n");
    content.extend_from_slice(&pkt(b"\x01PACK\0\0"));
    content.extend_from_slice(&pkt(b"\x02counting\n"));
    content.extend_from_slice(b"0001");
    content.extend_from_slice(&pkt(b"\x01\x02more"));
    content.extend_from_slice(&pkt(b"\x03oops"));
    content.extend_from_slice(&pkt(b"\x02done\n"));
    content.extend_from_slice(&pkt(b""));
    content.extend_from_slice(&pkt(b"\x01"));
    content.extend_from_slice(b"0000");
    content.extend_from_slice(&pkt(b"\x01behind the end"));
    content.extend_from_slice(b"this is not even a frame");
    let bands = decode_git_response(&content).unwrap();
    assert_eq!(bands.pack_data, b"PACK\0\0\x02more".to_vec());
    assert_eq!(bands.progress, b"counting\ndone\n".to_vec());
    assert_eq!(bands.error, b"oops".to_vec());
}

#[test]
fn an_answer_without_pack_data_is_empty() {
    let bands = decode_git_response(b"").unwrap();
    assert!(bands.pack_data.is_empty());
    assert!(bands.progress.is_empty());
    assert!(bands.error.is_empty());
    let bands = decode_git_response(b"0000").unwrap();
    assert!(bands.pack_data.is_empty());
    let bands = decode_git_response(&pkt(b"\x04other")).unwrap();
    assert!(bands.pack_data.is_empty());
}

#[test]
fn an_answer_that_cannot_be_read_is_refused() {
    let mut content = pkt(b"\x01PACK");
    content.extend_from_slice(b"00");
    assert_eq!(decode_git_response(&content).unwrap_err(), RuntimeError::CorruptEntry);
    assert_eq!(decode_git_response(b"0009\x01PAC").unwrap_err(), RuntimeError::CorruptEntry);
    assert_eq!(decode_git_response(b"0003").unwrap_err(), RuntimeError::CorruptEntry);
    assert_eq!(decode_git_response(b"PACK").unwrap_err(), RuntimeError::UnexpectedChar);
}

#[test]
fn a_request_asks_for_each_reference() {
    let refs = vec![
        ("HEAD".to_string(), ID1.to_string()),
        ("refs/heads/main".to_string(), ID2.to_string()),
    ];
    let expected = format!(
        "0011command=fetch0014agent=git/2.30.00016object-format=sha10001000dofs-delta000fno-progress0032want {}\n0032want {}\n00000008done",
        ID1, ID2
    );
    assert_eq!(compose_fetch_request(&refs), expected.into_bytes());
    assert_eq!(
        compose_fetch_request(&Vec::new()),
        b"0011command=fetch0014agent=git/2.30.00016object-format=sha10001000dofs-delta000fno-progress00000008done"
            .to_vec()
    );
}

#[test]
fn the_addresses_of_a_server_are_made_from_its_url() {
    assert_eq!(
        info_refs_url("https://example.org/repo.git"),
        "https://example.org/repo.git/info/refs?service=git-upload-pack"
    );
    assert_eq!(
        upload_pack_url("https://example.org/repo.git"),
        "https://example.org/repo.git/git-upload-pack"
    );
}
