use vstd::prelude::*;
use vstd::slice::slice_subrange;
use vstd::string::StringExecFns;
use vstd::utf8::{decode_utf8_encode_utf8, encode_utf8, valid_utf8};
use crate::bytes::{
    copy_range, find_byte, hex_digit, hex_number, hex_padded, index_of, push_hex_padded, push_range,
    repeat,
};
use crate::digest::hex_value;
use crate::error::RuntimeError;
use crate::text::{push_str, utf8_to_string};

verus! {

/// A frame: its length as four hexadecimal digits, which counts the digits
/// themselves, and the payload.
pub open spec fn pkt_line(payload: Seq<u8>) -> Seq<u8> {
    hex_padded(payload.len() + 4, 4) + payload
}

/// Frames `data`: four hexadecimal digits that spell the length of the whole
/// frame, then the bytes of `data`.
pub fn packet_line(data: &str) -> (res: Vec<u8>)
    ensures
        res@ == pkt_line(encode_utf8(data@)),
{
    let payload = data.as_bytes();
    let mut line: Vec<u8> = Vec::new();
    push_hex_padded(&mut line, payload.len() as u128 + 4, 4);
    line.extend_from_slice(payload);
    line
}

/// What stands at one place of a framed stream.
pub enum Frame {
    /// The length 0: the end of a message.
    Flush,
    /// The length 1: the border between two parts of a message.
    Delim,
    /// A frame with its payload.
    Data(Seq<u8>),
}

/// The number that four hexadecimal digits spell, in either case.
pub open spec fn hex4(digits: Seq<u8>) -> Option<int>
    recommends
        digits.len() == 4,
{
    if hex_value(digits[0]) is Some && hex_value(digits[1]) is Some && hex_value(digits[2]) is Some
        && hex_value(digits[3]) is Some {
        Some(
            hex_value(digits[0]).unwrap() * 0x1000 + hex_value(digits[1]).unwrap() * 0x100
                + hex_value(digits[2]).unwrap() * 0x10 + hex_value(digits[3]).unwrap(),
        )
    } else {
        None
    }
}

/// The frame at `pos`, and the place behind it.
///
/// Fails with `CorruptEntry` where fewer than four bytes are left, the
/// length is 2 or 3, or the frame reaches beyond the end of the data; with
/// `UnexpectedChar` where the length is not spelled in hexadecimal digits.
pub open spec fn pkt_frame(data: Seq<u8>, pos: int) -> Result<(Frame, int), RuntimeError> {
    if pos < 0 || pos + 4 > data.len() {
        Err(RuntimeError::CorruptEntry)
    } else {
        match hex4(data.subrange(pos, pos + 4)) {
            None => Err(RuntimeError::UnexpectedChar),
            Some(length) => if length == 0 {
                Ok((Frame::Flush, pos + 4))
            } else if length == 1 {
                Ok((Frame::Delim, pos + 4))
            } else if length < 4 || pos + length > data.len() {
                Err(RuntimeError::CorruptEntry)
            } else {
                Ok((Frame::Data(data.subrange(pos + 4, pos + length)), pos + length))
            },
        }
    }
}

/// A frame as it was found: for a frame with a payload, the places where
/// the payload starts and ends.
#[derive(Debug, Clone, Copy, PartialEq, Eq, Structural)]
pub enum Packet {
    Flush,
    Delim,
    Data(usize, usize),
}

impl Packet {
    /// The frame that was found in `data`.
    pub open spec fn frame(self, data: Seq<u8>) -> Frame {
        match self {
            Packet::Flush => Frame::Flush,
            Packet::Delim => Frame::Delim,
            Packet::Data(start, end) => Frame::Data(data.subrange(start as int, end as int)),
        }
    }
}

/// The value of a hexadecimal digit.
pub fn hex_digit_value(b: u8) -> (res: Option<u8>)
    ensures
        match hex_value(b) {
            Some(v) => res == Some(v as u8) && v < 16,
            None => res is None,
        },
{
    if 48 <= b && b <= 57 {
        Some(b - 48)
    } else if 97 <= b && b <= 102 {
        Some(b - 87)
    } else if 65 <= b && b <= 70 {
        Some(b - 55)
    } else {
        None
    }
}

/// Reads the frame at `pos`.
pub fn read_frame(data: &[u8], pos: usize) -> (res: Result<(Packet, usize), RuntimeError>)
    ensures
        match pkt_frame(data@, pos as int) {
            Ok((frame, next)) => res matches Ok((packet, at)) && packet.frame(data@) == frame && at
                == next && pos < at <= data@.len() && (packet matches Packet::Data(start, end)
                ==> start == pos + 4 && end == at),
            Err(e) => res matches Err(f) && f == e,
        },
{
    if pos > data.len() || data.len() - pos < 4 {
        return Err(RuntimeError::CorruptEntry);
    }
    assert(data@.subrange(pos as int, pos + 4)[0] == data@[pos as int]);
    assert(data@.subrange(pos as int, pos + 4)[1] == data@[pos + 1]);
    assert(data@.subrange(pos as int, pos + 4)[2] == data@[pos + 2]);
    assert(data@.subrange(pos as int, pos + 4)[3] == data@[pos + 3]);
    let d0 = hex_digit_value(data[pos]);
    let d1 = hex_digit_value(data[pos + 1]);
    let d2 = hex_digit_value(data[pos + 2]);
    let d3 = hex_digit_value(data[pos + 3]);
    let length: usize = match (d0, d1, d2, d3) {
        (Some(a), Some(b), Some(c), Some(d)) => a as usize * 0x1000 + b as usize * 0x100 + c as usize
            * 0x10 + d as usize,
        _ => {
            return Err(RuntimeError::UnexpectedChar);
        },
    };
    if length == 0 {
        Ok((Packet::Flush, pos + 4))
    } else if length == 1 {
        Ok((Packet::Delim, pos + 4))
    } else if length < 4 || data.len() - pos < length {
        Err(RuntimeError::CorruptEntry)
    } else {
        Ok((Packet::Data(pos + 4, pos + length), pos + length))
    }
}

/// The name and the id that a line of a reference list holds: the id is the
/// first 40 bytes; the name starts behind the byte that follows them and
/// ends before the first zero byte, or before the last byte of the line
/// where there is none.
///
/// Fails with `CorruptEntry` on a line of fewer than 42 bytes, and with
/// `UnexpectedChar` where name or id is not UTF-8.
pub open spec fn ref_of_line(line: Seq<u8>) -> Result<(Seq<u8>, Seq<u8>), RuntimeError> {
    if line.len() < 42 {
        Err(RuntimeError::CorruptEntry)
    } else {
        let region = line.subrange(41, line.len() - 1);
        let name = region.subrange(0, index_of(region, 0, 0));
        let id = line.subrange(0, 40);
        if !valid_utf8(id) || !valid_utf8(name) {
            Err(RuntimeError::UnexpectedChar)
        } else {
            Ok((name, id))
        }
    }
}

/// `done`, followed by the references of `rest` where there are any.
pub open spec fn refs_then(
    done: Seq<(Seq<u8>, Seq<u8>)>,
    rest: Result<Seq<(Seq<u8>, Seq<u8>)>, RuntimeError>,
) -> Result<Seq<(Seq<u8>, Seq<u8>)>, RuntimeError> {
    match rest {
        Ok(more) => Ok(done + more),
        Err(e) => Err(e),
    }
}

/// Whether the payload of a frame is a line of the reference list: it is
/// not empty and does not start with `#`.
pub open spec fn is_ref_line(payload: Seq<u8>) -> bool {
    payload.len() > 0 && payload[0] != 0x23
}

/// The references that the frames from `pos` on list, each as name and id.
/// Frames without a payload, empty frames and frames that start with `#`
/// are passed over. The first frame or line that cannot be read decides
/// the error.
pub open spec fn refs_from(data: Seq<u8>, pos: int) -> Result<
    Seq<(Seq<u8>, Seq<u8>)>,
    RuntimeError,
>
    decreases data.len() - pos,
{
    if pos < 0 || pos >= data.len() {
        Ok(Seq::empty())
    } else {
        match pkt_frame(data, pos) {
            Err(e) => Err(e),
            Ok((frame, next)) => if next <= pos || next > data.len() {
                Err(RuntimeError::CorruptEntry)
            } else {
                match frame {
                    Frame::Data(payload) => if is_ref_line(payload) {
                        match ref_of_line(payload) {
                            Err(e) => Err(e),
                            Ok(pair) => refs_then(seq![pair], refs_from(data, next)),
                        }
                    } else {
                        refs_from(data, next)
                    },
                    _ => refs_from(data, next),
                }
            },
        }
    }
}

/// The references of a list as plain values: the bytes of each name and id.
pub open spec fn ref_views(refs: Seq<(String, String)>) -> Seq<(Seq<u8>, Seq<u8>)> {
    refs.map_values(|r: (String, String)| (encode_utf8(r.0@), encode_utf8(r.1@)))
}

/// Reads name and id from a line of the reference list.
pub fn parse_ref_line(line: &[u8]) -> (res: Result<(String, String), RuntimeError>)
    ensures
        match ref_of_line(line@) {
            Ok(pair) => res matches Ok(found) && (encode_utf8(found.0@), encode_utf8(found.1@))
                == pair,
            Err(e) => res matches Err(f) && f == e,
        },
{
    if line.len() < 42 {
        return Err(RuntimeError::CorruptEntry);
    }
    let region = slice_subrange(line, 41, line.len() - 1);
    let cut = find_byte(region, 0, 0);
    let id = match utf8_to_string(copy_range(line, 0, 40)) {
        Some(id) => id,
        None => {
            return Err(RuntimeError::UnexpectedChar);
        },
    };
    let name = match utf8_to_string(copy_range(region, 0, cut)) {
        Some(name) => name,
        None => {
            return Err(RuntimeError::UnexpectedChar);
        },
    };
    proof {
        decode_utf8_encode_utf8(line@.subrange(0, 40));
        decode_utf8_encode_utf8(region@.subrange(0, cut as int));
    }
    Ok((name, id))
}

/// Reads a list of references as a server sends it: frame by frame, one
/// reference for each line, as a pair of name and id.
pub fn parse_refs(input: &[u8]) -> (res: Result<Vec<(String, String)>, RuntimeError>)
    ensures
        match refs_from(input@, 0) {
            Ok(pairs) => res matches Ok(refs) && ref_views(refs@) == pairs,
            Err(e) => res matches Err(f) && f == e,
        },
{
    let mut refs: Vec<(String, String)> = Vec::new();
    let mut index: usize = 0;
    let ghost whole = refs_from(input@, 0);
    proof {
        match whole {
            Ok(more) => {
                assert(ref_views(refs@) + more =~= more);
            },
            Err(_) => {},
        }
    }
    while index < input.len()
        invariant
            index <= input@.len(),
            whole == refs_from(input@, 0),
            whole == refs_then(ref_views(refs@), refs_from(input@, index as int)),
        decreases input@.len() - index,
    {
        let (packet, next) = match read_frame(input, index) {
            Ok(found) => found,
            Err(e) => {
                return Err(e);
            },
        };
        match packet {
            Packet::Data(start, end) => {
                if end > start && input[start] != 0x23 {
                    assert(input@.subrange(start as int, end as int)[0] == input@[start as int]);
                    let pair = match parse_ref_line(slice_subrange(input, start, end)) {
                        Ok(pair) => pair,
                        Err(e) => {
                            return Err(e);
                        },
                    };
                    proof {
                        let done = ref_views(refs@);
                        let view = (encode_utf8(pair.0@), encode_utf8(pair.1@));
                        assert(ref_views(refs@.push(pair)) =~= done.push(view));
                        match refs_from(input@, next as int) {
                            Ok(more) => {
                                assert(done + (seq![view] + more) =~= done.push(view) + more);
                            },
                            Err(_) => {},
                        }
                    }
                    refs.push(pair);
                } else {
                    assert(!is_ref_line(input@.subrange(start as int, end as int))) by {
                        if end > start {
                            assert(input@.subrange(start as int, end as int)[0] == input@[start as int]);
                        }
                    }
                }
            },
            _ => {},
        }
        index = next;
    }
    proof {
        assert(ref_views(refs@) + Seq::<(Seq<u8>, Seq<u8>)>::empty() =~= ref_views(refs@));
    }
    Ok(refs)
}

/// What a multiplexed answer carries on its three channels: the data of
/// the pack, the progress messages, and the error messages.
#[derive(Debug)]
pub struct SideBand {
    pub pack_data: Vec<u8>,
    pub progress: Vec<u8>,
    pub error: Vec<u8>,
}

/// What the frames from `pos` on carry on `channel`, up to the first frame
/// of length 0: the payloads whose first byte is `channel`, without that
/// byte, one behind the other. The first frame that cannot be read decides
/// the error.
pub open spec fn channel_from(data: Seq<u8>, pos: int, channel: u8) -> Result<Seq<u8>, RuntimeError>
    decreases data.len() - pos,
{
    if pos < 0 || pos >= data.len() {
        Ok(Seq::empty())
    } else {
        match pkt_frame(data, pos) {
            Err(e) => Err(e),
            Ok((frame, next)) => if next <= pos || next > data.len() {
                Err(RuntimeError::CorruptEntry)
            } else {
                match frame {
                    Frame::Flush => Ok(Seq::empty()),
                    Frame::Delim => channel_from(data, next, channel),
                    Frame::Data(payload) => if payload.len() > 0 && payload[0] == channel {
                        match channel_from(data, next, channel) {
                            Ok(more) => Ok(payload.subrange(1, payload.len() as int) + more),
                            Err(e) => Err(e),
                        }
                    } else {
                        channel_from(data, next, channel)
                    },
                }
            },
        }
    }
}

/// `done`, followed by the bytes of `rest` where there are any.
pub open spec fn channel_then(done: Seq<u8>, rest: Result<Seq<u8>, RuntimeError>) -> Result<
    Seq<u8>,
    RuntimeError,
> {
    match rest {
        Ok(more) => Ok(done + more),
        Err(e) => Err(e),
    }
}

/// One more frame read on a channel.
pub proof fn lemma_channel_step(
    data: Seq<u8>,
    whole: Result<Seq<u8>, RuntimeError>,
    done: Seq<u8>,
    pos: int,
    channel: u8,
)
    requires
        0 <= pos < data.len(),
        whole == channel_then(done, channel_from(data, pos, channel)),
        pkt_frame(data, pos) is Ok,
        pos < pkt_frame(data, pos)->Ok_0.1 <= data.len(),
    ensures
        match pkt_frame(data, pos)->Ok_0.0 {
            Frame::Flush => whole == Ok::<Seq<u8>, RuntimeError>(done),
            Frame::Delim => whole == channel_then(
                done,
                channel_from(data, pkt_frame(data, pos)->Ok_0.1, channel),
            ),
            Frame::Data(payload) => if payload.len() > 0 && payload[0] == channel {
                whole == channel_then(
                    done + payload.subrange(1, payload.len() as int),
                    channel_from(data, pkt_frame(data, pos)->Ok_0.1, channel),
                )
            } else {
                whole == channel_then(
                    done,
                    channel_from(data, pkt_frame(data, pos)->Ok_0.1, channel),
                )
            },
        },
{
    let next = pkt_frame(data, pos)->Ok_0.1;
    match pkt_frame(data, pos)->Ok_0.0 {
        Frame::Flush => {
            assert(done + Seq::<u8>::empty() =~= done);
        },
        Frame::Delim => {},
        Frame::Data(payload) => {
            if payload.len() > 0 && payload[0] == channel {
                match channel_from(data, next, channel) {
                    Ok(more) => {
                        let body = payload.subrange(1, payload.len() as int);
                        assert(done + (body + more) =~= (done + body) + more);
                    },
                    Err(_) => {},
                }
            }
        },
    }
}

/// Takes a multiplexed answer apart: reads frame by frame up to the first
/// frame of length 0 and gathers what each of the channels 1 (pack data),
/// 2 (progress) and 3 (errors) carries. Fails as reading a frame fails.
pub fn decode_git_response(content: &[u8]) -> (res: Result<SideBand, RuntimeError>)
    ensures
        match channel_from(content@, 0, 1) {
            Ok(pack) => res matches Ok(bands) && bands.pack_data@ == pack && channel_from(
                content@,
                0,
                2,
            ) == Ok::<Seq<u8>, RuntimeError>(bands.progress@) && channel_from(content@, 0, 3)
                == Ok::<Seq<u8>, RuntimeError>(bands.error@),
            Err(e) => res matches Err(f) && f == e,
        },
{
    let mut pack_data: Vec<u8> = Vec::new();
    let mut progress: Vec<u8> = Vec::new();
    let mut error: Vec<u8> = Vec::new();
    let mut cursor: usize = 0;
    let ghost whole1 = channel_from(content@, 0, 1);
    let ghost whole2 = channel_from(content@, 0, 2);
    let ghost whole3 = channel_from(content@, 0, 3);
    proof {
        lemma_channels_fail_alike(content@, 0);
        match whole1 {
            Ok(more) => {
                assert(pack_data@ + more =~= more);
            },
            Err(_) => {},
        }
        match whole2 {
            Ok(more) => {
                assert(progress@ + more =~= more);
            },
            Err(_) => {},
        }
        match whole3 {
            Ok(more) => {
                assert(error@ + more =~= more);
            },
            Err(_) => {},
        }
    }
    let mut open: bool = true;
    while open && cursor < content.len()
        invariant
            cursor <= content@.len(),
            whole1 == channel_from(content@, 0, 1),
            whole2 == channel_from(content@, 0, 2),
            whole3 == channel_from(content@, 0, 3),
            open ==> whole1 == channel_then(pack_data@, channel_from(content@, cursor as int, 1)),
            open ==> whole2 == channel_then(progress@, channel_from(content@, cursor as int, 2)),
            open ==> whole3 == channel_then(error@, channel_from(content@, cursor as int, 3)),
            !open ==> whole1 == Ok::<Seq<u8>, RuntimeError>(pack_data@),
            !open ==> whole2 == Ok::<Seq<u8>, RuntimeError>(progress@),
            !open ==> whole3 == Ok::<Seq<u8>, RuntimeError>(error@),
        decreases content@.len() - cursor, open as int,
    {
        let (packet, next) = match read_frame(content, cursor) {
            Ok(found) => found,
            Err(e) => {
                return Err(e);
            },
        };
        proof {
            lemma_channel_step(content@, whole1, pack_data@, cursor as int, 1);
            lemma_channel_step(content@, whole2, progress@, cursor as int, 2);
            lemma_channel_step(content@, whole3, error@, cursor as int, 3);
        }
        match packet {
            Packet::Flush => {
                open = false;
            },
            Packet::Delim => {},
            Packet::Data(start, end) => {
                if end > start {
                    assert(content@.subrange(start as int, end as int)[0] == content@[start as int]);
                    assert(content@.subrange(start as int, end as int).subrange(1, end - start)
                        =~= content@.subrange(start + 1, end as int));
                    let side_band = content[start];
                    if side_band == 1 {
                        push_range(&mut pack_data, content, start + 1, end);
                    } else if side_band == 2 {
                        push_range(&mut progress, content, start + 1, end);
                    } else if side_band == 3 {
                        push_range(&mut error, content, start + 1, end);
                    }
                }
            },
        }
        cursor = next;
    }
    proof {
        assert(pack_data@ + Seq::<u8>::empty() =~= pack_data@);
        assert(progress@ + Seq::<u8>::empty() =~= progress@);
        assert(error@ + Seq::<u8>::empty() =~= error@);
    }
    Ok(SideBand { pack_data, progress, error })
}

/// Reading the frames fails for one channel exactly where it fails for
/// another, and with the same error.
pub proof fn lemma_channels_fail_alike(data: Seq<u8>, pos: int)
    ensures
        channel_from(data, pos, 1) matches Err(e) ==> channel_from(data, pos, 2) == Err::<
            Seq<u8>,
            RuntimeError,
        >(e) && channel_from(data, pos, 3) == Err::<Seq<u8>, RuntimeError>(e),
        channel_from(data, pos, 1) is Ok ==> channel_from(data, pos, 2) is Ok && channel_from(
            data,
            pos,
            3,
        ) is Ok,
    decreases data.len() - pos,
{
    if 0 <= pos < data.len() {
        match pkt_frame(data, pos) {
            Err(_) => {},
            Ok((frame, next)) => {
                if pos < next <= data.len() {
                    lemma_channels_fail_alike(data, next);
                }
            },
        }
    }
}

/// The number that a run of hexadecimal digits spells.
pub open spec fn hex_text_value(digits: Seq<u8>) -> int
    decreases digits.len(),
{
    if digits.len() == 0 {
        0
    } else {
        hex_text_value(digits.drop_last()) * 16 + hex_value(digits.last()).unwrap()
    }
}

/// Whether every byte of `digits` is a hexadecimal digit.
pub open spec fn hex_text(digits: Seq<u8>) -> bool {
    forall|i: int| 0 <= i < digits.len() ==> hex_value(#[trigger] digits[i]) is Some
}

/// The hexadecimal digits of a number are digits, spell that number, and
/// are no more than four for a number below 65536.
pub proof fn lemma_hex_number(n: nat)
    ensures
        hex_text(hex_number(n)),
        hex_text_value(hex_number(n)) == n,
        hex_number(n).len() >= 1,
        n < 0x10 ==> hex_number(n).len() <= 1,
        n < 0x100 ==> hex_number(n).len() <= 2,
        n < 0x1000 ==> hex_number(n).len() <= 3,
        n < 0x1_0000 ==> hex_number(n).len() <= 4,
    decreases n,
{
    let digits = hex_number(n);
    if n < 16 {
        assert(digits.drop_last() =~= Seq::<u8>::empty());
        assert(hex_text_value(digits.drop_last()) == 0);
        assert(digits.last() == hex_digit(n as int));
    } else {
        lemma_hex_number(n / 16);
        assert(digits.drop_last() =~= hex_number(n / 16));
        assert(digits.last() == hex_digit((n % 16) as int));
        assert forall|i: int| 0 <= i < digits.len() implies hex_value(#[trigger] digits[i]) is Some by {
            if i < digits.len() - 1 {
                assert(digits[i] == hex_number(n / 16)[i]);
            }
        }
    }
}

/// Zeros in front of digits do not change what the digits spell.
pub proof fn lemma_hex_zeros(count: int, digits: Seq<u8>)
    requires
        hex_text(digits),
    ensures
        hex_text(repeat(48, count) + digits),
        hex_text_value(repeat(48, count) + digits) == hex_text_value(digits),
    decreases digits.len(), count,
{
    let all = repeat(48, count) + digits;
    assert forall|i: int| 0 <= i < all.len() implies hex_value(#[trigger] all[i]) is Some by {
        if i >= repeat(48, count).len() {
            assert(all[i] == digits[i - repeat(48, count).len()]);
        }
    }
    if digits.len() > 0 {
        assert forall|i: int| 0 <= i < digits.drop_last().len() implies hex_value(
            #[trigger] digits.drop_last()[i],
        ) is Some by {
            assert(digits.drop_last()[i] == digits[i]);
        }
        lemma_hex_zeros(count, digits.drop_last());
        assert(all.drop_last() =~= repeat(48, count) + digits.drop_last());
        assert(all.last() == digits.last());
    } else if count > 0 {
        lemma_hex_zeros(count - 1, digits);
        assert(all.drop_last() =~= repeat(48, count - 1) + digits);
        assert(all.last() == 48);
    } else {
        assert(all =~= Seq::<u8>::empty());
    }
}

/// Four hexadecimal digits are read as the number that they spell.
pub proof fn lemma_hex4(digits: Seq<u8>)
    requires
        digits.len() == 4,
        hex_text(digits),
    ensures
        hex4(digits) == Some(hex_text_value(digits)),
{
    let three = digits.drop_last();
    let two = three.drop_last();
    let one = two.drop_last();
    assert(one.drop_last() =~= Seq::<u8>::empty());
    assert(hex_text_value(one.drop_last()) == 0);
    assert(one.last() == digits[0]);
    assert(two.last() == digits[1]);
    assert(three.last() == digits[2]);
    assert(digits.last() == digits[3]);
    assert(hex_text_value(one) == hex_value(digits[0]).unwrap());
    assert(hex_text_value(two) == hex_text_value(one) * 16 + hex_value(digits[1]).unwrap());
    assert(hex_text_value(three) == hex_text_value(two) * 16 + hex_value(digits[2]).unwrap());
}

/// A frame that was written is read back with its payload, whatever stands
/// behind it, as long as its length can be told in four digits.
pub proof fn lemma_packet_round_trip(payload: Seq<u8>, back: Seq<u8>)
    requires
        payload.len() + 4 < 0x1_0000,
    ensures
        pkt_frame(pkt_line(payload) + back, 0) == Ok::<(Frame, int), RuntimeError>(
            (Frame::Data(payload), payload.len() as int + 4),
        ),
{
    let length = (payload.len() + 4) as nat;
    let digits = hex_number(length);
    let head = hex_padded(length, 4);
    let data = pkt_line(payload) + back;
    lemma_hex_number(length);
    lemma_hex_zeros(4 - digits.len(), digits);
    assert(head.len() == 4);
    lemma_hex4(head);
    assert(data.subrange(0, 4) =~= head);
    assert(data.subrange(4, length as int) =~= payload);
}

/// The lines of a request for the objects of `wants`: the command and its
/// attributes, a border, the features asked for, one line `want` for each
/// id, the end of the message, and `done`.
pub open spec fn fetch_request(wants: Seq<Seq<u8>>) -> Seq<u8> {
    pkt_line(encode_utf8("command=fetch"@)) + pkt_line(encode_utf8("agent=git/2.30.0"@)) + pkt_line(
        encode_utf8("object-format=sha1"@),
    ) + encode_utf8("0001"@) + pkt_line(encode_utf8("ofs-delta"@)) + pkt_line(
        encode_utf8("no-progress"@),
    ) + want_lines(wants) + encode_utf8("0000"@) + pkt_line(encode_utf8("done"@))
}

/// One frame `want`, the id and a line feed for each id of `wants`.
pub open spec fn want_lines(wants: Seq<Seq<u8>>) -> Seq<u8>
    decreases wants.len(),
{
    if wants.len() == 0 {
        Seq::empty()
    } else {
        want_lines(wants.drop_last()) + pkt_line(
            encode_utf8("want "@) + wants.last() + seq![0x0au8],
        )
    }
}

/// The ids of a list of references, as bytes.
pub open spec fn ref_ids(refs: Seq<(String, String)>) -> Seq<Seq<u8>> {
    refs.map_values(|r: (String, String)| encode_utf8(r.1@))
}

/// Appends the frames `want` for the ids of `refs`.
pub fn push_wants(out: &mut Vec<u8>, refs: &Vec<(String, String)>)
    ensures
        final(out)@ == old(out)@ + want_lines(ref_ids(refs@)),
{
    let ghost ids = ref_ids(refs@);
    let ghost start = out@;
    let ghost mut done: Seq<u8> = Seq::empty();
    let mut i: usize = 0;
    assert(out@ =~= start + done);
    while i < refs.len()
        invariant
            i <= refs@.len(),
            ids == ref_ids(refs@),
            out@ == start + done,
            done == want_lines(ids.take(i as int)),
        decreases refs@.len() - i,
    {
        let id = refs[i].1.as_str().as_bytes();
        let mut payload: Vec<u8> = Vec::new();
        push_str(&mut payload, "want ");
        payload.extend_from_slice(id);
        payload.push(0x0a);
        push_hex_padded(out, payload.len() as u128 + 4, 4);
        out.extend_from_slice(payload.as_slice());
        proof {
            assert(ids.take(i + 1).drop_last() =~= ids.take(i as int));
            assert(ids.take(i + 1).last() == encode_utf8(refs@[i as int].1@));
            let line = pkt_line(encode_utf8("want "@) + ids[i as int] + seq![0x0au8]);
            assert(payload@ =~= encode_utf8("want "@) + ids[i as int] + seq![0x0au8]);
            assert(out@ =~= start + (done + line));
            done = done + line;
        }
        i = i + 1;
    }
    assert(ids.take(refs@.len() as int) =~= ids);
}

/// Composes the request that asks a server for the objects of `refs`.
pub fn compose_fetch_request(refs: &Vec<(String, String)>) -> (res: Vec<u8>)
    ensures
        res@ == fetch_request(ref_ids(refs@)),
{
    let mut payload: Vec<u8> = Vec::new();
    payload.extend_from_slice(packet_line("command=fetch").as_slice());
    payload.extend_from_slice(packet_line("agent=git/2.30.0").as_slice());
    payload.extend_from_slice(packet_line("object-format=sha1").as_slice());
    push_str(&mut payload, "0001");
    payload.extend_from_slice(packet_line("ofs-delta").as_slice());
    payload.extend_from_slice(packet_line("no-progress").as_slice());
    push_wants(&mut payload, refs);
    push_str(&mut payload, "0000");
    payload.extend_from_slice(packet_line("done").as_slice());
    assert(payload@ =~= fetch_request(ref_ids(refs@)));
    payload
}

/// The address at which a server lists its references.
pub fn info_refs_url(repo_url: &str) -> (res: String)
    ensures
        res@ == repo_url@ + "/info/refs?service=git-upload-pack"@,
{
    let mut url = String::from_str(repo_url);
    url.append("/info/refs?service=git-upload-pack");
    url
}

/// The address to which a request for objects is sent.
pub fn upload_pack_url(repo_url: &str) -> (res: String)
    ensures
        res@ == repo_url@ + "/git-upload-pack"@,
{
    let mut url = String::from_str(repo_url);
    url.append("/git-upload-pack");
    url
}

} // verus!
