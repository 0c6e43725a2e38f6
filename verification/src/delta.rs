use vstd::prelude::*;
use crate::bytes::push_range;
use crate::error::RuntimeError;
use crate::varint::{read_vli_le, vli_le};

verus! {

/// The value of bit `i` of a copy instruction: 1, 2, 4, 8, 16, 32.
pub open spec fn gate_bit(i: int) -> int {
    if i == 0 {
        1
    } else if i == 1 {
        2
    } else if i == 2 {
        4
    } else if i == 3 {
        8
    } else if i == 4 {
        16
    } else {
        32
    }
}

/// Whether bit `i` of the copy instruction `cmd` is set, which says that the
/// byte of field `i` is written out in the stream.
pub open spec fn gated(cmd: u8, i: int) -> bool {
    (cmd as int / gate_bit(i)) % 2 == 1
}

/// What the byte of field `i` counts for: fields 0 to 3 are the bytes of the
/// offset and fields 4 and 5 the bytes of the length, lowest byte first.
pub open spec fn field_weight(i: int) -> nat {
    if i == 0 || i == 4 {
        1
    } else if i == 1 || i == 5 {
        0x100
    } else if i == 2 {
        0x1_0000
    } else {
        0x100_0000
    }
}

/// The offset and length that the fields `i..6` of a copy instruction spell,
/// read from `pos` on, and the place behind them. A field whose bit is not
/// set is zero and takes no byte. `None` where the data end before a field
/// that is written out.
pub open spec fn copy_fields(delta: Seq<u8>, cmd: u8, i: int, pos: int) -> Option<(nat, nat, int)>
    decreases 6 - i,
{
    if i >= 6 {
        Some((0, 0, pos))
    } else if !gated(cmd, i) {
        copy_fields(delta, cmd, i + 1, pos)
    } else if pos < 0 || pos >= delta.len() {
        None
    } else {
        match copy_fields(delta, cmd, i + 1, pos + 1) {
            None => None,
            Some((offset, length, end)) => if i < 4 {
                Some((offset + delta[pos] as nat * field_weight(i), length, end))
            } else {
                Some((offset, length + delta[pos] as nat * field_weight(i), end))
            },
        }
    }
}

/// `fields` with `offset` and `length` added to what they spell.
pub open spec fn fields_plus(offset: nat, length: nat, fields: Option<(nat, nat, int)>) -> Option<
    (nat, nat, int),
> {
    match fields {
        None => None,
        Some((o, l, end)) => Some((offset + o, length + l, end)),
    }
}

/// The number of bytes that a copy instruction copies: the length it
/// spells, and 65536 where it spells zero.
pub open spec fn copy_length(length: nat) -> nat {
    if length == 0 {
        0x1_0000
    } else {
        length
    }
}

/// `done`, followed by the bytes of `rest` where there are any.
pub open spec fn bytes_then(done: Seq<u8>, rest: Result<Seq<u8>, RuntimeError>) -> Result<
    Seq<u8>,
    RuntimeError,
> {
    match rest {
        Ok(more) => Ok(done + more),
        Err(e) => Err(e),
    }
}

/// What the instructions from `pos` on build from `base`.
///
/// A zero byte is skipped. A byte `n` below 128 appends the next `n` bytes
/// of the stream. A byte of 128 or more copies from `base`: its low six bits
/// say which bytes of offset and length follow. Fails with `CorruptEntry`
/// where the stream ends inside an instruction or a copy reaches beyond the
/// end of `base`.
pub open spec fn run_delta(base: Seq<u8>, delta: Seq<u8>, pos: int) -> Result<Seq<u8>, RuntimeError>
    decreases delta.len() - pos,
{
    if pos < 0 || pos >= delta.len() {
        Ok(Seq::empty())
    } else {
        let cmd = delta[pos];
        if cmd == 0 {
            run_delta(base, delta, pos + 1)
        } else if cmd < 128 {
            if pos + 1 + cmd > delta.len() {
                Err(RuntimeError::CorruptEntry)
            } else {
                bytes_then(
                    delta.subrange(pos + 1, pos + 1 + cmd),
                    run_delta(base, delta, pos + 1 + cmd),
                )
            }
        } else {
            match copy_fields(delta, cmd, 0, pos + 1) {
                None => Err(RuntimeError::CorruptEntry),
                Some((offset, length, end)) => if offset + copy_length(length) > base.len() || end
                    <= pos || end > delta.len() {
                    Err(RuntimeError::CorruptEntry)
                } else {
                    bytes_then(
                        base.subrange(offset as int, (offset + copy_length(length)) as int),
                        run_delta(base, delta, end),
                    )
                },
            }
        }
    }
}

/// What a delta builds from `base`. The stream opens with two numbers in
/// groups of seven bits: the length of the base and the length of the
/// result; the instructions follow.
///
/// Fails with `CorruptEntry` where a number or an instruction is cut short
/// or too large, and with `SizeMismatch` where the base or the result does
/// not have the announced length.
pub open spec fn apply_delta(base: Seq<u8>, delta: Seq<u8>) -> Result<Seq<u8>, RuntimeError> {
    match vli_le(delta, 0) {
        None => Err(RuntimeError::CorruptEntry),
        Some((base_size, at)) => if base_size > u32::MAX {
            Err(RuntimeError::CorruptEntry)
        } else {
            match vli_le(delta, at) {
                None => Err(RuntimeError::CorruptEntry),
                Some((patched_size, start)) => if patched_size > u32::MAX {
                    Err(RuntimeError::CorruptEntry)
                } else if base_size != base.len() {
                    Err(RuntimeError::SizeMismatch)
                } else {
                    match run_delta(base, delta, start) {
                        Err(e) => Err(e),
                        Ok(out) => if out.len() != patched_size {
                            Err(RuntimeError::SizeMismatch)
                        } else {
                            Ok(out)
                        },
                    }
                },
            }
        },
    }
}

/// The length of the result that a delta announces: the second of the two
/// numbers at its start.
pub open spec fn patched_size(delta: Seq<u8>) -> Option<nat> {
    match vli_le(delta, 0) {
        None => None,
        Some((_, at)) => match vli_le(delta, at) {
            None => None,
            Some((size, _)) => Some(size),
        },
    }
}

/// The length of the base that a delta announces: the first of the two
/// numbers at its start.
pub open spec fn base_size(delta: Seq<u8>) -> Option<nat> {
    match vli_le(delta, 0) {
        None => None,
        Some((size, _)) => Some(size),
    }
}

/// What a delta builds has the length that the delta announces, and is
/// built from a base of the length that the delta announces.
pub proof fn lemma_apply_delta_sizes(base: Seq<u8>, delta: Seq<u8>)
    ensures
        apply_delta(base, delta) matches Ok(out) ==> patched_size(delta) == Some(out.len())
            && base_size(delta) == Some(base.len()),
{
}

/// The fields of a copy instruction end at or behind their start, within
/// the data, and spell an offset below 2^32 and a length below 2^16.
pub proof fn lemma_copy_fields(delta: Seq<u8>, cmd: u8, i: int, pos: int)
    requires
        0 <= i <= 6,
        0 <= pos <= delta.len(),
    ensures
        copy_fields(delta, cmd, i, pos) matches Some((offset, length, end)) ==> {
            &&& pos <= end <= delta.len()
            &&& i >= 4 ==> offset == 0
            &&& offset < 0x1_0000_0000
            &&& length < 0x1_0000
            &&& i >= 5 ==> length < 0x100 * 0x100
            &&& i >= 1 ==> offset % 0x100 == 0
            &&& i >= 2 ==> offset % 0x1_0000 == 0
            &&& i >= 3 ==> offset % 0x100_0000 == 0
            &&& i >= 5 ==> length % 0x100 == 0
        },
    decreases 6 - i,
{
    if i < 6 {
        if !gated(cmd, i) {
            lemma_copy_fields(delta, cmd, i + 1, pos);
        } else if pos < delta.len() {
            lemma_copy_fields(delta, cmd, i + 1, pos + 1);
        }
    }
}

/// Reads the offset and the length of a copy instruction.
pub fn read_copy_fields(delta: &[u8], cmd: u8, pos: usize) -> (res: Option<(u32, u32, usize)>)
    requires
        pos <= delta@.len(),
    ensures
        match copy_fields(delta@, cmd, 0, pos as int) {
            Some((offset, length, end)) => res == Some((offset as u32, length as u32, end as usize))
                && offset <= u32::MAX && length < 0x1_0000 && pos <= end <= delta@.len(),
            None => res is None,
        },
{
    let mut offset: u32 = 0;
    let mut length: u32 = 0;
    let mut at: usize = pos;
    let mut i: u8 = 0;
    proof {
        lemma_copy_fields(delta@, cmd, 0, pos as int);
    }
    while i < 6
        invariant
            i <= 6,
            pos <= at <= delta@.len(),
            copy_fields(delta@, cmd, 0, pos as int) == fields_plus(
                offset as nat,
                length as nat,
                copy_fields(delta@, cmd, i as int, at as int),
            ),
            i <= 0 ==> offset == 0,
            i <= 1 ==> offset < 0x100,
            i <= 2 ==> offset < 0x1_0000,
            i <= 3 ==> offset < 0x100_0000,
            i <= 4 ==> length == 0,
            i <= 5 ==> length < 0x100,
            length < 0x1_0000,
        decreases 6 - i,
    {
        let bit: u8 = if i == 0 {
            1
        } else if i == 1 {
            2
        } else if i == 2 {
            4
        } else if i == 3 {
            8
        } else if i == 4 {
            16
        } else {
            32
        };
        if (cmd / bit) % 2 == 1 {
            if at >= delta.len() {
                return None;
            }
            let b: u32 = delta[at] as u32;
            proof {
                lemma_copy_fields(delta@, cmd, i + 1, at + 1);
            }
            if i == 0 {
                offset = offset + b;
            } else if i == 1 {
                offset = offset + b * 0x100;
            } else if i == 2 {
                offset = offset + b * 0x1_0000;
            } else if i == 3 {
                offset = offset + b * 0x100_0000;
            } else if i == 4 {
                length = length + b;
            } else {
                length = length + b * 0x100;
            }
            at = at + 1;
        }
        i = i + 1;
    }
    Some((offset, length, at))
}

/// Runs the instructions of a delta from `start` on.
pub fn run_instructions(base: &[u8], delta: &[u8], start: usize) -> (res: Result<
    Vec<u8>,
    RuntimeError,
>)
    requires
        start <= delta@.len(),
    ensures
        match run_delta(base@, delta@, start as int) {
            Ok(bytes) => res matches Ok(out) && out@ == bytes,
            Err(e) => res matches Err(f) && f == e,
        },
{
    let mut out: Vec<u8> = Vec::new();
    let mut pos: usize = start;
    assert(run_delta(base@, delta@, start as int) == bytes_then(
        out@,
        run_delta(base@, delta@, pos as int),
    )) by {
        match run_delta(base@, delta@, start as int) {
            Ok(more) => {
                assert(out@ + more =~= more);
            },
            Err(_) => {},
        }
    }
    while pos < delta.len()
        invariant
            start <= pos <= delta@.len(),
            run_delta(base@, delta@, start as int) == bytes_then(
                out@,
                run_delta(base@, delta@, pos as int),
            ),
        decreases delta@.len() - pos,
    {
        let cmd = delta[pos];
        let ghost done = out@;
        if cmd == 0 {
            pos = pos + 1;
        } else if cmd < 128 {
            let count: usize = cmd as usize;
            if delta.len() - pos - 1 < count {
                return Err(RuntimeError::CorruptEntry);
            }
            push_range(&mut out, delta, pos + 1, pos + 1 + count);
            proof {
                match run_delta(base@, delta@, pos + 1 + count) {
                    Ok(more) => {
                        assert(done + (delta@.subrange(pos + 1, pos + 1 + count) + more) =~= out@
                            + more);
                    },
                    Err(_) => {},
                }
            }
            pos = pos + 1 + count;
        } else {
            match read_copy_fields(delta, cmd, pos + 1) {
                None => {
                    return Err(RuntimeError::CorruptEntry);
                },
                Some((offset, length, end)) => {
                    let count: usize = if length == 0 { 0x1_0000 } else { length as usize };
                    if base.len() < count || offset as usize > base.len() - count {
                        return Err(RuntimeError::CorruptEntry);
                    }
                    push_range(&mut out, base, offset as usize, offset as usize + count);
                    proof {
                        match run_delta(base@, delta@, end as int) {
                            Ok(more) => {
                                assert(done + (base@.subrange(offset as int, offset + count)
                                    + more) =~= out@ + more);
                            },
                            Err(_) => {},
                        }
                    }
                    pos = end;
                },
            }
        }
    }
    proof {
        assert(out@ + Seq::<u8>::empty() =~= out@);
    }
    Ok(out)
}

/// Rebuilds an object from its base and a delta.
pub fn patch(base: &[u8], delta: &[u8]) -> (res: Result<Vec<u8>, RuntimeError>)
    ensures
        match apply_delta(base@, delta@) {
            Ok(bytes) => res matches Ok(out) && out@ == bytes && out@.len() <= u32::MAX,
            Err(e) => res matches Err(f) && f == e,
        },
{
    let (base_size, at) = match read_vli_le(delta, 0) {
        Ok(found) => found,
        Err(e) => {
            return Err(e);
        },
    };
    let (patched_size, start) = match read_vli_le(delta, at) {
        Ok(found) => found,
        Err(e) => {
            return Err(e);
        },
    };
    if base.len() > 0xffff_ffff || base_size != base.len() as u32 {
        return Err(RuntimeError::SizeMismatch);
    }
    let out = match run_instructions(base, delta, start) {
        Ok(out) => out,
        Err(e) => {
            return Err(e);
        },
    };
    if out.len() > 0xffff_ffff || out.len() as u32 != patched_size {
        return Err(RuntimeError::SizeMismatch);
    }
    Ok(out)
}

} // verus!
