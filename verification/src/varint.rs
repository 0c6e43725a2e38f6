use vstd::prelude::*;
use crate::error::RuntimeError;

verus! {

/// The number written at `pos` in groups of seven bits, the lowest group
/// first, and the place behind it. A byte of 128 or more says that another
/// group follows. `None` where the data end before the last group.
pub open spec fn vli_le(data: Seq<u8>, pos: int) -> Option<(nat, int)>
    decreases data.len() - pos,
{
    if pos < 0 || pos >= data.len() {
        None
    } else if data[pos] < 128 {
        Some((data[pos] as nat, pos + 1))
    } else {
        match vli_le(data, pos + 1) {
            None => None,
            Some((rest, end)) => Some(((data[pos] % 128) as nat + 128 * rest, end)),
        }
    }
}

/// `acc + scale * rest` for the number `rest` that `tail` holds.
pub open spec fn vli_le_with(acc: nat, scale: nat, tail: Option<(nat, int)>) -> Option<(nat, int)> {
    match tail {
        None => None,
        Some((rest, end)) => Some((acc + scale * rest, end)),
    }
}

/// The number written at `pos` in groups of seven bits, the highest group
/// first, as a pack writes the distance to a base object: each group that is
/// followed by another counts one more than its bits say. `acc` is what the
/// groups before `pos` came to.
pub open spec fn vli_be(data: Seq<u8>, pos: int, acc: nat) -> Option<(nat, int)>
    decreases data.len() - pos,
{
    if pos < 0 || pos >= data.len() {
        None
    } else {
        let value = acc * 128 + (data[pos] % 128) as nat;
        if data[pos] < 128 {
            Some((value, pos + 1))
        } else {
            vli_be(data, pos + 1, value + 1)
        }
    }
}

/// A number in groups of seven bits ends behind its start and within the
/// data.
pub proof fn lemma_vli_le_end(data: Seq<u8>, pos: int)
    ensures
        vli_le(data, pos) matches Some((_, end)) ==> pos < end <= data.len(),
    decreases data.len() - pos,
{
    if 0 <= pos < data.len() && data[pos] >= 128 {
        lemma_vli_le_end(data, pos + 1);
    }
}

/// A distance is no smaller than what its first groups came to, and ends
/// behind its start and within the data.
pub proof fn lemma_vli_be_grows(data: Seq<u8>, pos: int, acc: nat)
    ensures
        vli_be(data, pos, acc) matches Some((value, end)) ==> value >= acc && pos < end
            <= data.len(),
    decreases data.len() - pos,
{
    if 0 <= pos < data.len() && data[pos] >= 128 {
        lemma_vli_be_grows(data, pos + 1, acc * 128 + (data[pos] % 128) as nat + 1);
    }
}

/// Reads a number in groups of seven bits, lowest group first. Fails with
/// `CorruptEntry` where the data end before the last group or the number
/// does not fit in 32 bits.
pub fn read_vli_le(data: &[u8], pos: usize) -> (res: Result<(u32, usize), RuntimeError>)
    ensures
        match vli_le(data@, pos as int) {
            Some((value, end)) => if value <= u32::MAX {
                res == Ok::<(u32, usize), RuntimeError>((value as u32, end as usize)) && pos < end
                    <= data@.len() <= usize::MAX
            } else {
                res == Err::<(u32, usize), RuntimeError>(RuntimeError::CorruptEntry)
            },
            None => res == Err::<(u32, usize), RuntimeError>(RuntimeError::CorruptEntry),
        },
{
    let total = data.len();
    if pos > total {
        return Err(RuntimeError::CorruptEntry);
    }
    let mut acc: u64 = 0;
    let mut scale: u64 = 1;
    let ghost mut exact: nat = 1;
    let mut at: usize = pos;
    assert(vli_le(data@, pos as int) == vli_le_with(0, 1, vli_le(data@, pos as int))) by {
        match vli_le(data@, pos as int) {
            Some((rest, end)) => {
                assert(0 + 1 * rest == rest);
            },
            None => {},
        }
    }
    loop
        invariant
            pos <= at <= data@.len(),
            total == data@.len(),
            acc <= u32::MAX,
            1 <= scale <= 0x1_0000_0000_00,
            scale <= exact,
            scale == exact || scale > u32::MAX,
            vli_le(data@, pos as int) == vli_le_with(acc as nat, exact, vli_le(data@, at as int)),
        decreases data@.len() - at,
    {
        if at >= total {
            return Err(RuntimeError::CorruptEntry);
        }
        let b = data[at];
        let low: u64 = (b % 128) as u64;
        let ghost tail = vli_le(data@, at + 1);
        proof {
            lemma_vli_le_end(data@, at + 1);
        }
        if low != 0 && scale > 0xffff_ffff {
            proof {
                // whatever follows, the number is at least `exact * low`
                match vli_le(data@, at as int) {
                    Some((rest, end)) => {
                        assert(rest >= low);
                        assert(exact * rest >= exact) by (nonlinear_arith)
                            requires
                                rest >= 1,
                        ;
                    },
                    None => {},
                }
            }
            return Err(RuntimeError::CorruptEntry);
        }
        let term: u64 = if low == 0 {
            0
        } else {
            assert(low * scale <= 127 * 0xffff_ffff) by (nonlinear_arith)
                requires
                    low <= 127,
                    scale <= 0xffff_ffff,
            ;
            low * scale
        };
        proof {
            assert(term == low * exact) by (nonlinear_arith)
                requires
                    term == (if low == 0 { 0 } else { low * scale }),
                    low != 0 ==> scale == exact,
            ;
        }
        if acc + term > 0xffff_ffff {
            proof {
                match vli_le(data@, at as int) {
                    Some((rest, end)) => {
                        assert(rest >= low);
                        assert(exact * rest >= low * exact) by (nonlinear_arith)
                            requires
                                rest >= low,
                        ;
                    },
                    None => {},
                }
            }
            return Err(RuntimeError::CorruptEntry);
        }
        let ghost before = acc as nat;
        let ghost old_exact = exact;
        acc = acc + term;
        if b < 128 {
            proof {
                assert(exact * (b as nat) == term) by (nonlinear_arith)
                    requires
                        term == low * exact,
                        low == b,
                ;
            }
            return Ok((acc as u32, at + 1));
        }
        proof {
            exact = exact * 128;
            match tail {
                Some((rest, end)) => {
                    assert(before + old_exact * (low as nat + 128 * rest) == before + term + (old_exact
                        * 128) * rest) by (nonlinear_arith)
                        requires
                            term == low * old_exact,
                    ;
                },
                None => {},
            }
        }
        if scale <= 0xffff_ffff {
            scale = scale * 128;
        }
        at = at + 1;
    }
}

/// Reads the distance to a base object: groups of seven bits, highest group
/// first, each group that is followed by another counting one more. Fails
/// with `CorruptEntry` where the data end before the last group or the
/// distance is more than `limit`.
pub fn read_vli_be(data: &[u8], pos: usize, limit: usize) -> (res: Result<
    (usize, usize),
    RuntimeError,
>)
    ensures
        match vli_be(data@, pos as int, 0) {
            Some((value, end)) => if value <= limit {
                res == Ok::<(usize, usize), RuntimeError>((value as usize, end as usize)) && pos
                    < end <= data@.len() <= usize::MAX
            } else {
                res == Err::<(usize, usize), RuntimeError>(RuntimeError::CorruptEntry)
            },
            None => res == Err::<(usize, usize), RuntimeError>(RuntimeError::CorruptEntry),
        },
{
    let total = data.len();
    if pos > total {
        return Err(RuntimeError::CorruptEntry);
    }
    let mut acc: usize = 0;
    let mut at: usize = pos;
    loop
        invariant
            pos <= at <= data@.len(),
            total == data@.len(),
            acc <= limit,
            vli_be(data@, pos as int, 0) == vli_be(data@, at as int, acc as nat),
        decreases data@.len() - at,
    {
        if at >= total {
            return Err(RuntimeError::CorruptEntry);
        }
        let b = data[at];
        let low: usize = (b % 128) as usize;
        proof {
            lemma_vli_be_grows(data@, at + 1, acc as nat * 128 + low as nat + 1);
        }
        if low > limit || acc > (limit - low) / 128 {
            return Err(RuntimeError::CorruptEntry);
        }
        let value: usize = acc * 128 + low;
        if b < 128 {
            return Ok((value, at + 1));
        }
        if value >= limit {
            return Err(RuntimeError::CorruptEntry);
        }
        acc = value + 1;
        at = at + 1;
    }
}

} // verus!
