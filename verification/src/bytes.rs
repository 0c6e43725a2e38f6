use vstd::prelude::*;
use vstd::slice::slice_subrange;

verus! {

/// The number that four bytes spell, most significant byte first.
pub open spec fn be_u32(b: Seq<u8>) -> int
    recommends
        b.len() == 4,
{
    b[0] as int * 0x100_0000 + b[1] as int * 0x1_0000 + b[2] as int * 0x100 + b[3] as int
}

/// The number that two bytes spell, most significant byte first.
pub open spec fn be_u16(b: Seq<u8>) -> int
    recommends
        b.len() == 2,
{
    b[0] as int * 0x100 + b[1] as int
}

/// The four bytes of a 32-bit number, most significant byte first.
pub open spec fn u32_be(x: int) -> Seq<u8>
    recommends
        0 <= x < 0x1_0000_0000,
{
    seq![
        (x / 0x100_0000) as u8,
        (x / 0x1_0000 % 0x100) as u8,
        (x / 0x100 % 0x100) as u8,
        (x % 0x100) as u8,
    ]
}

/// The two bytes of a 16-bit number, most significant byte first.
pub open spec fn u16_be(x: int) -> Seq<u8>
    recommends
        0 <= x < 0x1_0000,
{
    seq![(x / 0x100) as u8, (x % 0x100) as u8]
}

/// Reading back the four bytes of a number gives the number.
pub proof fn lemma_be_u32_round_trip(x: int)
    requires
        0 <= x < 0x1_0000_0000,
    ensures
        u32_be(x).len() == 4,
        be_u32(u32_be(x)) == x,
{
}

/// Reading back the two bytes of a number gives the number.
pub proof fn lemma_be_u16_round_trip(x: int)
    requires
        0 <= x < 0x1_0000,
    ensures
        u16_be(x).len() == 2,
        be_u16(u16_be(x)) == x,
{
}

/// Reads a big-endian 32-bit number at `pos`.
pub fn read_be_u32(data: &[u8], pos: usize) -> (res: u32)
    requires
        pos + 4 <= data@.len(),
    ensures
        res == be_u32(data@.subrange(pos as int, pos + 4)),
{
    let b0: u32 = data[pos] as u32;
    let b1: u32 = data[pos + 1] as u32;
    let b2: u32 = data[pos + 2] as u32;
    let b3: u32 = data[pos + 3] as u32;
    b0 * 0x100_0000 + b1 * 0x1_0000 + b2 * 0x100 + b3
}

/// Reads a big-endian 16-bit number at `pos`.
pub fn read_be_u16(data: &[u8], pos: usize) -> (res: u16)
    requires
        pos + 2 <= data@.len(),
    ensures
        res == be_u16(data@.subrange(pos as int, pos + 2)),
{
    let b0: u16 = data[pos] as u16;
    let b1: u16 = data[pos + 1] as u16;
    b0 * 0x100 + b1
}

/// Appends the four bytes of `x`, most significant byte first.
pub fn push_be_u32(out: &mut Vec<u8>, x: u32)
    ensures
        final(out)@ == old(out)@ + u32_be(x as int),
{
    out.push((x / 0x100_0000) as u8);
    out.push((x / 0x1_0000 % 0x100) as u8);
    out.push((x / 0x100 % 0x100) as u8);
    out.push((x % 0x100) as u8);
    assert(out@ =~= old(out)@ + u32_be(x as int));
}

/// Appends the two bytes of `x`, most significant byte first.
pub fn push_be_u16(out: &mut Vec<u8>, x: u16)
    ensures
        final(out)@ == old(out)@ + u16_be(x as int),
{
    out.push((x / 0x100) as u8);
    out.push((x % 0x100) as u8);
    assert(out@ =~= old(out)@ + u16_be(x as int));
}

/// Appends a copy of `data[from..to]`.
pub fn push_range(out: &mut Vec<u8>, data: &[u8], from: usize, to: usize)
    requires
        from <= to <= data@.len(),
    ensures
        final(out)@ == old(out)@ + data@.subrange(from as int, to as int),
{
    out.extend_from_slice(slice_subrange(data, from, to));
}

/// A copy of `data[from..to]`.
pub fn copy_range(data: &[u8], from: usize, to: usize) -> (res: Vec<u8>)
    requires
        from <= to <= data@.len(),
    ensures
        res@ == data@.subrange(from as int, to as int),
{
    let mut out: Vec<u8> = Vec::new();
    out.extend_from_slice(slice_subrange(data, from, to));
    out
}

/// Where `byte` first occurs in `s` at or after `from`; the length of `s`
/// where it does not occur there.
pub open spec fn index_of(s: Seq<u8>, byte: u8, from: int) -> int
    decreases s.len() - from,
{
    if from >= s.len() {
        s.len() as int
    } else if s[from] == byte {
        from
    } else {
        index_of(s, byte, from + 1)
    }
}

/// What `index_of` finds lies between `from` and the end, holds `byte` if it
/// is not the end, and no earlier place from `from` on holds `byte`.
pub proof fn lemma_index_of(s: Seq<u8>, byte: u8, from: int)
    requires
        0 <= from <= s.len(),
    ensures
        from <= index_of(s, byte, from) <= s.len(),
        index_of(s, byte, from) < s.len() ==> s[index_of(s, byte, from)] == byte,
        forall|j: int| from <= j < index_of(s, byte, from) ==> s[j] != byte,
    decreases s.len() - from,
{
    if from < s.len() && s[from] != byte {
        lemma_index_of(s, byte, from + 1);
    }
}

/// A place that holds `byte`, with none before it from `from` on, is what
/// `index_of` finds.
pub proof fn lemma_index_of_is(s: Seq<u8>, byte: u8, from: int, at: int)
    requires
        0 <= from <= at <= s.len(),
        at < s.len() ==> s[at] == byte,
        forall|j: int| from <= j < at ==> s[j] != byte,
    ensures
        index_of(s, byte, from) == at,
    decreases at - from,
{
    if from < at {
        lemma_index_of_is(s, byte, from + 1, at);
    }
}

/// Finds the first `byte` in `data` at or after `from`.
pub fn find_byte(data: &[u8], byte: u8, from: usize) -> (res: usize)
    requires
        from <= data@.len(),
    ensures
        res == index_of(data@, byte, from as int),
        from <= res <= data@.len(),
{
    let mut i: usize = from;
    while i < data.len() && data[i] != byte
        invariant
            from <= i <= data@.len(),
            forall|j: int| from <= j < i ==> data@[j] != byte,
        decreases data@.len() - i,
    {
        i += 1;
    }
    proof {
        lemma_index_of_is(data@, byte, from as int, i as int);
    }
    i
}

/// The decimal digits of `n`, as ASCII bytes, without leading zeros.
pub open spec fn decimal(n: nat) -> Seq<u8>
    decreases n,
{
    if n < 10 {
        seq![(48 + n) as u8]
    } else {
        decimal(n / 10).push((48 + n % 10) as u8)
    }
}

/// Whether `b` is an ASCII decimal digit.
pub open spec fn is_digit(b: u8) -> bool {
    48 <= b <= 57
}

/// Whether every byte of `s` is an ASCII decimal digit.
pub open spec fn all_digits(s: Seq<u8>) -> bool {
    forall|i: int| 0 <= i < s.len() ==> is_digit(#[trigger] s[i])
}

/// The number that a run of decimal digits spells.
pub open spec fn decimal_value(s: Seq<u8>) -> nat
    decreases s.len(),
{
    if s.len() == 0 {
        0
    } else {
        decimal_value(s.drop_last()) * 10 + (s.last() - 48) as nat
    }
}

/// The number that `s` spells in decimal, if `s` is a non-empty run of
/// decimal digits.
pub open spec fn parse_decimal(s: Seq<u8>) -> Option<nat> {
    if s.len() > 0 && all_digits(s) {
        Some(decimal_value(s))
    } else {
        None
    }
}

/// The decimal digits of a number are digits, and spell that number.
pub proof fn lemma_decimal_round_trip(n: nat)
    ensures
        decimal(n).len() > 0,
        all_digits(decimal(n)),
        decimal_value(decimal(n)) == n,
        parse_decimal(decimal(n)) == Some(n),
    decreases n,
{
    if n >= 10 {
        lemma_decimal_round_trip(n / 10);
        let s = decimal(n);
        assert(s.drop_last() =~= decimal(n / 10));
        assert(s.last() == (48 + n % 10) as u8);
    } else {
        let s = decimal(n);
        assert(s.drop_last() =~= Seq::<u8>::empty());
        assert(decimal_value(s.drop_last()) == 0);
        assert(s.last() == (48 + n) as u8);
    }
}

/// A prefix of a run of digits spells no more than the whole run.
pub proof fn lemma_decimal_value_prefix(s: Seq<u8>, i: int)
    requires
        0 <= i <= s.len(),
        all_digits(s),
    ensures
        decimal_value(s.take(i)) <= decimal_value(s),
    decreases s.len() - i,
{
    if i < s.len() {
        lemma_decimal_value_prefix(s, i + 1);
        assert(s.take(i + 1).drop_last() =~= s.take(i));
    } else {
        assert(s.take(i) =~= s);
    }
}

/// Appends the decimal digits of `n`.
pub fn push_decimal(out: &mut Vec<u8>, n: usize)
    ensures
        final(out)@ == old(out)@ + decimal(n as nat),
    decreases n,
{
    if n >= 10 {
        push_decimal(out, n / 10);
    }
    out.push(48 + (n % 10) as u8);
    assert(out@ =~= old(out)@ + decimal(n as nat));
}

/// Reads a decimal number. Gives `None` where `data` is empty, holds a byte
/// that is no digit, or spells a number too large for the machine.
pub fn read_decimal(data: &[u8]) -> (res: Option<usize>)
    ensures
        res == match parse_decimal(data@) {
            Some(n) => if n <= usize::MAX { Some(n as usize) } else { None },
            None => None,
        },
{
    if data.len() == 0 {
        return None;
    }
    let mut acc: usize = 0;
    let mut i: usize = 0;
    while i < data.len()
        invariant
            i <= data@.len(),
            all_digits(data@.take(i as int)),
            acc == decimal_value(data@.take(i as int)),
        decreases data@.len() - i,
    {
        let b = data[i];
        if b < 48 || b > 57 {
            return None;
        }
        proof {
            assert(data@.take(i + 1).drop_last() =~= data@.take(i as int));
            assert forall|j: int| 0 <= j < i + 1 implies is_digit(#[trigger] data@.take(i + 1)[j]) by {
                if j < i {
                    assert(data@.take(i as int)[j] == data@[j]);
                }
            }
        }
        let d: usize = (b - 48) as usize;
        let next = match acc.checked_mul(10) {
            Some(m) => m.checked_add(d),
            None => None,
        };
        match next {
            Some(v) => {
                acc = v;
            },
            None => {
                proof {
                    if all_digits(data@) {
                        lemma_decimal_value_prefix(data@, i + 1);
                    }
                }
                return None;
            },
        }
        i += 1;
    }
    assert(data@.take(i as int) =~= data@);
    Some(acc)
}

/// The ASCII byte of a hexadecimal digit, in lower case.
pub open spec fn hex_digit(d: int) -> u8
    recommends
        0 <= d < 16,
{
    if d < 10 {
        (48 + d) as u8
    } else {
        (87 + d) as u8
    }
}

/// The hexadecimal digits of `n`, in lower case, without leading zeros.
pub open spec fn hex_number(n: nat) -> Seq<u8>
    decreases n,
{
    if n < 16 {
        seq![hex_digit(n as int)]
    } else {
        hex_number(n / 16).push(hex_digit((n % 16) as int))
    }
}

/// `count` bytes that all hold `byte`.
pub open spec fn repeat(byte: u8, count: int) -> Seq<u8> {
    Seq::new(if count > 0 { count as nat } else { 0 }, |i: int| byte)
}

/// The hexadecimal digits of `n`, with zeros in front up to `width` digits.
pub open spec fn hex_padded(n: nat, width: nat) -> Seq<u8> {
    repeat(48, width - hex_number(n).len()) + hex_number(n)
}

/// The byte of one hexadecimal digit.
pub fn hex_digit_of(d: u8) -> (res: u8)
    requires
        d < 16,
    ensures
        res == hex_digit(d as int),
{
    if d < 10 {
        48 + d
    } else {
        87 + d
    }
}

/// Appends the hexadecimal digits of `n`.
pub fn push_hex(out: &mut Vec<u8>, n: u128)
    ensures
        final(out)@ == old(out)@ + hex_number(n as nat),
    decreases n,
{
    if n >= 16 {
        push_hex(out, n / 16);
    }
    out.push(hex_digit_of((n % 16) as u8));
    assert(out@ =~= old(out)@ + hex_number(n as nat));
}

/// Appends `count` copies of `byte`.
pub fn push_repeat(out: &mut Vec<u8>, byte: u8, count: usize)
    ensures
        final(out)@ == old(out)@ + repeat(byte, count as int),
{
    let mut i: usize = 0;
    while i < count
        invariant
            i <= count,
            out@ == old(out)@ + repeat(byte, i as int),
        decreases count - i,
    {
        out.push(byte);
        i += 1;
        assert(out@ =~= old(out)@ + repeat(byte, i as int));
    }
}

/// Appends the hexadecimal digits of `n`, with zeros in front up to `width`.
pub fn push_hex_padded(out: &mut Vec<u8>, n: u128, width: usize)
    ensures
        final(out)@ == old(out)@ + hex_padded(n as nat, width as nat),
{
    let mut digits: Vec<u8> = Vec::new();
    push_hex(&mut digits, n);
    let pad: usize = if width > digits.len() { width - digits.len() } else { 0 };
    push_repeat(out, 48, pad);
    out.extend_from_slice(digits.as_slice());
    assert(out@ =~= old(out)@ + hex_padded(n as nat, width as nat));
}

} // verus!
