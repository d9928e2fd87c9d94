//! Variable-length integer encodings used for every size, count, index and
//! constant of the binary module.

use vstd::prelude::*;

verus! {

/// The unsigned variable-length encoding of `n`: seven bits per byte, least
/// significant group first, the high bit set on every byte but the last.
pub open spec fn unsigned_leb128(n: nat) -> Seq<u8>
    decreases n,
{
    if n < 128 {
        seq![n as u8]
    } else {
        seq![((n % 128) + 128) as u8] + unsigned_leb128(n / 128)
    }
}

/// Whether the seven-bit group `low` ends the signed encoding of a value whose
/// remaining high part is `rest`: what is left is pure sign extension of the
/// group's own sign bit.
pub open spec fn signed_group_is_last(low: int, rest: int) -> bool {
    (rest == 0 && low < 64) || (rest == -1 && low >= 64)
}

/// The signed variable-length encoding of `v` (two's complement, seven bits
/// per byte, least significant group first).
pub open spec fn signed_leb128(v: int) -> Seq<u8>
    decreases (if v < 0 { -v } else { v }),
{
    let low = v % 128;
    let rest = v / 128;
    if signed_group_is_last(low, rest) {
        seq![low as u8]
    } else {
        seq![(low + 128) as u8] + signed_leb128(rest)
    }
}

/// Appends the unsigned variable-length encoding of `value` to `out`.
pub fn write_unsigned(out: &mut Vec<u8>, value: u32)
    ensures
        final(out)@ == old(out)@ + unsigned_leb128(value as nat),
{
    let mut rest: u32 = value;
    while rest >= 128
        invariant
            out@ + unsigned_leb128(rest as nat) == old(out)@ + unsigned_leb128(value as nat),
        decreases rest,
    {
        let low: u32 = rest % 128;
        let byte: u8 = (low + 128) as u8;
        out.push(byte);
        rest = rest / 128;
    }
    out.push(rest as u8);
}

/// Appends the signed variable-length encoding of `value` to `out`.
pub fn write_signed(out: &mut Vec<u8>, value: i32)
    ensures
        final(out)@ == old(out)@ + signed_leb128(value as int),
{
    let mut rest: i64 = value as i64;
    loop
        invariant_except_break
            i32::MIN <= rest <= i32::MAX,
            out@ + signed_leb128(rest as int) == old(out)@ + signed_leb128(value as int),
        ensures
            final(out)@ == old(out)@ + signed_leb128(value as int),
        decreases (if rest < 0 { -rest } else { rest as int }),
    {
        let low: i64;
        let next: i64;
        if rest >= 0 {
            low = rest % 128;
            next = rest / 128;
        } else {
            let below: i64 = -(rest + 1);
            low = 127 - below % 128;
            next = -(below / 128) - 1;
        }
        let last: bool = (next == 0 && low < 64) || (next == -1 && low >= 64);
        if last {
            out.push(low as u8);
            break;
        }
        let byte: u8 = (low + 128) as u8;
        out.push(byte);
        rest = next;
    }
}


/// The unsigned encoding of a 32-bit number has one to five bytes.
pub proof fn lemma_unsigned_length(n: nat)
    requires
        n <= u32::MAX,
    ensures
        1 <= unsigned_leb128(n).len() <= 5,
{
    reveal_with_fuel(unsigned_leb128, 5);
}

/// The signed encoding of a 32-bit number has one to five bytes.
pub proof fn lemma_signed_length(v: int)
    requires
        i32::MIN <= v <= i32::MAX,
    ensures
        1 <= signed_leb128(v).len() <= 5,
{
    reveal_with_fuel(signed_leb128, 5);
}


/// The number that a reader of the unsigned encoding finds at the start of
/// `bytes`, and the number of bytes that it takes: groups of seven bits up to
/// the first byte without the high bit. `None` where no such byte comes.
pub open spec fn read_unsigned(bytes: Seq<u8>) -> Option<(nat, nat)>
    decreases bytes.len(),
{
    if bytes.len() == 0 {
        None
    } else if bytes[0] < 128 {
        Some((bytes[0] as nat, 1nat))
    } else {
        match read_unsigned(bytes.drop_first()) {
            Some((high, taken)) => Some(((high * 128 + (bytes[0] - 128)) as nat, taken + 1)),
            None => None,
        }
    }
}

/// The number that a reader of the signed encoding finds at the start of
/// `bytes`, and the number of bytes that it takes. The second highest bit of
/// the last byte is the sign.
pub open spec fn read_signed(bytes: Seq<u8>) -> Option<(int, nat)>
    decreases bytes.len(),
{
    if bytes.len() == 0 {
        None
    } else if bytes[0] < 64 {
        Some((bytes[0] as int, 1nat))
    } else if bytes[0] < 128 {
        Some((bytes[0] - 128, 1nat))
    } else {
        match read_signed(bytes.drop_first()) {
            Some((high, taken)) => Some((high * 128 + (bytes[0] - 128), taken + 1)),
            None => None,
        }
    }
}

/// Reading an unsigned encoding gives back the number and takes exactly the
/// encoding, whatever follows it.
pub proof fn lemma_unsigned_round_trip(n: nat, rest: Seq<u8>)
    ensures
        read_unsigned(unsigned_leb128(n) + rest) == Some((n, unsigned_leb128(n).len())),
    decreases n,
{
    if n >= 128 {
        let bytes = unsigned_leb128(n) + rest;
        lemma_unsigned_round_trip(n / 128, rest);
        assert(bytes.drop_first() =~= unsigned_leb128(n / 128) + rest);
    }
}

/// Reading a signed encoding gives back the number and takes exactly the
/// encoding, whatever follows it.
pub proof fn lemma_signed_round_trip(v: int, rest: Seq<u8>)
    ensures
        read_signed(signed_leb128(v) + rest) == Some((v, signed_leb128(v).len())),
    decreases (if v < 0 { -v } else { v }),
{
    let bytes = signed_leb128(v) + rest;
    let low = v % 128;
    let high = v / 128;
    if !signed_group_is_last(low, high) {
        lemma_signed_round_trip(high, rest);
        assert(bytes.drop_first() =~= signed_leb128(high) + rest);
    }
}

} // verus!
