//! The two encoding primitives every packet is built from: the
//! variable-length integer and the length-prefixed string.

use vstd::prelude::*;
use vstd::utf8::{
    decode_utf8, encode_utf8, encode_utf8_decode_utf8, encode_utf8_valid_utf8, valid_utf8,
};

verus! {

/// Largest value, count or byte length the format can carry.
pub const MAX_VALUE: usize = 0x7fff_ffff;

/// Bytes of the variable-length encoding of `v`: seven payload bits per byte,
/// lowest group first, high bit set on every byte but the last.
pub open spec fn varint_bytes(v: nat) -> Seq<u8>
    decreases v,
{
    if v < 128 {
        seq![v as u8]
    } else {
        seq![(v % 128 + 128) as u8] + varint_bytes(v / 128)
    }
}

/// Bytes of a length-prefixed string: the byte length of its UTF-8 form as a
/// variable-length integer, then those bytes.
pub open spec fn string_bytes(s: Seq<char>) -> Seq<u8> {
    varint_bytes(encode_utf8(s).len()) + encode_utf8(s)
}

/// The lowest group of an integer is its remainder by 128, and what is left
/// after it the quotient.
proof fn lemma_low_group(v: u32)
    by (bit_vector)
    ensures
        (v & 0x7F) < 128,
        (v & 0x7F) == v % 128,
        (v >> 7) == v / 128,
{
}

/// Whether the format can state the length of `text`.
pub open spec fn fits(text: Seq<char>) -> bool {
    encode_utf8(text).len() <= MAX_VALUE
}

/// Whether the format can state the length of `text`.
pub fn has_room(text: &str) -> (r: bool)
    ensures
        r == fits(text@),
{
    text.as_bytes().len() <= MAX_VALUE
}

/// Setting the high bit of a group adds 128.
proof fn lemma_continuation_bit(t: u8)
    by (bit_vector)
    requires
        t < 128,
    ensures
        (t | 0x80) == t + 128,
{
}

/// Appends the variable-length encoding of `value` to `buf`.
pub fn write_varint(buf: &mut Vec<u8>, value: i32)
    requires
        value >= 0,
    ensures
        final(buf)@ == old(buf)@ + varint_bytes(value as nat),
{
    let mut rest: u32 = value as u32;
    loop
        invariant_except_break
            buf@ + varint_bytes(rest as nat) == old(buf)@ + varint_bytes(value as nat),
        ensures
            buf@ == old(buf)@ + varint_bytes(value as nat),
        decreases rest,
    {
        proof {
            lemma_low_group(rest);
        }
        let ghost before = buf@;
        let ghost prev = rest;
        let mut temp: u8 = (rest & 0x7F) as u8;
        rest = rest >> 7;
        if rest != 0 {
            proof {
                lemma_continuation_bit(temp);
            }
            temp = temp | 0x80;
        }
        buf.push(temp);
        proof {
            if rest != 0 {
                assert(varint_bytes(prev as nat) == seq![temp] + varint_bytes(rest as nat));
                assert(before.push(temp) + varint_bytes(rest as nat) == before + (seq![temp]
                    + varint_bytes(rest as nat)));
            } else {
                assert(varint_bytes(prev as nat) == seq![temp]);
                assert(before.push(temp) == before + seq![temp]);
            }
        }
        if rest == 0 {
            break ;
        }
    }
}

/// Appends `s` to `buf` as a length-prefixed string.
pub fn write_string(buf: &mut Vec<u8>, s: &str)
    requires
        fits(s@),
    ensures
        final(buf)@ == old(buf)@ + string_bytes(s@),
{
    let bytes = s.as_bytes();
    write_varint(buf, bytes.len() as i32);
    let ghost mid = buf@;
    buf.extend_from_slice(bytes);
    assert(buf@ == mid + bytes@);
    assert(buf@ == old(buf)@ + (varint_bytes(bytes@.len()) + bytes@));
}

/// The integer that `bytes` starts with, and the number of bytes it takes:
/// the groups of seven bits up to and with the first byte whose high bit is
/// clear, lowest group first. Bytes that hold no such byte state no integer.
pub open spec fn varint_value(bytes: Seq<u8>) -> Option<(nat, nat)>
    decreases bytes.len(),
{
    if bytes.len() == 0 {
        None
    } else if bytes[0] < 128 {
        Some((bytes[0] as nat, 1))
    } else {
        match varint_value(bytes.skip(1)) {
            Some((v, n)) => Some(((bytes[0] - 128 + 128 * v) as nat, n + 1)),
            None => None,
        }
    }
}

/// The string that `bytes` starts with, and the number of bytes it takes: a
/// length of no more than 31 bits, then that many bytes of UTF-8.
pub open spec fn string_value(bytes: Seq<u8>) -> Option<(Seq<char>, nat)> {
    match varint_value(bytes) {
        Some((len, n)) => if len <= MAX_VALUE && n + len <= bytes.len() && valid_utf8(
            bytes.subrange(n as int, (n + len) as int),
        ) {
            Some((decode_utf8(bytes.subrange(n as int, (n + len) as int)), n + len))
        } else {
            None
        },
        None => None,
    }
}

/// The number of binary digits of `v`.
pub open spec fn binary_digits(v: nat) -> nat
    decreases v,
{
    if v < 2 {
        1
    } else {
        1 + binary_digits(v / 2)
    }
}

/// Decoding what was encoded yields the integer that was encoded, whatever
/// follows it, and takes the bytes of the encoding.
pub proof fn lemma_varint_round_trip(v: nat, rest: Seq<u8>)
    ensures
        varint_value(varint_bytes(v) + rest) == Some((v, varint_bytes(v).len())),
    decreases v,
{
    let bytes = varint_bytes(v) + rest;
    if v >= 128 {
        lemma_varint_round_trip(v / 128, rest);
        assert(bytes.skip(1) =~= varint_bytes(v / 128) + rest);
        assert(bytes[0] == (v % 128 + 128) as u8);
    } else {
        assert(bytes[0] == v as u8);
    }
}

/// Seven binary digits are one group: an integer of 128 or more has seven
/// digits more than what is left of it after its lowest group.
proof fn lemma_digits_of_group(v: nat)
    requires
        v >= 128,
    ensures
        binary_digits(v) == 7 + binary_digits(v / 128),
{
    reveal_with_fuel(binary_digits, 8);
    assert(v / 2 / 2 / 2 / 2 / 2 / 2 / 2 == v / 128);
}

/// The encoding of an integer takes one byte for every seven binary digits
/// of it, the last group counted in full.
pub proof fn lemma_varint_length(v: nat)
    ensures
        varint_bytes(v).len() == (binary_digits(v) + 6) / 7,
    decreases v,
{
    if v >= 128 {
        lemma_varint_length(v / 128);
        lemma_digits_of_group(v);
    } else {
        reveal_with_fuel(binary_digits, 8);
    }
}

/// Decoding what was encoded yields the string that was encoded, whatever
/// follows it, and takes the bytes of the encoding.
pub proof fn lemma_string_round_trip(s: Seq<char>, rest: Seq<u8>)
    requires
        fits(s),
    ensures
        string_value(string_bytes(s) + rest) == Some((s, string_bytes(s).len())),
{
    let payload = encode_utf8(s);
    let prefix = varint_bytes(payload.len());
    let bytes = string_bytes(s) + rest;
    assert(bytes =~= prefix + (payload + rest));
    lemma_varint_round_trip(payload.len(), payload + rest);
    assert(bytes.subrange(prefix.len() as int, (prefix.len() + payload.len()) as int) =~= payload);
    encode_utf8_valid_utf8(s);
    encode_utf8_decode_utf8(s);
}

/// What `varint_value` says of the bytes from `start` on, as far as the
/// integer is one of 31 bits: the integer and the position behind it.
pub open spec fn varint_at(bytes: Seq<u8>, start: int) -> Option<(i32, usize)> {
    if 0 <= start <= bytes.len() {
        match varint_value(bytes.skip(start)) {
            Some((v, n)) => if v <= MAX_VALUE {
                Some((v as i32, (start + n) as usize))
            } else {
                None
            },
            None => None,
        }
    } else {
        None
    }
}

/// The integer stated by groups read so far, `low`, and by the bytes that
/// follow them, whose groups weigh `weight` each.
spec fn joined_groups(low: nat, weight: nat, count: nat, rest: Option<(nat, nat)>) -> Option<
    (nat, nat),
> {
    match rest {
        Some((v, n)) => Some((low + weight * v, n + count)),
        None => None,
    }
}

/// An integer is no less than its lowest group.
proof fn lemma_lowest_group(bytes: Seq<u8>)
    requires
        bytes.len() > 0,
        varint_value(bytes) is Some,
    ensures
        varint_value(bytes).unwrap().0 >= bytes[0] % 128,
        varint_value(bytes).unwrap().1 <= bytes.len(),
    decreases bytes.len(),
{
    if bytes[0] >= 128 {
        lemma_lowest_group(bytes.skip(1));
    }
}

/// Sums and products of groups and their weights.
proof fn lemma_weigh(low: nat, weight: nat, group: nat, v: nat)
    ensures
        low + weight * (group + 128 * v) == (low + weight * group) + (weight * 128) * v,
        v >= group ==> weight * v >= weight * group,
        group >= 1 ==> weight * group >= weight,
{
    assert(low + weight * (group + 128 * v) == (low + weight * group) + (weight * 128) * v)
        by (nonlinear_arith);
    assert(v >= group ==> weight * v >= weight * group) by (nonlinear_arith);
    assert(group >= 1 ==> weight * group >= weight) by (nonlinear_arith);
}

/// Reads the variable-length integer that starts at `start`. Returns it with
/// the position behind it, or nothing when the bytes end before the integer
/// does or the integer has more than 31 bits.
pub fn read_varint(bytes: &[u8], start: usize) -> (r: Option<(i32, usize)>)
    ensures
        r == varint_at(bytes@, start as int),
{
    if start > bytes.len() {
        return None;
    }
    let mut pos: usize = start;
    let mut low: u64 = 0;
    let mut weight: u64 = 1;
    let ghost full: nat = 1;
    let ghost whole = varint_value(bytes@.skip(start as int));
    while pos < bytes.len()
        invariant
            start <= pos <= bytes.len(),
            low <= MAX_VALUE,
            1 <= weight <= full,
            weight <= 0x40_0000_0000,
            weight <= MAX_VALUE ==> weight == full,
            whole == varint_value(bytes@.skip(start as int)),
            whole == joined_groups(
                low as nat,
                full,
                (pos - start) as nat,
                varint_value(bytes@.skip(pos as int)),
            ),
        decreases bytes.len() - pos,
    {
        let b: u8 = bytes[pos];
        let group: u8 = b % 128;
        let ghost tail = bytes@.skip(pos as int);
        let ghost after = varint_value(bytes@.skip(pos + 1));
        proof {
            assert(tail[0] == b);
            assert(tail.skip(1) =~= bytes@.skip(pos + 1));
            if varint_value(tail) is Some {
                lemma_lowest_group(tail);
                lemma_weigh(low as nat, full, group as nat, varint_value(tail).unwrap().0);
            }
            if after is Some {
                lemma_weigh(low as nat, full, group as nat, after.unwrap().0);
            }
            lemma_weigh(low as nat, full, group as nat, 0);
        }
        if group != 0 {
            if weight > MAX_VALUE as u64 {
                return None;
            }
            assert(group * weight <= 127 * weight) by (nonlinear_arith)
                requires
                    group <= 127,
            ;
            let add: u64 = group as u64 * weight;
            if low + add > MAX_VALUE as u64 {
                return None;
            }
            low = low + add;
        }
        if b < 128 {
            return Some((low as i32, pos + 1));
        }
        if weight <= MAX_VALUE as u64 {
            weight = weight * 128;
        }
        proof {
            full = full * 128;
        }
        pos = pos + 1;
    }
    proof {
        assert(bytes@.skip(pos as int).len() == 0);
    }
    None
}

/// Calls `String::from_utf8`, which accepts exactly the byte strings that
/// are valid UTF-8 and yields the text they encode.
#[verifier::external_body]
fn text_of(bytes: Vec<u8>) -> (r: Option<String>)
    ensures
        match r {
            Some(s) => valid_utf8(bytes@) && s@ == decode_utf8(bytes@),
            None => !valid_utf8(bytes@),
        },
{
    String::from_utf8(bytes).ok()
}

/// What `string_value` says of the bytes from `start` on: the string and the
/// position behind it.
pub open spec fn string_at(bytes: Seq<u8>, start: int) -> Option<(Seq<char>, int)> {
    if 0 <= start <= bytes.len() {
        match string_value(bytes.skip(start)) {
            Some((s, n)) => Some((s, start + n)),
            None => None,
        }
    } else {
        None
    }
}

/// Reads the length-prefixed string that starts at `start`. Returns it with
/// the position behind it, or nothing when the bytes end too early, the
/// length has more than 31 bits or the bytes are not UTF-8.
pub fn read_string(bytes: &[u8], start: usize) -> (r: Option<(String, usize)>)
    ensures
        match r {
            Some((s, next)) => string_at(bytes@, start as int) == Some((s@, next as int)),
            None => string_at(bytes@, start as int) is None,
        },
{
    let (len, from) = match read_varint(bytes, start) {
        Some(found) => found,
        None => {
            return None;
        },
    };
    let ghost tail = bytes@.skip(start as int);
    proof {
        lemma_varint_taken(tail);
    }
    let len = len as usize;
    if len > bytes.len() - from {
        return None;
    }
    let mut payload: Vec<u8> = Vec::new();
    let mut i: usize = 0;
    while i < len
        invariant
            i <= len,
            from + len <= bytes.len(),
            payload@ == bytes@.subrange(from as int, from + i),
        decreases len - i,
    {
        payload.push(bytes[from + i]);
        assert(bytes@.subrange(from as int, from + i + 1) =~= bytes@.subrange(
            from as int,
            from + i,
        ).push(bytes@[from + i]));
        i += 1;
    }
    proof {
        assert(tail.subrange(from - start, from - start + len) =~= bytes@.subrange(
            from as int,
            from + len,
        ));
    }
    match text_of(payload) {
        Some(s) => Some((s, from + len)),
        None => None,
    }
}

/// An integer takes at least one byte and no more than there are.
proof fn lemma_varint_taken(bytes: Seq<u8>)
    ensures
        varint_value(bytes) matches Some((v, n)) ==> 1 <= n <= bytes.len(),
    decreases bytes.len(),
{
    if bytes.len() > 0 && bytes[0] >= 128 {
        lemma_varint_taken(bytes.skip(1));
    }
}

/// What `write_varint` has appended, `read_varint` reads back: behind any
/// bytes and before any others, the encoding of an integer is read as that
/// integer, and the position behind it is the end of the encoding.
pub proof fn lemma_varint_read_back(before: Seq<u8>, value: i32, rest: Seq<u8>)
    requires
        value >= 0,
        before.len() + varint_bytes(value as nat).len() <= usize::MAX,
    ensures
        varint_at(before + varint_bytes(value as nat) + rest, before.len() as int) == Some(
            (value, (before.len() + varint_bytes(value as nat).len()) as usize),
        ),
{
    let encoding = varint_bytes(value as nat);
    assert((before + encoding + rest).skip(before.len() as int) =~= encoding + rest);
    lemma_varint_round_trip(value as nat, rest);
}

/// What `write_string` has appended, `read_string` reads back.
pub proof fn lemma_string_read_back(before: Seq<u8>, s: Seq<char>, rest: Seq<u8>)
    requires
        fits(s),
    ensures
        string_at(before + string_bytes(s) + rest, before.len() as int) == Some(
            (s, (before.len() + string_bytes(s).len()) as int),
        ),
{
    let encoding = string_bytes(s);
    assert((before + encoding + rest).skip(before.len() as int) =~= encoding + rest);
    lemma_string_round_trip(s, rest);
}

} // verus!
