use vstd::prelude::*;

verus! {

// ---------------------------------------------------------------------------
// Fixed-width little-endian integers
// ---------------------------------------------------------------------------

/// The four little-endian bytes of `v`.
pub open spec fn spec_fixed32(v: u32) -> Seq<u8> {
    seq![v as u8, (v >> 8u32) as u8, (v >> 16u32) as u8, (v >> 24u32) as u8]
}

/// The eight little-endian bytes of `v`.
pub open spec fn spec_fixed64(v: u64) -> Seq<u8> {
    seq![
        v as u8,
        (v >> 8u64) as u8,
        (v >> 16u64) as u8,
        (v >> 24u64) as u8,
        (v >> 32u64) as u8,
        (v >> 40u64) as u8,
        (v >> 48u64) as u8,
        (v >> 56u64) as u8,
    ]
}

/// The integer whose little-endian bytes are the first four of `s`.
pub open spec fn spec_decode_fixed32(s: Seq<u8>) -> u32 {
    (s[0] as u32) | ((s[1] as u32) << 8u32) | ((s[2] as u32) << 16u32) | ((s[3] as u32) << 24u32)
}

/// The integer whose little-endian bytes are the first eight of `s`.
pub open spec fn spec_decode_fixed64(s: Seq<u8>) -> u64 {
    (s[0] as u64) | ((s[1] as u64) << 8u64) | ((s[2] as u64) << 16u64) | ((s[3] as u64) << 24u64)
        | ((s[4] as u64) << 32u64) | ((s[5] as u64) << 40u64) | ((s[6] as u64) << 48u64) | ((
    s[7] as u64) << 56u64)
}

/// Decoding the fixed 32-bit encoding of `v` gives back `v`.
pub proof fn lemma_fixed32_round_trip(v: u32)
    ensures
        spec_decode_fixed32(spec_fixed32(v)) == v,
{
    let b0 = v as u8;
    let b1 = (v >> 8u32) as u8;
    let b2 = (v >> 16u32) as u8;
    let b3 = (v >> 24u32) as u8;
    assert(((b0 as u32) | ((b1 as u32) << 8u32) | ((b2 as u32) << 16u32) | ((b3 as u32) << 24u32))
        == v) by (bit_vector)
        requires
            b0 == v as u8,
            b1 == (v >> 8u32) as u8,
            b2 == (v >> 16u32) as u8,
            b3 == (v >> 24u32) as u8,
    ;
}

/// Decoding the fixed 64-bit encoding of `v` gives back `v`.
pub proof fn lemma_fixed64_round_trip(v: u64)
    ensures
        spec_decode_fixed64(spec_fixed64(v)) == v,
{
    let b0 = v as u8;
    let b1 = (v >> 8u64) as u8;
    let b2 = (v >> 16u64) as u8;
    let b3 = (v >> 24u64) as u8;
    let b4 = (v >> 32u64) as u8;
    let b5 = (v >> 40u64) as u8;
    let b6 = (v >> 48u64) as u8;
    let b7 = (v >> 56u64) as u8;
    assert(((b0 as u64) | ((b1 as u64) << 8u64) | ((b2 as u64) << 16u64) | ((b3 as u64) << 24u64)
        | ((b4 as u64) << 32u64) | ((b5 as u64) << 40u64) | ((b6 as u64) << 48u64) | ((
    b7 as u64) << 56u64)) == v) by (bit_vector)
        requires
            b0 == v as u8,
            b1 == (v >> 8u64) as u8,
            b2 == (v >> 16u64) as u8,
            b3 == (v >> 24u64) as u8,
            b4 == (v >> 32u64) as u8,
            b5 == (v >> 40u64) as u8,
            b6 == (v >> 48u64) as u8,
            b7 == (v >> 56u64) as u8,
    ;
}

/// Eight bytes are the fixed 64-bit encoding of the integer they decode to.
pub proof fn lemma_fixed64_encode_decode(s: Seq<u8>)
    requires
        s.len() == 8,
    ensures
        spec_fixed64(spec_decode_fixed64(s)) == s,
{
    let (b0, b1, b2, b3, b4, b5, b6, b7) = (s[0], s[1], s[2], s[3], s[4], s[5], s[6], s[7]);
    let v = spec_decode_fixed64(s);
    assert(v == (b0 as u64) | ((b1 as u64) << 8u64) | ((b2 as u64) << 16u64) | ((b3 as u64) << 24u64)
        | ((b4 as u64) << 32u64) | ((b5 as u64) << 40u64) | ((b6 as u64) << 48u64) | ((b7 as u64) << 56u64));
    assert(v as u8 == b0 && (v >> 8u64) as u8 == b1 && (v >> 16u64) as u8 == b2 && (v >> 24u64) as u8 == b3
        && (v >> 32u64) as u8 == b4 && (v >> 40u64) as u8 == b5 && (v >> 48u64) as u8 == b6
        && (v >> 56u64) as u8 == b7) by (bit_vector)
        requires
            v == (b0 as u64) | ((b1 as u64) << 8u64) | ((b2 as u64) << 16u64) | ((b3 as u64) << 24u64)
                | ((b4 as u64) << 32u64) | ((b5 as u64) << 40u64) | ((b6 as u64) << 48u64) | ((
            b7 as u64) << 56u64),
    ;
    assert(spec_fixed64(v) =~= s);
}

/// Two 8-byte strings that decode to the same integer are equal.
pub proof fn lemma_fixed64_injective(a: Seq<u8>, b: Seq<u8>)
    requires
        a.len() == 8,
        b.len() == 8,
        spec_decode_fixed64(a) == spec_decode_fixed64(b),
    ensures
        a == b,
{
    lemma_fixed64_encode_decode(a);
    lemma_fixed64_encode_decode(b);
}

/// Writes the four little-endian bytes of `value` at the start of `dst`.
pub fn encode_fixed32(dst: &mut [u8], value: u32)
    requires
        old(dst)@.len() >= 4,
    ensures
        final(dst)@ == spec_fixed32(value) + old(dst)@.subrange(4, old(dst)@.len() as int),
{
    dst[0] = value as u8;
    dst[1] = (value >> 8) as u8;
    dst[2] = (value >> 16) as u8;
    dst[3] = (value >> 24) as u8;
    assert(dst@ =~= spec_fixed32(value) + old(dst)@.subrange(4, old(dst)@.len() as int));
}

/// Writes the eight little-endian bytes of `value` at the start of `dst`.
pub fn encode_fixed64(dst: &mut [u8], value: u64)
    requires
        old(dst)@.len() >= 8,
    ensures
        final(dst)@ == spec_fixed64(value) + old(dst)@.subrange(8, old(dst)@.len() as int),
{
    dst[0] = value as u8;
    dst[1] = (value >> 8) as u8;
    dst[2] = (value >> 16) as u8;
    dst[3] = (value >> 24) as u8;
    dst[4] = (value >> 32) as u8;
    dst[5] = (value >> 40) as u8;
    dst[6] = (value >> 48) as u8;
    dst[7] = (value >> 56) as u8;
    assert(dst@ =~= spec_fixed64(value) + old(dst)@.subrange(8, old(dst)@.len() as int));
}

/// Reads a little-endian 32-bit integer from the first four bytes of `input`.
pub fn decode_fixed32(input: &[u8]) -> (r: u32)
    requires
        input@.len() >= 4,
    ensures
        r == spec_decode_fixed32(input@),
{
    (input[0] as u32) | ((input[1] as u32) << 8) | ((input[2] as u32) << 16) | ((input[3] as u32)
        << 24)
}

/// Reads a little-endian 64-bit integer from the first eight bytes of `input`.
pub fn decode_fixed64(input: &[u8]) -> (r: u64)
    requires
        input@.len() >= 8,
    ensures
        r == spec_decode_fixed64(input@),
{
    (input[0] as u64) | ((input[1] as u64) << 8) | ((input[2] as u64) << 16) | ((input[3] as u64)
        << 24) | ((input[4] as u64) << 32) | ((input[5] as u64) << 40) | ((input[6] as u64) << 48)
        | ((input[7] as u64) << 56)
}

/// Appends the four little-endian bytes of `value` to `dst`.
pub fn extend_fixed32(dst: &mut Vec<u8>, value: u32)
    ensures
        final(dst)@ == old(dst)@ + spec_fixed32(value),
{
    dst.push(value as u8);
    dst.push((value >> 8) as u8);
    dst.push((value >> 16) as u8);
    dst.push((value >> 24) as u8);
    assert(dst@ =~= old(dst)@ + spec_fixed32(value));
}

/// Appends the eight little-endian bytes of `value` to `dst`.
pub fn extend_fixed64(dst: &mut Vec<u8>, value: u64)
    ensures
        final(dst)@ == old(dst)@ + spec_fixed64(value),
{
    dst.push(value as u8);
    dst.push((value >> 8) as u8);
    dst.push((value >> 16) as u8);
    dst.push((value >> 24) as u8);
    dst.push((value >> 32) as u8);
    dst.push((value >> 40) as u8);
    dst.push((value >> 48) as u8);
    dst.push((value >> 56) as u8);
    assert(dst@ =~= old(dst)@ + spec_fixed64(value));
}

// ---------------------------------------------------------------------------
// Variable-length integers: seven data bits per byte, high bit = "more follows"
// ---------------------------------------------------------------------------

/// The varint encoding of `v`.
pub open spec fn spec_varint(v: nat) -> Seq<u8>
    decreases v,
{
    if v < 128 {
        seq![v as u8]
    } else {
        seq![(v % 128 + 128) as u8] + spec_varint(v / 128)
    }
}

/// Decodes a varint from the front of `s`, reading at most `limit` bytes.
/// Gives the value and the number of bytes read, or `None` if `s` ends, or
/// `limit` bytes pass, before a byte without the continuation bit.
pub open spec fn spec_decode_varint(s: Seq<u8>, limit: nat) -> Option<(nat, nat)>
    decreases limit,
{
    if limit == 0 || s.len() == 0 {
        None
    } else if s[0] < 128 {
        Some((s[0] as nat, 1))
    } else {
        match spec_decode_varint(s.drop_first(), (limit - 1) as nat) {
            Some((v, n)) => Some((((s[0] - 128) + 128 * v) as nat, n + 1)),
            None => None,
        }
    }
}

/// What `decode_varint32` returns: at most five bytes, value cut to 32 bits.
pub open spec fn spec_decode_varint32(s: Seq<u8>) -> Option<(u32, nat)> {
    match spec_decode_varint(s, 5) {
        Some((v, n)) => Some(((v % 0x1_0000_0000) as u32, n)),
        None => None,
    }
}

proof fn lemma_decode_varint_len(s: Seq<u8>, limit: nat)
    ensures
        spec_decode_varint(s, limit) is Some ==> 1 <= spec_decode_varint(s, limit).unwrap().1 <= s.len(),
    decreases limit,
{
    if limit > 0 && s.len() > 0 && s[0] >= 128 {
        lemma_decode_varint_len(s.drop_first(), (limit - 1) as nat);
    }
}

proof fn lemma_varint32_decode_len(s: Seq<u8>)
    ensures
        spec_decode_varint32(s) is Some ==> spec_decode_varint32(s).unwrap().1 <= s.len(),
{
    lemma_decode_varint_len(s, 5);
}

/// What `decode_varint64` returns: at most ten bytes, value cut to 64 bits.
pub open spec fn spec_decode_varint64(s: Seq<u8>) -> Option<(u64, nat)> {
    match spec_decode_varint(s, 10) {
        Some((v, n)) => Some(((v % 0x1_0000_0000_0000_0000) as u64, n)),
        None => None,
    }
}

pub open spec fn pow128(k: nat) -> nat
    decreases k,
{
    if k == 0 {
        1
    } else {
        128 * pow128((k - 1) as nat)
    }
}

/// A value below 128^k takes at most k bytes.
pub proof fn lemma_varint_len_bound(v: nat, k: nat)
    requires
        k >= 1,
        v < pow128(k),
    ensures
        1 <= spec_varint(v).len() <= k,
    decreases v,
{
    if v >= 128 {
        assert(k >= 2) by {
            if k == 1 {
                assert(pow128(1) == 128 * pow128(0));
            }
        }
        assert(pow128(k) == 128 * pow128((k - 1) as nat));
        assert(v / 128 < pow128((k - 1) as nat));
        lemma_varint_len_bound(v / 128, (k - 1) as nat);
    }
}

/// Decoding `spec_varint(v)` followed by anything gives back `v` and the
/// length of the encoding, whenever the encoding fits within `limit` bytes.
pub proof fn lemma_varint_decode_encode(v: nat, rest: Seq<u8>, limit: nat)
    requires
        spec_varint(v).len() <= limit,
    ensures
        spec_decode_varint(spec_varint(v) + rest, limit) == Some((v, spec_varint(v).len())),
    decreases v,
{
    let s = spec_varint(v) + rest;
    if v < 128 {
        assert(s[0] == v as u8);
    } else {
        let tail = spec_varint(v / 128);
        lemma_varint_decode_encode(v / 128, rest, (limit - 1) as nat);
        assert(s.drop_first() =~= tail + rest);
        assert(s[0] == (v % 128 + 128) as u8);
    }
}

/// Every byte of an encoding but the last has the continuation bit; it is
/// never empty.
pub proof fn lemma_varint_nonempty(v: nat)
    ensures
        spec_varint(v).len() >= 1,
    decreases v,
{
    if v >= 128 {
        lemma_varint_nonempty(v / 128);
    }
}

/// Varint round trip: decoding the encoding of any `u64` gives it back, and
/// reads exactly `spec_varint(v).len()` bytes, which is at most ten.
pub proof fn lemma_varint64_round_trip(v: u64, rest: Seq<u8>)
    ensures
        spec_varint(v as nat).len() <= 10,
        spec_decode_varint64(spec_varint(v as nat) + rest) == Some((v, spec_varint(v as nat).len())),
{
    reveal_with_fuel(pow128, 11);
    assert(pow128(10) == 0x1_0000_0000_0000_0000 * 64);
    lemma_varint_len_bound(v as nat, 10);
    lemma_varint_decode_encode(v as nat, rest, 10);
}

/// The same round trip for `u32`, in at most five bytes.
pub proof fn lemma_varint32_round_trip(v: u32, rest: Seq<u8>)
    ensures
        spec_varint(v as nat).len() <= 5,
        spec_decode_varint32(spec_varint(v as nat) + rest) == Some((v, spec_varint(v as nat).len())),
{
    reveal_with_fuel(pow128, 6);
    assert(pow128(5) == 0x1_0000_0000 * 8);
    lemma_varint_len_bound(v as nat, 5);
    lemma_varint_decode_encode(v as nat, rest, 5);
}

proof fn lemma_low7_u64(v: u64)
    ensures
        v >= 128 ==> (v | 128) as u8 == (v % 128 + 128) as u8,
        v >> 7u64 == v / 128,
{
    assert(v >= 128 ==> (v | 128) as u8 == (v % 128 + 128) as u8) by (bit_vector);
    assert(v >> 7u64 == v / 128) by (bit_vector);
}

/// Writes the varint encoding of `value` at the start of `dst`; returns its length.
pub fn encode_varint32(dst: &mut [u8], value: u32) -> (r: usize)
    requires
        old(dst)@.len() >= spec_varint(value as nat).len(),
    ensures
        r == spec_varint(value as nat).len(),
        final(dst)@ == spec_varint(value as nat) + old(dst)@.subrange(r as int, old(dst)@.len() as int),
{
    encode_varint64(dst, value as u64)
}

/// Writes the varint encoding of `value` at the start of `dst`; returns its length.
pub fn encode_varint64(dst: &mut [u8], value: u64) -> (r: usize)
    requires
        old(dst)@.len() >= spec_varint(value as nat).len(),
    ensures
        r == spec_varint(value as nat).len(),
        final(dst)@ == spec_varint(value as nat) + old(dst)@.subrange(r as int, old(dst)@.len() as int),
{
    let ghost total = spec_varint(value as nat);
    let mut v: u64 = value;
    let mut index: usize = 0;
    proof {
        lemma_varint_nonempty(value as nat);
        assert(total.subrange(0, total.len() as int) =~= total);
    }
    while v >= 128
        invariant
            dst@.len() == old(dst)@.len(),
            total.len() <= dst@.len(),
            index + spec_varint(v as nat).len() == total.len(),
            spec_varint(v as nat).len() >= 1,
            total.subrange(index as int, total.len() as int) == spec_varint(v as nat),
            forall|j: int| 0 <= j < index ==> dst@[j] == total[j],
            forall|j: int| index <= j < dst@.len() ==> dst@[j] == old(dst)@[j],
        decreases v,
    {
        proof {
            lemma_low7_u64(v);
            lemma_varint_nonempty((v / 128) as nat);
            assert(total[index as int] == spec_varint(v as nat)[0]);
            assert(total.subrange(index + 1, total.len() as int) =~= spec_varint(v as nat).drop_first());
            assert(spec_varint(v as nat).drop_first() =~= spec_varint((v / 128) as nat));
        }
        dst[index] = (v | 128) as u8;
        v = v >> 7;
        index = index + 1;
    }
    proof {
        assert(total[index as int] == spec_varint(v as nat)[0]);
    }
    dst[index] = v as u8;
    assert(dst@ =~= total + old(dst)@.subrange(index + 1, old(dst)@.len() as int));
    index + 1
}

/// Appends the varint encoding of `value` to `dst`.
pub fn extend_varint32(dst: &mut Vec<u8>, value: u32)
    ensures
        final(dst)@ == old(dst)@ + spec_varint(value as nat),
{
    extend_varint64(dst, value as u64)
}

/// Appends the varint encoding of `value` to `dst`.
pub fn extend_varint64(dst: &mut Vec<u8>, value: u64)
    ensures
        final(dst)@ == old(dst)@ + spec_varint(value as nat),
{
    let mut v: u64 = value;
    while v >= 128
        invariant
            old(dst)@ + spec_varint(value as nat) == dst@ + spec_varint(v as nat),
        decreases v,
    {
        proof {
            lemma_low7_u64(v);
        }
        let ghost prev = dst@;
        dst.push((v | 128) as u8);
        assert(prev + spec_varint(v as nat) =~= dst@ + spec_varint((v / 128) as nat));
        v = v >> 7;
    }
    dst.push(v as u8);
    assert(old(dst)@ + spec_varint(value as nat) =~= dst@);
}

/// Decodes a varint of at most `limit` bytes starting at `input[pos]`; the
/// value is kept modulo 2^64.
fn decode_varint_at(input: &[u8], pos: usize, limit: usize) -> (r: Option<(u64, usize)>)
    requires
        pos <= input@.len(),
        limit <= 10,
    ensures
        match spec_decode_varint(input@.subrange(pos as int, input@.len() as int), limit as nat) {
            Some((v, n)) => r == Some(((v % 0x1_0000_0000_0000_0000) as u64, n as usize)),
            None => r.is_none(),
        },
        r.is_some() ==> 1 <= r.unwrap().1 <= limit && r.unwrap().1 <= input@.len() - pos,
    decreases limit,
{
    let ghost s = input@.subrange(pos as int, input@.len() as int);
    if limit == 0 || pos == input.len() {
        return None;
    }
    let byte = input[pos];
    assert(s[0] == byte);
    if byte < 128 {
        proof {
            vstd::arithmetic::div_mod::lemma_small_mod(byte as nat, 0x1_0000_0000_0000_0000);
        }
        return Some((byte as u64, 1));
    }
    assert(s.drop_first() =~= input@.subrange(pos + 1, input@.len() as int));
    match decode_varint_at(input, pos + 1, limit - 1) {
        Some((rest, n)) => {
            let low = (byte - 128) as u64;
            let r = low.wrapping_add(rest.wrapping_mul(128));
            proof {
                let v: int = spec_decode_varint(s.drop_first(), (limit - 1) as nat).unwrap().0 as int;
                let m: int = 0x1_0000_0000_0000_0000;
                lemma_decode_varint_len(s.drop_first(), (limit - 1) as nat);
                assert(rest as int == v % m);
                assert(rest.wrapping_mul(128) as int == (rest as int * 128) % m);
                vstd::arithmetic::div_mod::lemma_mul_mod_noop_left(v, 128, m);
                assert(rest.wrapping_mul(128) as int == (v * 128) % m);
                assert(r as int == (low as int + rest.wrapping_mul(128) as int) % m);
                vstd::arithmetic::div_mod::lemma_add_mod_noop_right(low as int, v * 128, m);
                assert(r as int == (low as int + v * 128) % m);
                assert(spec_decode_varint(s, limit as nat).unwrap().0 == low as int + 128 * v);
                assert(spec_decode_varint(s, limit as nat).unwrap().1 == n + 1);
                vstd::arithmetic::div_mod::lemma_small_mod(r as nat, m as nat);
                assert(((spec_decode_varint(s, limit as nat).unwrap().0 % 0x1_0000_0000_0000_0000) as u64) == r);
            }
            Some((r, n + 1))
        },
        None => None,
    }
}

/// Decodes a varint32 from the front of `input`: the value and the number of
/// bytes read, or `None` if `input` is truncated or the varint runs past five bytes.
pub fn decode_varint32(input: &[u8]) -> (r: Option<(u32, usize)>)
    ensures
        match spec_decode_varint32(input@) {
            Some((v, n)) => r == Some((v, n as usize)),
            None => r.is_none(),
        },
        r.is_some() ==> 1 <= r.unwrap().1 <= input@.len(),
{
    assert(input@.subrange(0, input@.len() as int) =~= input@);
    match decode_varint_at(input, 0, 5) {
        Some((v, n)) => {
            proof {
                let w = spec_decode_varint(input@, 5).unwrap().0;
                vstd::arithmetic::div_mod::lemma_mod_mod(w as int, 0x1_0000_0000, 0x1_0000_0000);
                assert(0x1_0000_0000_0000_0000int == 0x1_0000_0000int * 0x1_0000_0000int);
                assert(v as int == (w as int) % 0x1_0000_0000_0000_0000int);
            }
            Some(((v % 0x1_0000_0000) as u32, n))
        },
        None => None,
    }
}

/// Decodes a varint64 from the front of `input`: the value and the number of
/// bytes read, or `None` if `input` is truncated or the varint runs past ten bytes.
pub fn decode_varint64(input: &[u8]) -> (r: Option<(u64, usize)>)
    ensures
        match spec_decode_varint64(input@) {
            Some((v, n)) => r == Some((v, n as usize)),
            None => r.is_none(),
        },
{
    assert(input@.subrange(0, input@.len() as int) =~= input@);
    decode_varint_at(input, 0, 10)
}

/// The number of bytes in the varint encoding of `value`.
pub fn varint_size(value: u64) -> (r: usize)
    ensures
        r == spec_varint(value as nat).len(),
        1 <= r <= 10,
{
    proof {
        lemma_varint64_round_trip(value, seq![]);
        lemma_varint_nonempty(value as nat);
    }
    let mut v: u64 = value;
    let mut len: usize = 1;
    while v >= 128
        invariant
            len + spec_varint(v as nat).len() == spec_varint(value as nat).len() + 1,
            spec_varint(value as nat).len() <= 10,
        decreases v,
    {
        proof {
            lemma_low7_u64(v);
            lemma_varint_nonempty((v / 128) as nat);
        }
        v = v >> 7;
        len = len + 1;
    }
    len
}

// ---------------------------------------------------------------------------
// Length-prefixed byte strings
// ---------------------------------------------------------------------------

/// `varint32(len) || bytes`
pub open spec fn spec_size_prefixed(bytes: Seq<u8>) -> Seq<u8> {
    spec_varint(bytes.len()) + bytes
}

/// The byte string at the front of `s` and the number of bytes it took with
/// its prefix, or `None` when the prefix is bad or the bytes run past the end.
pub open spec fn spec_decode_size_prefixed(s: Seq<u8>) -> Option<(Seq<u8>, nat)> {
    match spec_decode_varint32(s) {
        Some((len, n)) => if n + len <= s.len() {
            Some((s.subrange(n as int, n + len), (n + len) as nat))
        } else {
            None
        },
        None => None,
    }
}

/// Decoding a length-prefixed string followed by anything gives it back.
pub proof fn lemma_size_prefixed_round_trip(bytes: Seq<u8>, rest: Seq<u8>)
    requires
        bytes.len() <= u32::MAX,
    ensures
        spec_decode_size_prefixed(spec_size_prefixed(bytes) + rest) == Some(
            (bytes, spec_size_prefixed(bytes).len()),
        ),
{
    let n = spec_varint(bytes.len()).len();
    lemma_varint32_round_trip(bytes.len() as u32, bytes + rest);
    let s = spec_size_prefixed(bytes) + rest;
    assert(s =~= spec_varint(bytes.len()) + (bytes + rest));
    assert(s.subrange(n as int, (n + bytes.len()) as int) =~= bytes);
}

/// Appends `varint32(value.len()) || value` to `dst`.
pub fn extend_size_prefixed_slice(dst: &mut Vec<u8>, value: &[u8])
    requires
        value@.len() <= u32::MAX,
    ensures
        final(dst)@ == old(dst)@ + spec_size_prefixed(value@),
{
    extend_varint32(dst, value.len() as u32);
    dst.extend_from_slice(value);
    assert(dst@ =~= old(dst)@ + spec_size_prefixed(value@));
}

/// Reads a length-prefixed byte string from the front of `input`; returns it
/// with the number of bytes consumed.
pub fn decode_size_prefixed_slice(input: &[u8]) -> (r: Option<(&[u8], usize)>)
    ensures
        match spec_decode_size_prefixed(input@) {
            Some((bytes, n)) => r.is_some() && r.unwrap().0@ == bytes && r.unwrap().1 == n,
            None => r.is_none(),
        },
{
    match decode_varint32(input) {
        Some((len, offset)) => {
            proof {
                lemma_varint32_decode_len(input@);
            }
            if len as usize <= input.len() - offset {
                Some((vstd::slice::slice_subrange(input, offset, offset + len as usize), offset + len as usize))
            } else {
                None
            }
        },
        None => None,
    }
}

} // verus!
